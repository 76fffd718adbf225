//! Rank by a count per 512-bit superblock with the counts of its blocks packed into one
//! word, all stored next to the words they describe.

use vstd::prelude::*;
use crate::bitvector_rank::bits::{
    bit, count_ones, field9, lemma_count_true_bound, lemma_low_bits, lemma_mask_computable,
    lemma_pack9, lemma_rank_extend, lemma_set_bit, lemma_word_rank, lemma_zero_word, rank_of,
};

verus! {

/// Groups of 10 entries, one per superblock of 8 words: the number of set bits before the
/// superblock, a word of packed 9-bit counts of the set bits between the start of the
/// superblock and each of its words, and the 8 words themselves.
pub struct Rank51264Interlaced {
    len: usize,
    words: Vec<u64>,
}

/// The number of set bits before word `b` of superblock `a`, as the layout records it.
pub open spec fn prefix_at(words: Seq<u64>, a: int, b: int) -> int {
    words[10 * a] + (if b == 0 {
        0
    } else {
        field9(words[10 * a + 1], (b - 1) as nat) as int
    })
}

/// Word `b` of superblock `a`.
pub open spec fn word_at(words: Seq<u64>, a: int, b: int) -> u64 {
    words[10 * a + 2 + b]
}

/// The position of the first bit of word `b` of superblock `a`.
pub open spec fn start_of(a: int, b: int) -> int {
    64 * (8 * a + b)
}

/// The recorded counts up to word `b` of superblock `a` agree with `bits`.
pub open spec fn counts_agree(words: Seq<u64>, bits: Seq<bool>, a: int, b: int) -> bool {
    forall|x: int, y: int|
        0 <= x && 0 <= y < 8 && 8 * x + y <= 8 * a + b ==> #[trigger] prefix_at(
            words,
            x,
            y,
        ) == rank_of(bits, start_of(x, y))
}

/// The words before word `b` of superblock `a` hold the entries of `bits`.
pub open spec fn words_agree(words: Seq<u64>, bits: Seq<bool>, a: int, b: int) -> bool {
    forall|x: int, y: int, j: nat|
        0 <= x && 0 <= y < 8 && 8 * x + y < 8 * a + b && j < 64 ==> bit(
            #[trigger] word_at(words, x, y),
            j,
        ) == #[trigger] bits[start_of(x, y) + j]
}

impl View for Rank51264Interlaced {
    type V = Seq<bool>;

    /// The indexed bits.
    closed spec fn view(&self) -> Seq<bool> {
        Seq::new(
            self.len as nat,
            |i: int| bit(word_at(self.words@, i / 512, (i % 512) / 64), (i % 64) as nat),
        )
    }
}

impl Rank51264Interlaced {
    /// The recorded counts agree with the words.
    pub closed spec fn wf(&self) -> bool {
        &&& self.words.len() == 10 * (self.len / 512) + 3 + (self.len % 512) / 64
        &&& counts_agree(self.words@, self@, self.len as int / 512, (self.len as int % 512) / 64)
    }

    /// The number of set bits before position `index`.
    pub fn rank(&self, index: usize) -> (r: usize)
        requires
            self.wf(),
            index <= self@.len(),
        ensures
            r == rank_of(self@, index as int),
    {
        let a = index / 512;
        let b = index % 512 / 64;
        let c = index % 64;
        proof {
            lemma_position(index as int);
            lemma_position(self.len as int);
            lemma_position_order(index as int, self.len as int);
        }
        let sum = self.words[a * 10];
        let packed = self.words[a * 10 + 1];
        let word = self.words[a * 10 + 2 + b];
        proof {
            let base = start_of(a as int, b as int);
            lemma_mask_computable(c as u64);
            lemma_low_bits(word, c as nat, 64);
            assert(prefix_at(self.words@, a as int, b as int) == rank_of(self@, base));
            assert(word == word_at(self.words@, a as int, b as int));
            assert forall|j: nat| j < c implies self@[base + j] == bit(word, j) by {
                lemma_position_within(a as int, b as int, j as int);
            }
            lemma_rank_extend(self@, base, word, c as nat);
            lemma_count_true_bound(self@.subrange(0, index as int));
        }
        let ans = sum + (if b == 0 {
            0
        } else {
            (packed >> (((b - 1) * 9) as u64)) & 511
        }) + count_ones(word & ((1u64 << (c as u64)) - 1)) as u64;
        ans as usize
    }

    /// The index of `bits`.
    pub fn from_iter(bits: Vec<bool>) -> (s: Self)
        ensures
            s.wf(),
            s@ == bits@,
    {
        let n = bits.len();
        let mut len: usize = 0;
        let mut word: u64 = 0;
        let mut words: Vec<u64> = Vec::new();
        words.push(0u64);
        words.push(0u64);
        let mut a: usize = 0;
        let mut b: usize = 0;
        let mut sum: u32 = 0;
        proof {
            lemma_zero_word(0);
            lemma_zero_word(9);
            assert(bits@.subrange(0, 0) =~= Seq::<bool>::empty());
        }
        while len < n
            invariant
                n == bits.len(),
                len <= n,
                b < 8,
                len / 64 == 8 * a + b,
                words.len() == 10 * a + 2 + b,
                sum + words[10 * a as int] == rank_of(bits@, start_of(a as int, b as int)),
                sum <= 64 * b,
                words[10 * a + 1] >> ((9 * b) as u64) == 0,
                counts_agree(words@, bits@, a as int, b as int),
                words_agree(words@, bits@, a as int, b as int),
                forall|j: nat| j < len % 64 ==> bit(word, j) == bits[64 * (len / 64) + j],
                word >> ((len % 64) as u64) == 0,
            decreases n - len,
        {
            let elm = bits[len];
            let k = (len % 64) as u64;
            let ghost old_word = word;
            let ghost base = start_of(a as int, b as int);
            word = word | ((if elm {
                1u64
            } else {
                0u64
            }) << k);
            proof {
                assert forall|j: nat| j < k + 1 implies bit(word, j) == bits[base + j] by {
                    lemma_set_bit(old_word, k, elm, j as u64);
                }
                lemma_set_bit(old_word, k, elm, 0);
            }
            len += 1;
            proof {
                lemma_boundary(len as int, a as int, b as int);
            }
            if len % 64 == 0 {
                proof {
                    lemma_word_rank(bits@, base, word);
                    lemma_zero_word(0);
                    lemma_zero_word(9);
                }
                sum += count_ones(word);
                let ghost before = words@;
                let ghost done = word;
                words.push(word);
                word = 0;
                if len % 512 == 0 {
                    let total = words[a * 10] + sum as u64;
                    words.push(total);
                    words.push(0);
                    proof {
                        lemma_closed_superblock(before, words@, bits@, a as int, done);
                    }
                    a += 1;
                    b = 0;
                    sum = 0;
                } else {
                    let old_packed = words[a * 10 + 1];
                    let packed = old_packed | ((sum as u64) << ((b * 9) as u64));
                    words.set(a * 10 + 1, packed);
                    proof {
                        lemma_closed_word(
                            before,
                            words@,
                            bits@,
                            a as int,
                            b as int,
                            done,
                            sum as u64,
                        );
                    }
                    b += 1;
                }
            }
        }
        let ghost before = words@;
        words.push(word);
        let s = Self { len, words };
        proof {
            lemma_position(len as int);
            assert(len / 512 == a && (len % 512) / 64 == b);
            assert forall|x: int, y: int|
                0 <= x && 0 <= y < 8 && 8 * x + y <= 8 * a + b implies #[trigger] prefix_at(
                s.words@,
                x,
                y,
            ) == prefix_at(before, x, y) by {}
            assert forall|i: int| 0 <= i < n implies bit(
                word_at(s.words@, i / 512, (i % 512) / 64),
                (i % 64) as nat,
            ) == bits[i] by {
                let x = i / 512;
                let y = (i % 512) / 64;
                let j = (i % 64) as nat;
                lemma_position(i);
                lemma_position_order(i, len as int);
                if 8 * x + y < 8 * a + b {
                    assert(word_at(s.words@, x, y) == word_at(before, x, y));
                    assert(bit(word_at(before, x, y), j) == bits[start_of(x, y) + j]);
                } else {
                    assert(x == a && y == b);
                    assert(word_at(s.words@, x, y) == word);
                }
            }
            assert(s@ =~= bits@);
            assert(counts_agree(s.words@, s@, a as int, b as int));
        }
        s
    }
}

/// A position is the start of its word plus its offset in the word.
proof fn lemma_position(i: int)
    requires
        0 <= i,
    ensures
        i == start_of(i / 512, (i % 512) / 64) + i % 64,
        0 <= (i % 512) / 64 < 8,
        0 <= i / 512,
        i / 64 == 8 * (i / 512) + (i % 512) / 64,
{
}

/// A position inside word `b` of superblock `a` decomposes into `a`, `b` and its offset.
proof fn lemma_position_within(a: int, b: int, j: int)
    requires
        0 <= a,
        0 <= b < 8,
        0 <= j < 64,
    ensures
        (start_of(a, b) + j) / 512 == a,
        ((start_of(a, b) + j) % 512) / 64 == b,
        (start_of(a, b) + j) % 64 == j,
{
}

/// An earlier position lies in an earlier word, or in the same.
proof fn lemma_position_order(i: int, n: int)
    requires
        0 <= i <= n,
    ensures
        8 * (i / 512) + (i % 512) / 64 <= 8 * (n / 512) + (n % 512) / 64,
        10 * (i / 512) + (i % 512) / 64 <= 10 * (n / 512) + (n % 512) / 64,
{
    lemma_position(i);
    lemma_position(n);
}

/// Where position `len` falls when the position before it lies in word `b` of superblock `a`.
proof fn lemma_boundary(len: int, a: int, b: int)
    requires
        0 <= a,
        0 <= b < 8,
        len >= 1,
        (len - 1) / 64 == 8 * a + b,
    ensures
        len % 64 == 0 ==> len == start_of(a, b + 1),
        len % 64 != 0 ==> len / 64 == 8 * a + b && len % 64 == (len - 1) % 64 + 1,
        len % 64 == 0 ==> (len % 512 == 0) == (b == 8 - 1),
        len % 64 == 0 ==> len / 64 == 8 * a + b + 1,
        len % 64 == 0 ==> (len - 1) % 64 == 63,
{
}

/// Closing the last word of superblock `a`: the next group starts with the total so far and
/// an empty word of packed counts.
proof fn lemma_closed_superblock(
    before: Seq<u64>,
    after: Seq<u64>,
    bits: Seq<bool>,
    a: int,
    done: u64,
)
    requires
        0 <= a,
        before.len() == 10 * a + 2 + (8 - 1),
        after.len() == before.len() + 3,
        forall|i: int| 0 <= i < before.len() ==> after[i] == before[i],
        after[10 * a + 10 - 1] == done,
        after[10 * a + 10 + 1] == 0,
        after[10 * a + 10] == rank_of(bits, start_of(a + 1, 0)),
        counts_agree(before, bits, a, 8 - 1),
        words_agree(before, bits, a, 8 - 1),
        forall|j: nat| j < 64 ==> bit(done, j) == bits[start_of(a, 8 - 1) + j],
    ensures
        counts_agree(after, bits, a + 1, 0),
        words_agree(after, bits, a + 1, 0),
{
    lemma_zero_word(0);
    assert forall|x: int, y: int|
        0 <= x && 0 <= y < 8 && 8 * x + y <= 8 * (a + 1) + 0 implies #[trigger] prefix_at(
        after,
        x,
        y,
    ) == rank_of(bits, start_of(x, y)) by {
        if x <= a {
            assert(prefix_at(after, x, y) == prefix_at(before, x, y));
        }
    }
    assert forall|x: int, y: int, j: nat|
        0 <= x && 0 <= y < 8 && 8 * x + y < 8 * (a + 1) + 0 && j < 64 implies bit(
        #[trigger] word_at(after, x, y),
        j,
    ) == #[trigger] bits[start_of(x, y) + j] by {
        if 8 * x + y < 8 * a + (8 - 1) {
            assert(word_at(after, x, y) == word_at(before, x, y));
        }
    }
}

/// Closing word `b` of superblock `a`, not its last: the count of the set bits of the
/// superblock so far goes into the next packed field.
proof fn lemma_closed_word(
    before: Seq<u64>,
    after: Seq<u64>,
    bits: Seq<bool>,
    a: int,
    b: int,
    done: u64,
    sum: u64,
)
    requires
        0 <= a,
        0 <= b < 8 - 1,
        before.len() == 10 * a + 2 + b,
        after.len() == before.len() + 1,
        forall|i: int| 0 <= i < before.len() && i != 10 * a + 1 ==> after[i] == before[i],
        after[10 * a + 2 + b] == done,
        sum <= 64 * (b + 1),
        before[10 * a + 1] >> ((9 * b) as u64) == 0,
        after[10 * a + 1] == before[10 * a + 1] | (sum << ((b * 9) as u64)),
        sum + before[10 * a] == rank_of(bits, start_of(a, b + 1)),
        counts_agree(before, bits, a, b),
        words_agree(before, bits, a, b),
        forall|j: nat| j < 64 ==> bit(done, j) == bits[start_of(a, b) + j],
    ensures
        counts_agree(after, bits, a, b + 1),
        words_agree(after, bits, a, b + 1),
        after[10 * a + 1] >> ((9 * (b + 1)) as u64) == 0,
{
    let old_packed = before[10 * a + 1];
    lemma_pack9(old_packed, sum, b as nat, 0);
    assert forall|x: int, y: int|
        0 <= x && 0 <= y < 8 && 8 * x + y <= 8 * a + (b + 1) implies #[trigger] prefix_at(
        after,
        x,
        y,
    ) == rank_of(bits, start_of(x, y)) by {
        if x < a {
            assert(prefix_at(after, x, y) == prefix_at(before, x, y));
        } else {
            assert(x == a);
            if y != 0 {
                lemma_pack9(old_packed, sum, b as nat, (y - 1) as nat);
            }
            if y <= b {
                assert(prefix_at(before, x, y) == rank_of(bits, start_of(x, y)));
            }
        }
    }
    assert forall|x: int, y: int, j: nat|
        0 <= x && 0 <= y < 8 && 8 * x + y < 8 * a + (b + 1) && j < 64 implies bit(
        #[trigger] word_at(after, x, y),
        j,
    ) == #[trigger] bits[start_of(x, y) + j] by {
        if 8 * x + y < 8 * a + b {
            assert(word_at(after, x, y) == word_at(before, x, y));
        }
    }
}

} // verus!
