//! Rank by one running count per 64-bit word, stored next to the word.

use vstd::prelude::*;
use crate::bitvector_rank::bits::{
    bit, count_ones, lemma_count_true_bound, lemma_low_bits, lemma_mask_computable,
    lemma_ones_below_bound, lemma_rank_extend, lemma_set_bit, rank_of,
};

verus! {

/// Pairs of a running count and a word: entry `2a` is the number of set bits before word
/// `a`, entry `2a + 1` is word `a`.
pub struct Rank64Interlaced {
    len: usize,
    words: Vec<u64>,
}

impl View for Rank64Interlaced {
    type V = Seq<bool>;

    /// The indexed bits.
    closed spec fn view(&self) -> Seq<bool> {
        Seq::new(self.len as nat, |i: int| bit(self.words[2 * (i / 64) + 1], (i % 64) as nat))
    }
}

impl Rank64Interlaced {
    /// The layout holds a count before every word.
    pub closed spec fn wf(&self) -> bool {
        &&& self.words.len() == 2 * (self.len / 64) + 2
        &&& forall|a: int|
            0 <= a <= self.len / 64 ==> #[trigger] self.words[2 * a] == rank_of(self@, 64 * a)
    }

    /// The number of set bits before position `index`.
    pub fn rank(&self, index: usize) -> (r: usize)
        requires
            self.wf(),
            index <= self@.len(),
        ensures
            r == rank_of(self@, index as int),
    {
        let a = index / 64;
        let b = index % 64;
        let sum = self.words[a * 2];
        let word = self.words[a * 2 + 1];
        proof {
            lemma_mask_computable(b as u64);
            lemma_low_bits(word, b as nat, 64);
            assert(self.words[2 * (a as int)] == rank_of(self@, 64 * a));
            assert forall|j: nat| j < b implies self@[64 * a + j] == bit(word, j) by {
                assert((64 * a + j) / 64 == a as int);
                assert((64 * a + j) % 64 == j as int);
            }
            lemma_rank_extend(self@, 64 * a, word, b as nat);
            lemma_count_true_bound(self@.subrange(0, index as int));
        }
        let masked = word & ((1u64 << (b as u64)) - 1);
        let ans = sum + count_ones(masked) as u64;
        ans as usize
    }

    /// The index of `bits`.
    pub fn from_iter(bits: Vec<bool>) -> (s: Self)
        ensures
            s.wf(),
            s@ == bits@,
    {
        let n = bits.len();
        let mut len: usize = 0;
        let mut word: u64 = 0;
        let mut words: Vec<u64> = Vec::new();
        words.push(0u64);
        let mut sum: u64 = 0;
        proof {
            assert(0u64 >> 0u64 == 0) by (bit_vector);
            assert(bits@.subrange(0, 0) =~= Seq::<bool>::empty());
        }
        while len < n
            invariant
                n == bits.len(),
                len <= n,
                words.len() == 2 * (len / 64) + 1,
                sum == rank_of(bits@, 64 * (len / 64)),
                forall|a: int|
                    0 <= a <= len / 64 ==> #[trigger] words[2 * a] == rank_of(bits@, 64 * a),
                forall|a: int, j: nat|
                    0 <= a < len / 64 && j < 64 ==> bit(#[trigger] words[2 * a + 1], j)
                        == #[trigger] bits[64 * a + j],
                forall|j: nat| j < len % 64 ==> bit(word, j) == bits[64 * (len / 64) + j],
                word >> ((len % 64) as u64) == 0,
            decreases n - len,
        {
            let elm = bits[len];
            let k = (len % 64) as u64;
            let ghost old_word = word;
            let ghost base = 64 * (len / 64) as int;
            word = word | ((if elm {
                1u64
            } else {
                0u64
            }) << k);
            proof {
                assert forall|j: nat| j < k + 1 implies bit(word, j) == bits[base + j] by {
                    lemma_set_bit(old_word, k, elm, j as u64);
                }
                lemma_set_bit(old_word, k, elm, 0);
            }
            len += 1;
            if len % 64 == 0 {
                proof {
                    lemma_rank_extend(bits@, base, word, 64);
                    lemma_count_true_bound(bits@.subrange(0, base + 64));
                    lemma_ones_below_bound(word, 64);
                    assert(0u64 >> 0u64 == 0) by (bit_vector);
                }
                sum += count_ones(word) as u64;
                let ghost before = words@;
                words.push(word);
                words.push(sum);
                word = 0;
                proof {
                    let a_new = (len / 64) as int;
                    assert(a_new == (len - 1) / 64 + 1);
                    assert forall|a: int| 0 <= a <= len / 64 implies #[trigger] words[2 * a]
                        == rank_of(bits@, 64 * a) by {
                        if a < a_new {
                            assert(words[2 * a] == before[2 * a]);
                        }
                    }
                    assert forall|a: int, j: nat| 0 <= a < len / 64 && j < 64 implies bit(
                        #[trigger] words[2 * a + 1],
                        j,
                    ) == #[trigger] bits[64 * a + j] by {
                        if a < a_new - 1 {
                            assert(words[2 * a + 1] == before[2 * a + 1]);
                        }
                    }
                }
            }
        }
        words.push(word);
        let s = Self { len, words };
        proof {
            assert forall|i: int| 0 <= i < n implies bit(
                s.words[2 * (i / 64) + 1],
                (i % 64) as nat,
            ) == bits[i] by {
                let a = i / 64;
                let j = (i % 64) as nat;
                if a < len / 64 {
                    assert(bit(words[2 * a + 1], j) == bits[64 * a + j]);
                }
            }
            assert(s@ =~= bits@);
        }
        s
    }
}

} // verus!
