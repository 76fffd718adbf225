//! Rank by a count per 256-bit superblock and a small count per 64-bit block.

use vstd::prelude::*;
use crate::bitvector_rank::bits::{
    bit, count_ones, lemma_count_true_bound, lemma_low_bits, lemma_mask_computable,
    lemma_rank_extend, lemma_set_bit, lemma_word_rank, lemma_zero_word, rank_of,
};

verus! {

/// The words of the bit sequence, the number of set bits before each superblock of four
/// words, and for each word the number of set bits between the start of its superblock and
/// the word.
pub struct Rank25664 {
    len: usize,
    words: Vec<u64>,
    block: Vec<u8>,
    sblock: Vec<u64>,
}

impl View for Rank25664 {
    type V = Seq<bool>;

    /// The indexed bits.
    closed spec fn view(&self) -> Seq<bool> {
        Seq::new(self.len as nat, |i: int| bit(self.words[i / 64], (i % 64) as nat))
    }
}

impl Rank25664 {
    /// The two tables of counts agree with the words.
    pub closed spec fn wf(&self) -> bool {
        &&& self.words.len() == self.len / 64 + 1
        &&& self.block.len() == self.len / 64 + 1
        &&& self.sblock.len() == self.len / 256 + 1
        &&& forall|w: int|
            0 <= w <= self.len / 64 ==> self.sblock[w / 4] + #[trigger] self.block[w] == rank_of(
                self@,
                64 * w,
            )
    }

    /// The number of set bits before position `index`.
    pub fn rank(&self, index: usize) -> (r: usize)
        requires
            self.wf(),
            index <= self@.len(),
        ensures
            r == rank_of(self@, index as int),
    {
        let w = index / 64;
        let c = index % 64;
        let word = self.words[w];
        proof {
            lemma_mask_computable(c as u64);
            lemma_low_bits(word, c as nat, 64);
            assert(self.sblock[(w as int) / 4] + self.block[w as int] == rank_of(self@, 64 * w));
            assert((w as int) / 4 == index / 256);
            assert forall|j: nat| j < c implies self@[64 * w + j] == bit(word, j) by {
                assert((64 * w + j) / 64 == w as int);
                assert((64 * w + j) % 64 == j as int);
            }
            lemma_rank_extend(self@, 64 * w, word, c as nat);
            lemma_count_true_bound(self@.subrange(0, index as int));
        }
        let ans = self.sblock[index / 256] + self.block[index / 64] as u64 + count_ones(
            word & ((1u64 << (c as u64)) - 1),
        ) as u64;
        ans as usize
    }

    /// The index of `bits`.
    pub fn from_iter(bits: Vec<bool>) -> (s: Self)
        ensures
            s.wf(),
            s@ == bits@,
    {
        let n = bits.len();
        let mut len: usize = 0;
        let mut word: u64 = 0;
        let mut words: Vec<u64> = Vec::new();
        let mut block: Vec<u8> = Vec::new();
        block.push(0u8);
        let mut sblock: Vec<u64> = Vec::new();
        sblock.push(0u64);
        let mut sum: u8 = 0;
        let mut ssum: u64 = 0;
        proof {
            lemma_zero_word(0);
            assert(bits@.subrange(0, 0) =~= Seq::<bool>::empty());
        }
        while len < n
            invariant
                n == bits.len(),
                len <= n,
                words.len() == len / 64,
                block.len() == len / 64 + 1,
                sblock.len() == len / 256 + 1,
                ssum == rank_of(bits@, 64 * (len / 64)),
                ssum == sblock[(len / 256) as int] + sum,
                sum <= 64 * ((len / 64) % 4),
                forall|w: int|
                    0 <= w <= len / 64 ==> sblock[w / 4] + #[trigger] block[w] == rank_of(
                        bits@,
                        64 * w,
                    ),
                forall|w: int, j: nat|
                    0 <= w < len / 64 && j < 64 ==> bit(#[trigger] words[w], j)
                        == #[trigger] bits[64 * w + j],
                forall|j: nat| j < len % 64 ==> bit(word, j) == bits[64 * (len / 64) + j],
                word >> ((len % 64) as u64) == 0,
            decreases n - len,
        {
            let elm = bits[len];
            let k = (len % 64) as u64;
            let ghost old_word = word;
            let ghost base = 64 * (len / 64) as int;
            let ghost w0 = (len / 64) as int;
            word = word | ((if elm {
                1u64
            } else {
                0u64
            }) << k);
            proof {
                assert forall|j: nat| j < k + 1 implies bit(word, j) == bits[base + j] by {
                    lemma_set_bit(old_word, k, elm, j as u64);
                }
                lemma_set_bit(old_word, k, elm, 0);
            }
            len += 1;
            if len % 64 == 0 {
                proof {
                    lemma_word_rank(bits@, base, word);
                    lemma_zero_word(0);
                    assert(len / 64 == w0 + 1);
                }
                let pc = count_ones(word);
                let ghost old_words = words@;
                let ghost old_block = block@;
                let ghost old_sblock = sblock@;
                words.push(word);
                word = 0;
                ssum += pc as u64;
                if len % 256 == 0 {
                    sblock.push(ssum);
                    sum = 0;
                } else {
                    sum += pc as u8;
                }
                block.push(sum);
                proof {
                    assert forall|w: int| 0 <= w <= len / 64 implies sblock[w / 4]
                        + #[trigger] block[w] == rank_of(bits@, 64 * w) by {
                        if w <= w0 {
                            assert(old_sblock[w / 4] + old_block[w] == rank_of(bits@, 64 * w));
                            assert(block[w] == old_block[w]);
                            assert(sblock[w / 4] == old_sblock[w / 4]);
                        }
                    }
                    assert forall|w: int, j: nat| 0 <= w < len / 64 && j < 64 implies bit(
                        #[trigger] words[w],
                        j,
                    ) == #[trigger] bits[64 * w + j] by {
                        if w < w0 {
                            assert(words[w] == old_words[w]);
                        }
                    }
                }
            }
        }
        words.push(word);
        let s = Self { len, words, block, sblock };
        proof {
            assert forall|i: int| 0 <= i < n implies bit(s.words[i / 64], (i % 64) as nat)
                == bits[i] by {
                let w = i / 64;
                let j = (i % 64) as nat;
                if w < len / 64 {
                    assert(bit(words[w], j) == bits[64 * w + j]);
                }
            }
            assert(s@ =~= bits@);
        }
        s
    }
}

} // verus!
