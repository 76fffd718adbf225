//! A randomized self-check shared by the rank indexes.

use vstd::prelude::*;
use crate::bitvector_rank::bits::{lemma_count_true_bound, rank_of};
use crate::bitvector_rank::rank_1::Rank1;
use crate::bitvector_rank::rank_256_64::Rank25664;
use crate::bitvector_rank::rank_256_64_interlaced::Rank25664Interlaced;
use crate::bitvector_rank::rank_512_64_interlaced::Rank51264Interlaced;
use crate::bitvector_rank::rank_64_interlaced::Rank64Interlaced;
use crate::random::{random_index_inclusive, random_ratio, seeded};

verus! {

/// An index over a fixed sequence of bits that answers rank queries.
pub trait RankDataStructure: Sized {
    /// The indexed bits.
    spec fn bits(&self) -> Seq<bool>;

    /// The index is consistent with the bits it stands for.
    spec fn valid(&self) -> bool;

    /// The index of `bits`.
    fn build(bits: Vec<bool>) -> (s: Self)
        ensures
            s.valid(),
            s.bits() == bits@,
    ;

    /// The number of set bits before position `index`.
    fn rank(&self, index: usize) -> (r: usize)
        requires
            self.valid(),
            index <= self.bits().len(),
        ensures
            r == rank_of(self.bits(), index as int),
    ;
}

impl RankDataStructure for Rank1 {
    open spec fn bits(&self) -> Seq<bool> {
        self@
    }

    open spec fn valid(&self) -> bool {
        self.wf()
    }

    fn build(bits: Vec<bool>) -> (s: Self) {
        Rank1::from_iter(bits)
    }

    fn rank(&self, index: usize) -> (r: usize) {
        Rank1::rank(self, index)
    }
}

impl RankDataStructure for Rank64Interlaced {
    open spec fn bits(&self) -> Seq<bool> {
        self@
    }

    open spec fn valid(&self) -> bool {
        self.wf()
    }

    fn build(bits: Vec<bool>) -> (s: Self) {
        Rank64Interlaced::from_iter(bits)
    }

    fn rank(&self, index: usize) -> (r: usize) {
        Rank64Interlaced::rank(self, index)
    }
}

impl RankDataStructure for Rank25664 {
    open spec fn bits(&self) -> Seq<bool> {
        self@
    }

    open spec fn valid(&self) -> bool {
        self.wf()
    }

    fn build(bits: Vec<bool>) -> (s: Self) {
        Rank25664::from_iter(bits)
    }

    fn rank(&self, index: usize) -> (r: usize) {
        Rank25664::rank(self, index)
    }
}

impl RankDataStructure for Rank25664Interlaced {
    open spec fn bits(&self) -> Seq<bool> {
        self@
    }

    open spec fn valid(&self) -> bool {
        self.wf()
    }

    fn build(bits: Vec<bool>) -> (s: Self) {
        Rank25664Interlaced::from_iter(bits)
    }

    fn rank(&self, index: usize) -> (r: usize) {
        Rank25664Interlaced::rank(self, index)
    }
}

impl RankDataStructure for Rank51264Interlaced {
    open spec fn bits(&self) -> Seq<bool> {
        self@
    }

    open spec fn valid(&self) -> bool {
        self.wf()
    }

    fn build(bits: Vec<bool>) -> (s: Self) {
        Rank51264Interlaced::from_iter(bits)
    }

    fn rank(&self, index: usize) -> (r: usize) {
        Rank51264Interlaced::rank(self, index)
    }
}

/// The number of set bits among the first `index` entries, counted one by one.
pub fn count_prefix(bits: &Vec<bool>, index: usize) -> (r: usize)
    requires
        index <= bits.len(),
    ensures
        r == rank_of(bits@, index as int),
{
    let mut r: usize = 0;
    let mut i: usize = 0;
    proof {
        assert(bits@.subrange(0, 0) =~= Seq::<bool>::empty());
    }
    while i < index
        invariant
            i <= index <= bits.len(),
            r == rank_of(bits@, i as int),
        decreases index - i,
    {
        proof {
            assert(bits@.subrange(0, i + 1).drop_last() =~= bits@.subrange(0, i as int));
            lemma_count_true_bound(bits@.subrange(0, i + 1));
        }
        if bits[i] {
            r += 1;
        }
        i += 1;
    }
    r
}

fn copy_bits(bits: &Vec<bool>) -> (out: Vec<bool>)
    ensures
        out@ == bits@,
{
    let mut out: Vec<bool> = Vec::new();
    let mut i: usize = 0;
    while i < bits.len()
        invariant
            i <= bits.len(),
            out@ == bits@.subrange(0, i as int),
        decreases bits.len() - i,
    {
        out.push(bits[i]);
        proof {
            assert(out@ =~= bits@.subrange(0, i + 1));
        }
        i += 1;
    }
    proof {
        assert(bits@.subrange(0, bits.len() as int) =~= bits@);
    }
    out
}

/// Builds the index over 100 pseudo-random bit sequences of up to 3000 bits, half of them
/// cut to a whole number of words, and compares 200 rank queries on each with a count made
/// one by one. Reports whether every answer agreed, which the contracts of the index
/// guarantee.
pub fn test_rank_implementation<T: RankDataStructure>() -> (ok: bool)
    ensures
        ok,
{
    let mut rng = seeded(42);
    let mut tid: usize = 1;
    while tid <= 100
        invariant
            1 <= tid <= 101,
        decreases 101 - tid,
    {
        let mut n = random_index_inclusive(&mut rng, 3000);
        if random_ratio(&mut rng, 1, 2) {
            n = n / 64 * 64;
        }
        let mut a: Vec<bool> = Vec::new();
        while a.len() < n
            invariant
                a.len() <= n,
            decreases n - a.len(),
        {
            a.push(random_ratio(&mut rng, 1, 2));
        }
        let bvec = T::build(copy_bits(&a));
        let mut qid: usize = 1;
        while qid <= 200
            invariant
                1 <= qid <= 201,
                bvec.valid(),
                bvec.bits() == a@,
                a.len() == n,
            decreases 201 - qid,
        {
            let index = random_index_inclusive(&mut rng, n);
            let expected = count_prefix(&a, index);
            let result = bvec.rank(index);
            if result != expected {
                return false;
            }
            qid += 1;
        }
        tid += 1;
    }
    true
}

} // verus!
