//! Rank by a table of all prefix counts.

use vstd::prelude::*;
use crate::bitvector_rank::bits::{lemma_count_true_bound, rank_of};

verus! {

/// The count of set bits before every position, one entry per position.
pub struct Rank1 {
    sum: Vec<u64>,
}

impl View for Rank1 {
    type V = Seq<bool>;

    /// The indexed bits: bit `i` is set where the count rises from `i` to `i + 1`.
    closed spec fn view(&self) -> Seq<bool> {
        Seq::new((self.sum.len() - 1) as nat, |i: int| self.sum[i + 1] > self.sum[i])
    }
}

impl Rank1 {
    /// The table holds the prefix counts of the bits it stands for.
    pub closed spec fn wf(&self) -> bool {
        &&& self.sum.len() >= 1
        &&& forall|i: int| 0 <= i < self.sum.len() ==> #[trigger] self.sum[i] == rank_of(self@, i)
    }

    /// The number of set bits before position `index`.
    pub fn rank(&self, index: usize) -> (r: usize)
        requires
            self.wf(),
            index <= self@.len(),
        ensures
            r == rank_of(self@, index as int),
    {
        proof {
            lemma_count_true_bound(self@.subrange(0, index as int));
        }
        self.sum[index] as usize
    }

    /// The index of `bits`.
    pub fn from_iter(bits: Vec<bool>) -> (s: Self)
        ensures
            s.wf(),
            s@ == bits@,
    {
        let mut x: u64 = 0;
        let mut sum: Vec<u64> = Vec::new();
        let n = bits.len();
        let mut i: usize = 0;
        while i < n
            invariant
                n == bits.len(),
                i <= n,
                sum.len() == i,
                x == rank_of(bits@, i as int),
                forall|j: int| 0 <= j < i ==> #[trigger] sum[j] == rank_of(bits@, j),
            decreases n - i,
        {
            let b = bits[i];
            sum.push(x);
            proof {
                assert(bits@.subrange(0, i + 1).drop_last() =~= bits@.subrange(0, i as int));
                lemma_count_true_bound(bits@.subrange(0, i + 1));
            }
            if b {
                x += 1;
            }
            i += 1;
        }
        sum.push(x);
        let s = Self { sum };
        proof {
            assert forall|j: int| 0 <= j < n implies (s.sum[j + 1] > s.sum[j]) == bits[j] by {
                assert(bits@.subrange(0, j + 1).drop_last() =~= bits@.subrange(0, j));
            }
            assert(s@ =~= bits@);
        }
        s
    }
}

} // verus!
