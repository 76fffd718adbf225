//! The workload that the trees are timed on: a long run of insertions and
//! removals at pseudo-random positions that keeps the size below a limit.

use vstd::prelude::*;
use crate::random::{random_index, random_index_inclusive, random_ratio, random_value, seeded};

verus! {

/// One step of a workload.
#[derive(Debug, Clone, Copy)]
pub enum Query {
    Insert { index: usize, value: i32 },
    Remove { index: usize },
}

/// Whether the query names a position that exists in a sequence of `n` values.
pub open spec fn query_valid(q: Query, n: nat) -> bool {
    match q {
        Query::Insert { index, value } => index <= n,
        Query::Remove { index } => index < n,
    }
}

/// The size of a sequence of `n` values after the query.
pub open spec fn len_after(q: Query, n: nat) -> nat {
    match q {
        Query::Insert { index, value } => n + 1,
        Query::Remove { index } => (n - 1) as nat,
    }
}

/// The size of a sequence of `n` values after all the queries in turn.
pub open spec fn final_len(qs: Seq<Query>, n: nat) -> nat
    decreases qs.len(),
{
    if qs.len() == 0 {
        n
    } else {
        len_after(qs.last(), final_len(qs.drop_last(), n))
    }
}

/// Whether every query names a position that exists when its turn comes, on a sequence that
/// starts with `n` values and never grows beyond `limit`.
pub open spec fn queries_valid(qs: Seq<Query>, n: nat, limit: nat) -> bool
    decreases qs.len(),
{
    if qs.len() == 0 {
        n <= limit
    } else {
        &&& queries_valid(qs.drop_last(), n, limit)
        &&& query_valid(qs.last(), final_len(qs.drop_last(), n))
        &&& final_len(qs, n) <= limit
    }
}

/// Every prefix of a valid workload is valid, and the query after it names an existing
/// position.
pub proof fn lemma_prefix_valid(qs: Seq<Query>, n: nat, limit: nat, i: int)
    requires
        queries_valid(qs, n, limit),
        0 <= i <= qs.len(),
    ensures
        queries_valid(qs.take(i), n, limit),
        final_len(qs.take(i), n) <= limit,
        i < qs.len() ==> query_valid(qs[i], final_len(qs.take(i), n)),
        i < qs.len() ==> final_len(qs.take(i + 1), n) == len_after(
            qs[i],
            final_len(qs.take(i), n),
        ),
    decreases qs.len(),
{
    if i == qs.len() {
        assert(qs.take(i) =~= qs);
    } else {
        let front = qs.drop_last();
        lemma_prefix_valid(front, n, limit, i);
        assert(front.take(i) =~= qs.take(i));
        if i < qs.len() - 1 {
            assert(front.take(i + 1) =~= qs.take(i + 1));
            assert(front[i] == qs[i]);
        } else {
            assert(qs.take(i) =~= front);
            assert(qs.take(i + 1) =~= qs);
        }
    }
}

/// Draws `count` queries for a sequence that starts with `start` values and is kept at or
/// below `len_max`: the fuller the sequence, the likelier a removal.
pub fn draw_queries(rng: &mut rand::rngs::StdRng, start: usize, len_max: u32, count: usize, value_lim: i32) -> (qs:
    Vec<Query>)
    requires
        start <= len_max,
        len_max > 0,
        value_lim > 0,
    ensures
        qs@.len() == count,
        queries_valid(qs@, start as nat, len_max as nat),
{
    let mut n = start;
    let mut qs: Vec<Query> = Vec::new();
    while qs.len() < count
        invariant
            qs@.len() <= count,
            n <= len_max,
            len_max > 0,
            value_lim > 0,
            n == final_len(qs@, start as nat),
            queries_valid(qs@, start as nat, len_max as nat),
        decreases count - qs.len(),
    {
        let ghost before = qs@;
        let q = if random_ratio(rng, n as u32, len_max) {
            let index = random_index(rng, n);
            n -= 1;
            Query::Remove { index }
        } else {
            let index = random_index_inclusive(rng, n);
            let value = random_value(rng, value_lim);
            n += 1;
            Query::Insert { index, value }
        };
        qs.push(q);
        proof {
            assert(qs@.drop_last() =~= before);
        }
    }
    qs
}

/// The workload of the benchmarks: 200,000 queries on a sequence that starts with 200,000
/// values and never grows beyond that.
pub fn generate_queries() -> (qs: Vec<Query>)
    ensures
        qs@.len() == 200_000,
        queries_valid(qs@, 200_000, 200_000),
{
    let mut rng = seeded(42);
    let n_initial: usize = 200_000;
    let len_max: u32 = 200_000;
    let q: usize = 200_000;
    let value_lim: i32 = 1_000_000_000;
    draw_queries(&mut rng, n_initial, len_max, q, value_lim)
}

/// Draws `count` values below `value_lim`.
pub fn draw_values(rng: &mut rand::rngs::StdRng, count: usize, value_lim: i32) -> (values: Vec<i32>)
    requires
        value_lim > 0,
    ensures
        values@.len() == count,
        forall|i: int| 0 <= i < count ==> 0 <= #[trigger] values[i] < value_lim,
{
    let mut values: Vec<i32> = Vec::new();
    while values.len() < count
        invariant
            values@.len() <= count,
            value_lim > 0,
            forall|i: int| 0 <= i < values@.len() ==> 0 <= #[trigger] values[i] < value_lim,
        decreases count - values.len(),
    {
        let v = random_value(rng, value_lim);
        values.push(v);
    }
    values
}

/// The initial contents of the benchmarks: 200,000 values below 1,000,000,000.
pub fn generate_initial_values() -> (values: Vec<i32>)
    ensures
        values@.len() == 200_000,
        forall|i: int| 0 <= i < 200_000 ==> 0 <= #[trigger] values[i] < 1_000_000_000,
{
    let mut rng = seeded(42);
    let n_initial: usize = 200_000;
    let value_lim: i32 = 1_000_000_000;
    draw_values(&mut rng, n_initial, value_lim)
}

} // verus!
