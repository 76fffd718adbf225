//! What the trees of this family have in common, and the checks that run on
//! any of them: in-order collection, validation of the balance at every node,
//! and a long pseudo-random workload that records how size and height develop.

use vstd::prelude::*;
use crate::bbst_comparison::bench_utils;
use crate::bbst_comparison::bench_utils::{
    draw_queries, draw_values, final_len, lemma_prefix_valid, queries_valid,
};
use crate::model::{inserted, removed};
use crate::random::seeded;

verus! {

/// One step of a workload.
#[derive(Debug, Clone, Copy)]
pub enum Query {
    Insert { index: usize, value: i32 },
    Remove { index: usize },
}

/// The same step in the vocabulary of the workload generator.
pub open spec fn as_drawn(q: Query) -> bench_utils::Query {
    match q {
        Query::Insert { index, value } => bench_utils::Query::Insert { index, value },
        Query::Remove { index } => bench_utils::Query::Remove { index },
    }
}

/// The same steps in the vocabulary of the workload generator.
pub open spec fn all_as_drawn(qs: Seq<Query>) -> Seq<bench_utils::Query> {
    Seq::new(qs.len(), |i: int| as_drawn(qs[i]))
}

/// The sequence after one step.
pub open spec fn step_model(q: Query, s: Seq<i32>) -> Seq<i32> {
    match q {
        Query::Insert { index, value } => inserted(s, index as int, value),
        Query::Remove { index } => removed(s, index as int),
    }
}

/// The sequence after all the steps in turn.
pub open spec fn run_model(qs: Seq<Query>, s: Seq<i32>) -> Seq<i32>
    decreases qs.len(),
{
    if qs.len() == 0 {
        s
    } else {
        step_model(qs.last(), run_model(qs.drop_last(), s))
    }
}

/// A node of a binary tree that holds one `i32` value.
pub trait TreeNode: Sized {
    /// The values of the subtree in order.
    spec fn subtree_values(&self) -> Seq<i32>;

    /// The left child.
    spec fn left_child(&self) -> Option<Self>;

    /// The right child.
    spec fn right_child(&self) -> Option<Self>;

    /// The value at the node.
    spec fn stored_value(&self) -> i32;

    /// A bound on the number of nodes on any way down from the node.
    spec fn depth(&self) -> nat;

    /// The values of a subtree are those of the left child, the value at the node and those
    /// of the right child; the children are less deep than the node.
    proof fn lemma_children(&self)
        ensures
            self.subtree_values() == (match self.left_child() {
                Some(l) => l.subtree_values(),
                None => Seq::empty(),
            }) + seq![self.stored_value()] + (match self.right_child() {
                Some(r) => r.subtree_values(),
                None => Seq::empty(),
            }),
            self.left_child() matches Some(l) ==> l.depth() < self.depth(),
            self.right_child() matches Some(r) ==> r.depth() < self.depth(),
    ;

    fn left(&self) -> (l: Option<&Self>)
        ensures
            (match l {
                Some(n) => self.left_child() == Some(*n),
                None => self.left_child() is None,
            }),
    ;

    fn right(&self) -> (r: Option<&Self>)
        ensures
            (match r {
                Some(n) => self.right_child() == Some(*n),
                None => self.right_child() is None,
            }),
    ;

    fn value(&self) -> (v: i32)
        ensures
            v == self.stored_value(),
    ;
}

/// The values of an optional subtree in order.
pub open spec fn values_of<N: TreeNode>(n: Option<N>) -> Seq<i32> {
    match n {
        Some(n) => n.subtree_values(),
        None => Seq::empty(),
    }
}

/// A tree that gives access to its root.
pub trait HasRoot {
    type Node: TreeNode;

    /// The values of the tree in order.
    spec fn values(&self) -> Seq<i32>;

    /// The root.
    spec fn root_node(&self) -> Option<Self::Node>;

    /// The values of the tree are those below its root.
    proof fn lemma_root(&self)
        ensures
            self.values() == values_of(self.root_node()),
    ;

    fn root(&self) -> (r: Option<&Self::Node>)
        ensures
            (match r {
                Some(n) => self.root_node() == Some(*n),
                None => self.root_node() is None,
            }),
    ;
}

/// A sequence of `i32` values with positional insertion and removal that reports its size
/// and height.
pub trait BenchmarkableTree: Sized {
    /// The values in order.
    spec fn seq(&self) -> Seq<i32>;

    /// The invariants of the tree hold.
    spec fn sound(&self) -> bool;

    /// The height that the tree reports of itself: the stored height of its root under a
    /// height-balanced discipline, the stored black height under a red-black one, and 0
    /// where no height is kept.
    spec fn reported_height(&self) -> nat;

    fn from_iter(values: Vec<i32>) -> (t: Self)
        ensures
            t.sound(),
            t.seq() == values@,
    ;

    fn len(&self) -> (n: usize)
        requires
            self.sound(),
        ensures
            n == self.seq().len(),
    ;

    fn height(&self) -> (h: u8)
        requires
            self.sound(),
        ensures
            h == self.reported_height(),
    ;

    fn insert(&mut self, index: usize, value: i32)
        requires
            old(self).sound(),
            index <= old(self).seq().len(),
            old(self).seq().len() < usize::MAX,
        ensures
            final(self).sound(),
            final(self).seq() == inserted(old(self).seq(), index as int, value),
    ;

    fn remove(&mut self, index: usize) -> (value: i32)
        requires
            old(self).sound(),
            index < old(self).seq().len(),
        ensures
            final(self).sound(),
            final(self).seq() == removed(old(self).seq(), index as int),
            value == old(self).seq()[index as int],
    ;
}

/// A node whose balance can be checked.
pub trait Validatable: TreeNode {
    /// What the balance check accepts at this node.
    spec fn balance_ok(&self) -> bool;

    /// The balance check accepts this node and every node below it.
    spec fn all_balance_ok(&self) -> bool;

    /// The check accepts a subtree when it accepts its root and both subtrees below it.
    proof fn lemma_all_balance(&self)
        ensures
            self.all_balance_ok() == (self.balance_ok() && (match self.left_child() {
                Some(l) => l.all_balance_ok(),
                None => true,
            }) && (match self.right_child() {
                Some(r) => r.all_balance_ok(),
                None => true,
            })),
    ;

    fn validate_balance(&self) -> (ok: bool)
        ensures
            ok == self.balance_ok(),
    ;
}

/// The balance check accepts every node of an optional subtree.
pub open spec fn all_ok<N: Validatable>(n: Option<N>) -> bool {
    match n {
        Some(n) => n.all_balance_ok(),
        None => true,
    }
}

/// The depth of an optional subtree, 0 when empty.
pub open spec fn depth_of<N: TreeNode>(n: Option<&N>) -> nat {
    match n {
        Some(n) => n.depth() + 1,
        None => 0,
    }
}

fn collect_recurse<N: TreeNode>(node: Option<&N>, out: &mut Vec<i32>)
    ensures
        final(out)@ == old(out)@ + (match node {
            Some(n) => n.subtree_values(),
            None => Seq::empty(),
        }),
    decreases depth_of(node),
{
    match node {
        None => {
            assert(out@ + Seq::<i32>::empty() =~= out@);
        },
        Some(node) => {
            let ghost before = out@;
            proof {
                node.lemma_children();
            }
            collect_recurse(node.left(), out);
            out.push(node.value());
            collect_recurse(node.right(), out);
            assert(out@ =~= before + node.subtree_values());
        },
    }
}

/// The values of the tree in order.
pub fn collect<T: HasRoot>(tree: &T) -> (out: Vec<i32>)
    ensures
        out@ == tree.values(),
{
    let mut out = Vec::new();
    proof {
        tree.lemma_root();
    }
    collect_recurse(tree.root(), &mut out);
    assert(Seq::<i32>::empty() + tree.values() =~= tree.values());
    out
}

fn validate_recurse<N: Validatable>(node: &N) -> (ok: bool)
    ensures
        ok == node.all_balance_ok(),
    decreases node.depth(),
{
    proof {
        node.lemma_children();
        node.lemma_all_balance();
    }
    if !node.validate_balance() {
        return false;
    }
    let left_ok = match node.left() {
        Some(l) => validate_recurse(l),
        None => true,
    };
    if !left_ok {
        return false;
    }
    match node.right() {
        Some(r) => validate_recurse(r),
        None => true,
    }
}

/// Whether the balance check accepts every node of the tree.
pub fn validate<T: HasRoot>(tree: &T) -> (ok: bool) where T::Node: Validatable
    ensures
        ok == all_ok(tree.root_node()),
{
    match tree.root() {
        Some(root) => validate_recurse(root),
        None => true,
    }
}

/// Builds a tree of 200,000 pseudo-random values and draws 200,000 queries for it that
/// never take it beyond that size.
pub fn generate_benchmark_queries<T: BenchmarkableTree>() -> (res: (T, Vec<Query>))
    ensures
        res.0.sound(),
        res.0.seq().len() == 200_000,
        res.1@.len() == 200_000,
        queries_valid(all_as_drawn(res.1@), 200_000, 200_000),
{
    let mut rng = seeded(42);
    let n_initial: usize = 200_000;
    let len_max: u32 = 200_000;
    let q: usize = 200_000;
    let value_lim: i32 = 1_000_000_000;
    let initial_values = draw_values(&mut rng, n_initial, value_lim);
    let tree = T::from_iter(initial_values);
    let drawn = draw_queries(&mut rng, n_initial, len_max, q, value_lim);
    let mut queries: Vec<Query> = Vec::new();
    let mut i: usize = 0;
    while i < drawn.len()
        invariant
            i <= drawn.len(),
            queries@.len() == i,
            forall|j: int| 0 <= j < i ==> as_drawn(#[trigger] queries[j]) == drawn[j],
        decreases drawn.len() - i,
    {
        let query = match drawn[i] {
            bench_utils::Query::Insert { index, value } => Query::Insert { index, value },
            bench_utils::Query::Remove { index } => Query::Remove { index },
        };
        queries.push(query);
        i += 1;
    }
    proof {
        assert(all_as_drawn(queries@) =~= drawn@);
    }
    (tree, queries)
}

/// Size and height of a tree at one moment of a workload.
#[derive(Debug, Clone, Copy)]
pub struct Sample {
    pub queries: usize,
    pub len: usize,
    pub height: u8,
}

/// How size and height of a tree developed under a workload.
#[derive(Debug)]
pub struct TreeStats {
    pub initial: Sample,
    pub samples: Vec<Sample>,
    pub last: Sample,
    pub min_len: usize,
    pub max_len: usize,
    pub min_height: u8,
    pub max_height: u8,
}

/// The smallest size of a sequence of `n` values before and after each of the first `k`
/// queries.
pub open spec fn lowest_len(qs: Seq<bench_utils::Query>, n: nat, k: nat) -> nat
    decreases k,
{
    if k == 0 {
        n
    } else {
        let rest = lowest_len(qs, n, (k - 1) as nat);
        let here = final_len(qs.take(k as int), n);
        if here < rest {
            here
        } else {
            rest
        }
    }
}

/// The largest size of a sequence of `n` values before and after each of the first `k`
/// queries.
pub open spec fn highest_len(qs: Seq<bench_utils::Query>, n: nat, k: nat) -> nat
    decreases k,
{
    if k == 0 {
        n
    } else {
        let rest = highest_len(qs, n, (k - 1) as nat);
        let here = final_len(qs.take(k as int), n);
        if here > rest {
            here
        } else {
            rest
        }
    }
}

/// Runs the queries on the tree, taking a sample every `every` queries, and records the
/// extremes of size and height over all the states passed.
#[verifier::rlimit(40)]
pub fn run_workload<T: BenchmarkableTree>(tree: &mut T, queries: &Vec<Query>, every: usize) -> (stats:
    TreeStats)
    requires
        old(tree).sound(),
        every > 0,
        queries_valid(all_as_drawn(queries@), old(tree).seq().len(), (usize::MAX - 1) as nat),
    ensures
        final(tree).sound(),
        final(tree).seq() == run_model(queries@, old(tree).seq()),
        final(tree).seq().len() == final_len(all_as_drawn(queries@), old(tree).seq().len()),
        stats.initial.queries == 0,
        stats.initial.len == old(tree).seq().len(),
        stats.initial.height == old(tree).reported_height(),
        stats.last.queries == queries@.len(),
        stats.last.len == final(tree).seq().len(),
        stats.last.height == final(tree).reported_height(),
        stats.min_len == lowest_len(
            all_as_drawn(queries@),
            old(tree).seq().len(),
            queries@.len(),
        ),
        stats.max_len == highest_len(
            all_as_drawn(queries@),
            old(tree).seq().len(),
            queries@.len(),
        ),
        stats.min_len <= stats.initial.len <= stats.max_len,
        stats.min_len <= stats.last.len <= stats.max_len,
        stats.min_height <= stats.initial.height <= stats.max_height,
        stats.min_height <= stats.last.height <= stats.max_height,
        stats.samples@.len() == queries@.len() as int / every as int,
        forall|k: int|
            0 <= k < stats.samples@.len() ==> (#[trigger] stats.samples[k]).queries == (k + 1)
                * every && stats.samples[k].len == final_len(
                all_as_drawn(queries@).take((k + 1) * every),
                old(tree).seq().len(),
            ) && stats.min_len <= stats.samples[k].len <= stats.max_len && stats.min_height
                <= stats.samples[k].height <= stats.max_height,
        forall|bound: nat| #[trigger]
            queries_valid(all_as_drawn(queries@), old(tree).seq().len(), bound) ==> stats.max_len
                <= bound,
{
    let ghost start = tree.seq();
    let ghost drawn = all_as_drawn(queries@);
    let ghost limit = (usize::MAX - 1) as nat;
    let initial = Sample { queries: 0, len: tree.len(), height: tree.height() };
    let mut min_len = initial.len;
    let mut max_len = initial.len;
    let mut min_height = initial.height;
    let mut max_height = initial.height;
    let mut last = initial;
    let mut samples: Vec<Sample> = Vec::new();
    let mut i: usize = 0;
    let mut until_sample: usize = every;
    proof {
        assert(queries@.take(0) =~= Seq::<Query>::empty());
        assert(drawn.take(0) =~= Seq::<bench_utils::Query>::empty());
        assert(samples@.len() * every == 0) by (nonlinear_arith)
            requires
                samples@.len() == 0,
        ;
        assert forall|bound: nat| #[trigger]
            queries_valid(drawn, start.len(), bound) implies start.len() <= bound by {
            lemma_prefix_valid(drawn, start.len(), bound, 0);
        }
    }
    while i < queries.len()
        invariant
            i <= queries.len(),
            every > 0,
            drawn == all_as_drawn(queries@),
            limit == usize::MAX - 1,
            queries_valid(drawn, start.len(), limit),
            tree.sound(),
            tree.seq() == run_model(queries@.take(i as int), start),
            tree.seq().len() == final_len(drawn.take(i as int), start.len()),
            initial.queries == 0,
            initial.len == start.len(),
            initial.height == old(tree).reported_height(),
            last.queries == i,
            last.len == tree.seq().len(),
            last.height == tree.reported_height(),
            min_len == lowest_len(drawn, start.len(), i as nat),
            max_len == highest_len(drawn, start.len(), i as nat),
            min_len <= initial.len <= max_len,
            min_len <= last.len <= max_len,
            min_height <= initial.height <= max_height,
            min_height <= last.height <= max_height,
            1 <= until_sample <= every,
            samples@.len() * every + (every - until_sample) == i,
            forall|bound: nat| #[trigger]
                queries_valid(drawn, start.len(), bound) ==> max_len <= bound,
            forall|k: int|
                0 <= k < samples@.len() ==> (#[trigger] samples[k]).queries == (k + 1) * every
                    && samples[k].len == final_len(drawn.take((k + 1) * every), start.len())
                    && min_len <= samples[k].len <= max_len && min_height <= samples[k].height
                    <= max_height,
        decreases queries.len() - i,
    {
        proof {
            lemma_prefix_valid(drawn, start.len(), limit, i as int);
            lemma_prefix_valid(drawn, start.len(), limit, i + 1);
            assert(queries@.take(i + 1).drop_last() =~= queries@.take(i as int));
            assert(drawn[i as int] == as_drawn(queries[i as int]));
            assert forall|bound: nat| #[trigger]
                queries_valid(drawn, start.len(), bound) implies final_len(
                drawn.take(i + 1),
                start.len(),
            ) <= bound by {
                lemma_prefix_valid(drawn, start.len(), bound, i + 1);
            }
        }
        match queries[i] {
            Query::Insert { index, value } => {
                tree.insert(index, value);
            },
            Query::Remove { index } => {
                tree.remove(index);
            },
        }
        i += 1;
        let len = tree.len();
        let height = tree.height();
        if len < min_len {
            min_len = len;
        }
        if len > max_len {
            max_len = len;
        }
        if height < min_height {
            min_height = height;
        }
        if height > max_height {
            max_height = height;
        }
        last = Sample { queries: i, len, height };
        until_sample -= 1;
        if until_sample == 0 {
            proof {
                assert((samples@.len() + 1) * every == samples@.len() * every + every)
                    by (nonlinear_arith);
            }
            samples.push(last);
            until_sample = every;
        }
    }
    proof {
        assert(queries@.take(queries@.len() as int) =~= queries@);
        assert(drawn.take(drawn.len() as int) =~= drawn);
        let k = samples@.len() as int;
        let e = every as int;
        let r = e - until_sample;
        assert(k * e + r == queries@.len() && 0 <= r < e);
        assert(queries@.len() as int / e == k) by (nonlinear_arith)
            requires
                k * e + r == queries@.len(),
                0 <= r < e,
                k >= 0,
        ;
    }
    TreeStats { initial, samples, last, min_len, max_len, min_height, max_height }
}

/// Runs the benchmark workload on a tree of the given kind, sampling every 20,000 queries.
pub fn analyze_tree_stats<T: BenchmarkableTree>() -> (stats: TreeStats)
    ensures
        stats.initial.len == 200_000,
        stats.samples@.len() == 10,
        stats.last.queries == 200_000,
        stats.min_len <= stats.last.len <= stats.max_len,
        stats.max_len <= 200_000,
        stats.min_height <= stats.max_height,
{
    let (mut tree, queries) = generate_benchmark_queries::<T>();
    proof {
        lemma_limit_relax(all_as_drawn(queries@), 200_000, 200_000, (usize::MAX - 1) as nat);
    }
    let stats = run_workload(&mut tree, &queries, 20_000);
    stats
}

/// A workload that respects a limit respects every larger one.
pub proof fn lemma_limit_relax(qs: Seq<bench_utils::Query>, n: nat, limit: nat, larger: nat)
    requires
        queries_valid(qs, n, limit),
        limit <= larger,
    ensures
        queries_valid(qs, n, larger),
    decreases qs.len(),
{
    if qs.len() > 0 {
        lemma_limit_relax(qs.drop_last(), n, limit, larger);
    }
}

} // verus!
