//! A sequence of `i32` values on a tree without any balancing: the baseline
//! that the balanced trees are measured against.
//!
//! A split walks down to the wanted node, remembers the nodes it passed, and
//! then lifts the node to the top one step at a time, handing each passed node
//! the subtree that lies between the two.

use vstd::prelude::*;
use crate::error::TreeError;
use crate::bbst_comparison::test_utils::{
    all_ok, BenchmarkableTree, HasRoot, TreeNode, Validatable,
};
use crate::model::{
    inserted, joined, lemma_cut_middle, removed,
    split_at,
};

verus! {

/// A sequence of `i32` values on an unbalanced tree.
pub struct UnbalancedTreeWithParent {
    root: Option<Box<Node>>,
}

/// One value of the sequence with the size of its subtree.
pub struct Node {
    left: Option<Box<Node>>,
    right: Option<Box<Node>>,
    value: i32,
    len: usize,
}

/// A node that the walk down has passed, with the child it went into taken out.
pub struct Step {
    node: Box<Node>,
    went_left: bool,
}

/// The in-order values of a subtree.
pub closed spec fn tree_elems(t: Option<Box<Node>>) -> Seq<i32> {
    match t {
        None => Seq::empty(),
        Some(n) => n.elems(),
    }
}

/// The stored size of a subtree, 0 when empty.
pub closed spec fn tree_len(t: Option<Box<Node>>) -> nat {
    match t {
        None => 0,
        Some(n) => n.len as nat,
    }
}

/// Every node of the subtree stores the size of its subtree.
pub closed spec fn tree_wf(t: Option<Box<Node>>) -> bool
    decreases t,
{
    match t {
        None => true,
        Some(n) => n.wf(),
    }
}

impl Node {
    /// The values of the subtree in order.
    #[verifier::opaque]
    pub closed spec fn elems(self) -> Seq<i32>
        decreases self,
    {
        let l = match self.left {
            None => Seq::empty(),
            Some(n) => n.elems(),
        };
        let r = match self.right {
            None => Seq::empty(),
            Some(n) => n.elems(),
        };
        l + seq![self.value] + r
    }

    /// The children's values around this node's value.
    pub closed spec fn inner(self) -> Seq<i32> {
        tree_elems(self.left) + seq![self.value] + tree_elems(self.right)
    }

    /// The stored size is one more than the sizes of the children and counts the values.
    pub closed spec fn meta_ok(self) -> bool {
        &&& self.len == 1 + tree_len(self.left) + tree_len(self.right)
        &&& self.len == self.elems().len()
    }

    /// The size invariant holds at this node and below.
    pub closed spec fn wf(self) -> bool
        decreases self,
    {
        &&& tree_wf(self.left)
        &&& tree_wf(self.right)
        &&& self.meta_ok()
    }

    /// The node has no children.
    pub closed spec fn is_single(self) -> bool {
        self.left is None && self.right is None
    }

    /// The value stored at the node.
    pub closed spec fn spec_value(self) -> i32 {
        self.value
    }

    /// The left child.
    pub closed spec fn spec_left(self) -> Option<Box<Node>> {
        self.left
    }

    /// The right child.
    pub closed spec fn spec_right(self) -> Option<Box<Node>> {
        self.right
    }

    /// At a node that meets the size invariant, the size is one more than the sizes of the
    /// children and counts the values, and both children meet the invariant.
    pub proof fn lemma_shape(self)
        requires
            self.wf(),
        ensures
            tree_len(Some(Box::new(self))) == 1 + tree_len(self.spec_left()) + tree_len(
                self.spec_right(),
            ),
            tree_len(Some(Box::new(self))) == self.elems().len(),
            self.elems() == tree_elems(self.spec_left()) + seq![self.spec_value()] + tree_elems(
                self.spec_right(),
            ),
            tree_wf(self.spec_left()),
            tree_wf(self.spec_right()),
    {
        lemma_elems(self);
    }
}

impl Node {
    /// The node over the given children, with its value kept and its size computed from
    /// theirs.
    pub closed spec fn over(self, l: Option<Box<Node>>, r: Option<Box<Node>>) -> Node {
        Node {
            left: l,
            right: r,
            value: self.value,
            len: (1 + tree_len(l) + tree_len(r)) as usize,
        }
    }

    /// The node `over` gives holds the value of the node and the given children; its size is
    /// one more than their sizes, as far as that fits.
    pub proof fn lemma_over(self, l: Option<Box<Node>>, r: Option<Box<Node>>)
        ensures
            self.over(l, r).spec_left() == l,
            self.over(l, r).spec_right() == r,
            self.over(l, r).spec_value() == self.spec_value(),
            tree_len(l) + tree_len(r) < usize::MAX ==> tree_len(Some(Box::new(self.over(l, r))))
                == 1 + tree_len(l) + tree_len(r),
    {
    }
}

/// The tree that the midpoint construction builds from `values[lo..hi]`: empty for an empty
/// range, otherwise the value in the middle over the trees of the two halves.
#[verifier::opaque]
pub closed spec fn built(values: Seq<i32>, lo: int, hi: int) -> Option<Box<Node>>
    decreases hi - lo,
{
    if lo >= hi {
        None
    } else {
        let mid = lo + (hi - lo) / 2;
        Some(
            Box::new(
                (Node { left: None, right: None, value: values[mid], len: 0 }).over(
                    built(values, lo, mid),
                    built(values, mid + 1, hi),
                ),
            ),
        )
    }
}

/// The root of the tree built from a range that is not empty holds the value in the middle
/// of the range, over the trees built from the two halves.
pub proof fn lemma_built(values: Seq<i32>, lo: int, hi: int)
    ensures
        lo >= hi ==> built(values, lo, hi) is None,
        lo < hi ==> built(values, lo, hi) is Some && built(values, lo, hi).unwrap().spec_value()
            == values[lo + (hi - lo) / 2] && built(values, lo, hi).unwrap().spec_left() == built(
            values,
            lo,
            lo + (hi - lo) / 2,
        ) && built(values, lo, hi).unwrap().spec_right() == built(
            values,
            lo + (hi - lo) / 2 + 1,
            hi,
        ),
{
    reveal(built);
}

/// The node that holds `value` and nothing below it.
pub closed spec fn single(value: i32) -> Node {
    Node { left: None, right: None, value, len: 1 }
}

/// The three parts that cutting the subtree at `index` gives: the cut goes down to the node
/// at `index`, which comes out alone; on the way back every node passed joins what is left
/// of the side that the cut went into with its other child below itself.
#[verifier::opaque]
pub closed spec fn split3_parts(x: Node, index: nat) -> (
    Option<Box<Node>>,
    Node,
    Option<Box<Node>>,
)
    decreases x,
{
    let llen = tree_len(x.left);
    if index < llen {
        match x.left {
            Some(l) => {
                let p = split3_parts(*l, index);
                (p.0, p.1, Some(Box::new(x.over(p.2, x.right))))
            },
            None => (None, x.over(None, None), x.right),
        }
    } else if index == llen {
        (x.left, x.over(None, None), x.right)
    } else {
        match x.right {
            Some(r) => {
                let p = split3_parts(*r, (index - llen - 1) as nat);
                (Some(Box::new(x.over(x.left, p.0))), p.1, p.2)
            },
            None => (x.left, x.over(None, None), None),
        }
    }
}

/// What the passed nodes of a path make of three parts on the way back up: each, from the
/// last to the first, takes the part on the side of its other child and that child below
/// itself.
spec fn lifted(path: Seq<Step>, parts: (Option<Box<Node>>, Node, Option<Box<Node>>)) -> (
    Option<Box<Node>>,
    Node,
    Option<Box<Node>>,
)
    decreases path.len(),
{
    if path.len() == 0 {
        parts
    } else {
        let s = path.last();
        lifted(
            path.drop_last(),
            if s.went_left {
                (parts.0, parts.1, Some(Box::new(s.node.over(parts.2, s.node.right))))
            } else {
                (Some(Box::new(s.node.over(s.node.left, parts.0))), parts.1, parts.2)
            },
        )
    }
}

/// The tree that joining `l` and `r` gives: `l` itself where `r` is empty, otherwise the
/// first node of `r` over `l` and the rest of `r`.
#[verifier::opaque]
pub closed spec fn merged2(l: Option<Box<Node>>, r: Option<Box<Node>>) -> Option<Box<Node>> {
    match r {
        None => l,
        Some(rn) => {
            let p = split3_parts(*rn, 0);
            Some(Box::new(p.1.over(l, p.2)))
        },
    }
}

/// The two parts that cutting the tree before `index` gives: the whole tree and nothing
/// where `index` is its size, otherwise what lies before the node at `index`, and that node
/// joined with what lies after it.
#[verifier::opaque]
pub closed spec fn split2_parts(x: Option<Box<Node>>, index: nat) -> (
    Option<Box<Node>>,
    Option<Box<Node>>,
) {
    match x {
        Some(n) if index != tree_len(x) => {
            let p = split3_parts(*n, index);
            (p.0, merged2(Some(Box::new(p.1)), p.2))
        },
        _ => (x, None),
    }
}

/// The single node holds its value and has no children.
pub proof fn lemma_single(value: i32)
    ensures
        single(value).spec_value() == value,
        single(value).is_single(),
        tree_len(Some(Box::new(single(value)))) == 1,
{
}

/// What cutting and joining give, case by case.
pub proof fn lemma_parts(x: Node, l: Option<Box<Node>>, r: Option<Box<Node>>, index: nat)
    ensures
        index == tree_len(x.spec_left()) ==> split3_parts(x, index) == (
            x.spec_left(),
            x.over(None, None),
            x.spec_right(),
        ),
        index < tree_len(x.spec_left()) ==> (x.spec_left() matches Some(n) ==> split3_parts(
            x,
            index,
        ) == (
            split3_parts(*n, index).0,
            split3_parts(*n, index).1,
            Some(Box::new(x.over(split3_parts(*n, index).2, x.spec_right()))),
        )),
        index > tree_len(x.spec_left()) ==> (x.spec_right() matches Some(n) ==> split3_parts(
            x,
            index,
        ) == (
            Some(
                Box::new(
                    x.over(
                        x.spec_left(),
                        split3_parts(*n, (index - tree_len(x.spec_left()) - 1) as nat).0,
                    ),
                ),
            ),
            split3_parts(*n, (index - tree_len(x.spec_left()) - 1) as nat).1,
            split3_parts(*n, (index - tree_len(x.spec_left()) - 1) as nat).2,
        )),
        r is None ==> merged2(l, r) == l,
        r matches Some(n) ==> merged2(l, r) == Some(
            Box::new(split3_parts(*n, 0).1.over(l, split3_parts(*n, 0).2)),
        ),
        index == tree_len(l) || l is None ==> split2_parts(l, index) == (l, None::<Box<Node>>),
        index != tree_len(l) ==> (l matches Some(n) ==> split2_parts(l, index) == (
            split3_parts(*n, index).0,
            merged2(Some(Box::new(split3_parts(*n, index).1)), split3_parts(*n, index).2),
        )),
{
    reveal(split3_parts);
    reveal(merged2);
    reveal(split2_parts);
}

/// Going one node further down leaves what the path makes of the parts as it was.
proof fn lemma_lifted_push(path: Seq<Step>, step: Step, x: Node, index: nat)
    requires
        step.node.value == x.value,
        step.went_left ==> index < tree_len(x.left) && x.left is Some && step.node.right
            == x.right,
        !step.went_left ==> index > tree_len(x.left) && x.right is Some && step.node.left
            == x.left,
    ensures
        step.went_left ==> lifted(path.push(step), split3_parts(*x.left.unwrap(), index))
            == lifted(path, split3_parts(x, index)),
        !step.went_left ==> lifted(
            path.push(step),
            split3_parts(*x.right.unwrap(), (index - tree_len(x.left) - 1) as nat),
        ) == lifted(path, split3_parts(x, index)),
{
    reveal(split3_parts);
    assert(path.push(step).drop_last() =~= path);
    assert(path.push(step).last() == step);
}

proof fn lemma_elems(n: Node)
    ensures
        n.elems() == n.inner(),
{
    reveal(Node::elems);
}

/// The empty tree meets the invariants and holds nothing, the stored size of a tree that
/// meets the invariants is the number of its values, and a tree that is not empty meets
/// the invariants exactly when its root does.
pub proof fn lemma_tree_size(t: Option<Box<Node>>)
    ensures
        tree_wf(None::<Box<Node>>),
        tree_elems(None::<Box<Node>>) == Seq::<i32>::empty(),
        tree_len(None::<Box<Node>>) == 0,
        tree_len(t) <= usize::MAX,
        tree_wf(t) ==> tree_len(t) == tree_elems(t).len(),
        t matches Some(n) ==> tree_wf(t) == n.wf(),
{
    if tree_wf(t) {
        lemma_tree_len(t);
    }
}

proof fn lemma_tree_len(t: Option<Box<Node>>)
    requires
        tree_wf(t),
    ensures
        tree_elems(t).len() == tree_len(t),
        t matches Some(n) ==> n.meta_ok() && tree_wf(n.left) && tree_wf(n.right),
{
}

/// What the passed node and its remaining subtree put before the subtree walked into.
pub closed spec fn step_left(s: Step) -> Seq<i32> {
    if s.went_left {
        Seq::empty()
    } else {
        tree_elems(s.node.left) + seq![s.node.value]
    }
}

/// What the passed node and its remaining subtree put after the subtree walked into.
pub closed spec fn step_right(s: Step) -> Seq<i32> {
    if s.went_left {
        seq![s.node.value] + tree_elems(s.node.right)
    } else {
        Seq::empty()
    }
}

/// The passed node holds no child on the side walked into, and a sound subtree on the other.
pub closed spec fn step_wf(s: Step) -> bool {
    if s.went_left {
        s.node.left is None && tree_wf(s.node.right)
    } else {
        s.node.right is None && tree_wf(s.node.left)
    }
}

/// All values that lie before the subtree at the end of the path, outermost first.
pub closed spec fn path_left(path: Seq<Step>) -> Seq<i32>
    decreases path.len(),
{
    if path.len() == 0 {
        Seq::empty()
    } else {
        path_left(path.drop_last()) + step_left(path.last())
    }
}

/// All values that lie after the subtree at the end of the path, innermost first.
pub closed spec fn path_right(path: Seq<Step>) -> Seq<i32>
    decreases path.len(),
{
    if path.len() == 0 {
        Seq::empty()
    } else {
        step_right(path.last()) + path_right(path.drop_last())
    }
}

/// Every step of the path is sound.
pub closed spec fn path_wf(path: Seq<Step>) -> bool {
    forall|i: int| 0 <= i < path.len() ==> step_wf(#[trigger] path[i])
}

/// The whole sequence around a hole: what lies before, what fills the hole, what lies after.
pub closed spec fn plugged(path: Seq<Step>, hole: Seq<i32>) -> Seq<i32> {
    path_left(path) + hole + path_right(path)
}

proof fn lemma_plug_push(path: Seq<Step>, s: Step, hole: Seq<i32>)
    ensures
        plugged(path.push(s), hole) == plugged(path, step_left(s) + hole + step_right(s)),
        path_left(path.push(s)) == path_left(path) + step_left(s),
{
    assert(path.push(s).drop_last() =~= path);
    assert(plugged(path.push(s), hole) =~= plugged(path, step_left(s) + hole + step_right(s)));
}

proof fn lemma_plug_empty(hole: Seq<i32>)
    ensures
        plugged(Seq::<Step>::empty(), hole) == hole,
        path_left(Seq::<Step>::empty()) == Seq::<i32>::empty(),
{
    assert(plugged(Seq::<Step>::empty(), hole) =~= hole);
}

fn size(x: &Option<Box<Node>>) -> (n: usize)
    ensures
        n == tree_len(*x),
{
    match x {
        None => 0,
        Some(n) => n.len,
    }
}

impl Node {
    /// Recomputes the size from the children.
    fn update(&mut self)
        requires
            tree_wf(old(self).left),
            tree_wf(old(self).right),
            tree_len(old(self).left) + tree_len(old(self).right) < usize::MAX,
        ensures
            final(self).left == old(self).left,
            final(self).right == old(self).right,
            final(self).value == old(self).value,
            *final(self) == old(self).over(old(self).left, old(self).right),
            final(self).meta_ok(),
            final(self).wf(),
            final(self).elems() == old(self).inner(),
    {
        proof {
            lemma_tree_len(self.left);
            lemma_tree_len(self.right);
        }
        self.len = 1;
        match self.left.as_ref() {
            Some(l) => {
                self.len += l.len;
            },
            None => {},
        }
        match self.right.as_ref() {
            Some(r) => {
                self.len += r.len;
            },
            None => {},
        }
        proof {
            lemma_elems(*self);
        }
    }

    /// The balance check of this discipline, which accepts every node.
    pub fn validate_balance(&self) -> (ok: bool)
        ensures
            ok,
    {
        true
    }
}

/// Splits off the node at `index`, returning what lies before it, the node, and what lies after.
#[verifier::rlimit(40)]
pub fn split3(x: Box<Node>, index: usize) -> (res: (
    Option<Box<Node>>,
    Box<Node>,
    Option<Box<Node>>,
))
    requires
        x.wf(),
        index < x.elems().len(),
    ensures
        tree_wf(res.0),
        tree_wf(res.2),
        res.1.wf(),
        res.1.is_single(),
        res.1.spec_value() == x.elems()[index as int],
        tree_elems(res.0) == x.elems().subrange(0, index as int),
        tree_elems(res.2) == x.elems().subrange(index + 1, x.elems().len() as int),
        tree_len(res.0) == index,
        tree_len(res.0) + 1 + tree_len(res.2) == x.elems().len(),
        tree_len(res.0) + tree_len(res.2) < usize::MAX,
        (res.0, *res.1, res.2) == split3_parts(*x, index as nat),
{
    let ghost whole = x.elems();
    let ghost target = index;
    let ghost goal = split3_parts(*x, index as nat);
    let mut path: Vec<Step> = Vec::new();
    let mut x = x;
    let mut index = index;
    proof {
        lemma_plug_empty(x.elems());
    }
    loop
        invariant
            x.wf(),
            index < x.elems().len(),
            path_wf(path@),
            plugged(path@, x.elems()) == whole,
            path_left(path@).len() + index == target,
            lifted(path@, split3_parts(*x, index as nat)) == goal,
        ensures
            x.wf(),
            path_wf(path@),
            plugged(path@, x.elems()) == whole,
            path_left(path@).len() + tree_len(x.left) == target,
            lifted(path@, (x.left, x.over(None, None), x.right)) == goal,
        decreases x.elems().len(),
    {
        let ghost here_node = *x;
        proof {
            lemma_tree_len(x.left);
            lemma_tree_len(x.right);
            lemma_elems(*x);
        }
        let llen = size(&x.left);
        let ghost before = path@;
        let ghost here = x.elems();
        if index < llen {
            let child = x.left.take().unwrap();
            let step = Step { node: x, went_left: true };
            proof {
                lemma_lifted_push(before, step, here_node, index as nat);
                lemma_plug_push(before, step, child.elems());
                assert(step_left(step) + child.elems() + step_right(step) =~= here);
            }
            path.push(step);
            x = child;
        } else if index == llen {
            proof {
                reveal(split3_parts);
            }
            break ;
        } else {
            let child = x.right.take().unwrap();
            let step = Step { node: x, went_left: false };
            proof {
                lemma_lifted_push(before, step, here_node, index as nat);
                lemma_plug_push(before, step, child.elems());
                assert(step_left(step) + child.elems() + step_right(step) =~= here);
            }
            path.push(step);
            x = child;
            index -= llen + 1;
        }
    }
    proof {
        lemma_elems(*x);
    }
    while path.len() > 0
        invariant
            tree_wf(x.left),
            tree_wf(x.right),
            path_wf(path@),
            plugged(path@, x.inner()) == whole,
            path_left(path@).len() + tree_len(x.left) == target,
            whole.len() <= usize::MAX,
            lifted(path@, (x.left, x.over(None, None), x.right)) == goal,
        decreases path.len(),
    {
        let ghost before = path@;
        let ghost hole = x.inner();
        let step = path.pop().unwrap();
        proof {
            assert(before =~= path@.push(step));
            assert(before.drop_last() =~= path@);
            assert(before.last() == step);
            lemma_plug_push(path@, step, hole);
            assert(step_wf(before[before.len() - 1]));
            lemma_tree_len(x.left);
            lemma_tree_len(x.right);
            lemma_tree_len(step.node.left);
            lemma_tree_len(step.node.right);
            assert(plugged(path@, step_left(step) + hole + step_right(step)).len() == whole.len());
            assert(plugged(path@, step_left(step) + hole + step_right(step)).len() >= (step_left(
                step,
            ) + hole + step_right(step)).len());
        }
        let went_left = step.went_left;
        let mut p = step.node;
        if went_left {
            p.left = x.right.take();
            p.update();
            x.right = Some(p);
        } else {
            p.right = x.left.take();
            p.update();
            x.left = Some(p);
        }
        proof {
            assert(x.inner() =~= step_left(step) + hole + step_right(step));
            lemma_tree_len(x.left);
        }
    }
    proof {
        lemma_plug_empty(x.inner());
        assert(path@ =~= Seq::<Step>::empty());
        lemma_tree_len(x.left);
        lemma_tree_len(x.right);
        lemma_cut_middle(tree_elems(x.left), x.spec_value(), tree_elems(x.right));
    }
    let l = x.left.take();
    let r = x.right.take();
    x.update();
    (l, x, r)
}

/// Puts `c` on top of `l` and `r`.
#[verifier::rlimit(40)]
pub fn merge3(l: Option<Box<Node>>, mut c: Box<Node>, r: Option<Box<Node>>) -> (z: Box<Node>)
    requires
        tree_wf(l),
        tree_wf(r),
        tree_len(l) + tree_len(r) < usize::MAX,
    ensures
        z.wf(),
        z.elems() == tree_elems(l) + seq![c.spec_value()] + tree_elems(r),
        tree_len(Some(z)) == tree_len(l) + 1 + tree_len(r),
        *z == c.over(l, r),
        z.spec_left() == l && z.spec_right() == r && z.spec_value() == c.spec_value(),
{
    c.left = l;
    c.right = r;
    c.update();
    c
}

/// Concatenates two trees.
pub fn merge2(l: Option<Box<Node>>, r: Option<Box<Node>>) -> (z: Option<Box<Node>>)
    requires
        tree_wf(l),
        tree_wf(r),
        tree_len(l) + tree_len(r) <= usize::MAX,
    ensures
        tree_wf(z),
        tree_elems(z) == joined((tree_elems(l), tree_elems(r))),
        tree_len(z) == tree_len(l) + tree_len(r),
        r is None ==> z == l,
        z == merged2(l, r),
{
    proof {
        reveal(merged2);
        lemma_tree_len(l);
        lemma_tree_len(r);
    }
    match r {
        None => {
            assert(tree_elems(l) + tree_elems(r) =~= tree_elems(l));
            l
        },
        Some(r) => {
            let ghost e = r.elems();
            let (_, c, r) = split3(r, 0);
            proof {
                lemma_tree_len(r);
            }
            let z = merge3(l, c, r);
            proof {
                assert(z.elems() =~= tree_elems(l) + e);
            }
            Some(z)
        },
    }
}

/// Splits a tree into its first `index` values and the rest.
pub fn split2(x: Option<Box<Node>>, index: usize) -> (res: (
    Option<Box<Node>>,
    Option<Box<Node>>,
))
    requires
        tree_wf(x),
        index <= tree_elems(x).len(),
    ensures
        tree_wf(res.0),
        tree_wf(res.1),
        (tree_elems(res.0), tree_elems(res.1)) == split_at(tree_elems(x), index as int),
        tree_len(res.0) == index,
        tree_len(res.0) + tree_len(res.1) == tree_len(x),
        tree_len(res.0) + tree_len(res.1) <= usize::MAX,
        index == tree_len(x) ==> res.0 == x && res.1 is None,
        res == split2_parts(x, index as nat),
{
    proof {
        reveal(split2_parts);
        lemma_tree_len(x);
    }
    if index == size(&x) {
        proof {
            let e = tree_elems(x);
            assert(e.subrange(0, e.len() as int) =~= e);
            assert(e.subrange(e.len() as int, e.len() as int) =~= Seq::<i32>::empty());
        }
        return (x, None);
    }
    let ghost e = tree_elems(x);
    let (l, c, r) = split3(x.unwrap(), index);
    proof {
        lemma_tree_len(r);
        lemma_elems(*c);
        assert(c.elems() =~= seq![c.spec_value()]);
    }
    let z = merge2(Some(c), r);
    proof {
        assert(tree_elems(z) =~= e.subrange(index as int, e.len() as int));
    }
    (l, z)
}

/// Builds a tree from `values[lo..hi]`, with the midpoint at the root.
fn from_iter_recurse(values: &Vec<i32>, lo: usize, hi: usize) -> (t: Option<Box<Node>>)
    requires
        lo <= hi <= values.len(),
    ensures
        tree_wf(t),
        tree_elems(t) == values@.subrange(lo as int, hi as int),
        t == built(values@, lo as int, hi as int),
    decreases hi - lo,
{
    let n = hi - lo;
    proof {
        reveal(built);
    }
    if n == 0 {
        assert(values@.subrange(lo as int, hi as int) =~= Seq::<i32>::empty());
        return None;
    }
    let mid = lo + n / 2;
    let left = from_iter_recurse(values, lo, mid);
    let right = from_iter_recurse(values, mid + 1, hi);
    let mut c = Box::new(Node { left, right, value: values[mid], len: 0 });
    proof {
        lemma_tree_len(c.left);
        lemma_tree_len(c.right);
    }
    c.update();
    proof {
        assert(c.elems() =~= values@.subrange(lo as int, hi as int));
    }
    Some(c)
}

impl View for UnbalancedTreeWithParent {
    type V = Seq<i32>;

    /// The values of the sequence in order.
    closed spec fn view(&self) -> Seq<i32> {
        tree_elems(self.root)
    }
}

impl Default for UnbalancedTreeWithParent {
    fn default() -> (t: Self)
        ensures
            t.wf(),
            t@ == Seq::<i32>::empty(),
    {
        Self::new()
    }
}

impl UnbalancedTreeWithParent {
    /// The size invariant holds at every node.
    pub closed spec fn wf(&self) -> bool {
        tree_wf(self.root)
    }

    /// The tree that holds the sequence.
    pub closed spec fn spec_root(&self) -> Option<Box<Node>> {
        self.root
    }

    /// The sequence is what its tree holds in order, and it meets its invariants exactly when
    /// its tree does.
    pub proof fn lemma_spec_root(&self)
        ensures
            self@ == tree_elems(self.spec_root()),
            self.wf() == tree_wf(self.spec_root()),
    {
    }

    /// The empty sequence.
    pub fn new() -> (t: Self)
        ensures
            t.wf(),
            t@ == Seq::<i32>::empty(),
    {
        Self { root: None }
    }

    /// The number of values.
    pub fn len(&self) -> (n: usize)
        requires
            self.wf(),
        ensures
            n == self@.len(),
    {
        proof {
            lemma_tree_len(self.root);
        }
        size(&self.root)
    }

    /// Whether the sequence holds no value.
    pub fn is_empty(&self) -> (b: bool)
        requires
            self.wf(),
        ensures
            b == (self@.len() == 0),
    {
        self.len() == 0
    }

    /// This discipline keeps no height: always 0.
    pub fn height(&self) -> (h: u8)
        ensures
            h == 0,
    {
        0
    }

    /// Places `value` at position `index`, moving what was there and after it one step back.
    pub fn insert(&mut self, index: usize, value: i32)
        requires
            old(self).wf(),
            index <= old(self)@.len(),
            old(self)@.len() < usize::MAX,
        ensures
            final(self).wf(),
            final(self)@ == inserted(old(self)@, index as int, value),
            final(self).spec_root() == Some(
                Box::new(
                    single(value).over(
                        split2_parts(old(self).spec_root(), index as nat).0,
                        split2_parts(old(self).spec_root(), index as nat).1,
                    ),
                ),
            ),
    {
        proof {
            lemma_tree_len(self.root);
        }
        let c = Box::new(Node { left: None, right: None, value, len: 1 });
        let (l, r) = split2(self.root.take(), index);
        proof {
            lemma_tree_len(l);
            lemma_tree_len(r);
        }
        self.root = Some(merge3(l, c, r));
    }

    /// Takes out the value at position `index` and returns it.
    pub fn remove(&mut self, index: usize) -> (value: i32)
        requires
            old(self).wf(),
            index < old(self)@.len(),
        ensures
            final(self).wf(),
            final(self)@ == removed(old(self)@, index as int),
            value == old(self)@[index as int],
            old(self).spec_root() matches Some(n) && final(self).spec_root() == merged2(
                split3_parts(*n, index as nat).0,
                split3_parts(*n, index as nat).2,
            ),
    {
        proof {
            lemma_tree_len(self.root);
        }
        let (l, c, r) = split3(self.root.take().unwrap(), index);
        proof {
            lemma_tree_len(l);
            lemma_tree_len(r);
        }
        self.root = merge2(l, r);
        c.value
    }

    /// Gives up the sequence for the tree that holds it.
    pub fn into_root(self) -> (r: Option<Box<Node>>)
        ensures
            r == self.spec_root(),
            tree_elems(r) == self@,
            tree_wf(r) == self.wf(),
    {
        self.root
    }

    /// The sequence held by a tree that meets the invariants.
    pub fn from_root(root: Option<Box<Node>>) -> (t: Self)
        requires
            tree_wf(root),
        ensures
            t.wf(),
            t@ == tree_elems(root),
            t.spec_root() == root,
    {
        Self { root }
    }

    /// The sequence holding `values` in order, built in linear time with the midpoint of
    /// every range at the root of its subtree.
    pub fn from_iter(values: Vec<i32>) -> (t: Self)
        ensures
            t.wf(),
            t@ == values@,
            t.spec_root() == built(values@, 0, values@.len() as int),
    {
        let root = from_iter_recurse(&values, 0, values.len());
        proof {
            assert(values@.subrange(0, values.len() as int) =~= values@);
        }
        Self { root }
    }
}

impl Node {
    /// The number of nodes on the longest way down from this node.
    pub closed spec fn spec_depth(self) -> nat
        decreases self,
    {
        let l = match self.left {
            None => 0nat,
            Some(n) => n.spec_depth(),
        };
        let r = match self.right {
            None => 0nat,
            Some(n) => n.spec_depth(),
        };
        if l >= r {
            l + 1
        } else {
            r + 1
        }
    }
}

impl TreeNode for Node {
    open spec fn subtree_values(&self) -> Seq<i32> {
        self.elems()
    }

    closed spec fn left_child(&self) -> Option<Self> {
        match self.left {
            Some(n) => Some(*n),
            None => None,
        }
    }

    closed spec fn right_child(&self) -> Option<Self> {
        match self.right {
            Some(n) => Some(*n),
            None => None,
        }
    }

    open spec fn stored_value(&self) -> i32 {
        self.spec_value()
    }

    open spec fn depth(&self) -> nat {
        self.spec_depth()
    }

    proof fn lemma_children(&self) {
        lemma_elems(*self);
    }

    fn left(&self) -> (l: Option<&Self>) {
        match &self.left {
            Some(n) => Some(&**n),
            None => None,
        }
    }

    fn right(&self) -> (r: Option<&Self>) {
        match &self.right {
            Some(n) => Some(&**n),
            None => None,
        }
    }

    fn value(&self) -> (v: i32) {
        self.value
    }
}

impl Validatable for Node {
    open spec fn balance_ok(&self) -> bool {
        true
    }

    open spec fn all_balance_ok(&self) -> bool {
        true
    }

    proof fn lemma_all_balance(&self) {
    }

    fn validate_balance(&self) -> (ok: bool) {
        Node::validate_balance(self)
    }
}

impl HasRoot for UnbalancedTreeWithParent {
    type Node = Node;

    open spec fn values(&self) -> Seq<i32> {
        self@
    }

    closed spec fn root_node(&self) -> Option<Node> {
        match self.root {
            Some(n) => Some(*n),
            None => None,
        }
    }

    proof fn lemma_root(&self) {
    }

    fn root(&self) -> (r: Option<&Node>) {
        match &self.root {
            Some(n) => Some(&**n),
            None => None,
        }
    }
}

impl UnbalancedTreeWithParent {
    /// A tree that meets its invariants passes the balance check at every node.
    pub proof fn lemma_wf_validates(&self)
        requires
            self.wf(),
        ensures
            all_ok(self.root_node()),
    {

    }
}

impl BenchmarkableTree for UnbalancedTreeWithParent {
    open spec fn seq(&self) -> Seq<i32> {
        self@
    }

    open spec fn sound(&self) -> bool {
        self.wf()
    }

    open spec fn reported_height(&self) -> nat {
        0
    }

    fn from_iter(values: Vec<i32>) -> (t: Self) {
        UnbalancedTreeWithParent::from_iter(values)
    }

    fn len(&self) -> (n: usize) {
        UnbalancedTreeWithParent::len(self)
    }

    fn height(&self) -> (h: u8) {
        Self::height(self)
    }

    fn insert(&mut self, index: usize, value: i32) {
        UnbalancedTreeWithParent::insert(self, index, value)
    }

    fn remove(&mut self, index: usize) -> (value: i32) {
        UnbalancedTreeWithParent::remove(self, index)
    }
}

impl UnbalancedTreeWithParent {
    /// Like [`insert`](Self::insert), but turns a position beyond the end down, and every
    /// position once the sequence holds as many values as a `usize` can count, and leaves
    /// the sequence as it was.
    pub fn try_insert(&mut self, index: usize, value: i32) -> (r: Result<(), TreeError>)
        requires
            old(self).wf(),
        ensures
            final(self).wf(),
            index <= old(self)@.len() < usize::MAX ==> r is Ok && final(self)@ == inserted(
                old(self)@,
                index as int,
                value,
            ),
            !(index <= old(self)@.len() < usize::MAX) ==> r == Err::<(), TreeError>(
                TreeError::IndexOutOfRange,
            ) && final(self)@ == old(self)@,
    {
        let n = self.len();
        if index > n || n == usize::MAX {
            return Err(TreeError::IndexOutOfRange);
        }
        self.insert(index, value);
        Ok(())
    }

    /// Like [`remove`](Self::remove), but turns a position that does not exist down and
    /// leaves the sequence as it was.
    pub fn try_remove(&mut self, index: usize) -> (r: Result<i32, TreeError>)
        requires
            old(self).wf(),
        ensures
            final(self).wf(),
            index < old(self)@.len() ==> r is Ok && r->Ok_0 == old(self)@[index as int]
                && final(self)@ == removed(old(self)@, index as int),
            index >= old(self)@.len() ==> r == Err::<i32, TreeError>(TreeError::IndexOutOfRange)
                && final(self)@ == old(self)@,
    {
        if index >= self.len() {
            return Err(TreeError::IndexOutOfRange);
        }
        Ok(self.remove(index))
    }
}

} // verus!
