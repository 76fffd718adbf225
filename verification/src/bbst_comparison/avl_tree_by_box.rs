//! A height-balanced sequence of `i32` values with positional insertion and
//! removal, built from owned nodes and a recursive split/merge engine.

use vstd::prelude::*;
use crate::error::TreeError;
use vstd::string::StringExecFns;
use crate::text::{
    lemma_append3, decimal_text, pop_char, push_char, push_decimal, push_repeated, push_signed, repeated, signed_text,
};
use crate::bbst_comparison::test_utils::{
    all_ok, BenchmarkableTree, HasRoot, TreeNode, Validatable,
};
use crate::model::{
    inserted, joined, lemma_concat_shift, lemma_cut_left, lemma_cut_middle, lemma_cut_right,
    lemma_perfect_height_step, perfect_height, removed, split_at, higher, min_nodes,
    lemma_min_nodes_monotone, lemma_min_nodes_limit,
};

verus! {

/// A height-balanced sequence of `i32` values.
pub struct AvlTreeByBox {
    root: Option<Box<Node>>,
}

/// One value of the sequence with the size and height of its subtree.
pub struct Node {
    left: Option<Box<Node>>,
    right: Option<Box<Node>>,
    value: i32,
    len: usize,
    ht: u8,
}

/// The in-order values of a subtree.
pub closed spec fn tree_elems(t: Option<Box<Node>>) -> Seq<i32> {
    match t {
        None => Seq::empty(),
        Some(n) => n.elems(),
    }
}

/// The stored size of a subtree, 0 when empty.
pub closed spec fn tree_len(t: Option<Box<Node>>) -> nat {
    match t {
        None => 0,
        Some(n) => n.len as nat,
    }
}

/// The stored height of a subtree, 0 when empty.
pub closed spec fn tree_height(t: Option<Box<Node>>) -> nat {
    match t {
        None => 0,
        Some(n) => n.ht as nat,
    }
}

/// The shape invariants hold at every node of the subtree.
pub closed spec fn tree_wf(t: Option<Box<Node>>) -> bool
    decreases t,
{
    match t {
        None => true,
        Some(n) => n.wf(),
    }
}

/// The stored height of every node is one more than that of its higher child.
pub closed spec fn tree_heights_ok(t: Option<Box<Node>>) -> bool {
    match t {
        None => true,
        Some(n) => n.heights_ok(),
    }
}

impl Node {
    /// The values of the subtree in order.
    #[verifier::opaque]
    pub closed spec fn elems(self) -> Seq<i32>
        decreases self,
    {
        let l = match self.left {
            None => Seq::empty(),
            Some(n) => n.elems(),
        };
        let r = match self.right {
            None => Seq::empty(),
            Some(n) => n.elems(),
        };
        l + seq![self.value] + r
    }

    /// The children's values around this node's value.
    pub closed spec fn inner(self) -> Seq<i32> {
        tree_elems(self.left) + seq![self.value] + tree_elems(self.right)
    }

    /// Size and height agree with the children.
    pub closed spec fn meta_ok(self) -> bool {
        &&& self.len == 1 + tree_len(self.left) + tree_len(self.right)
        &&& self.len == self.elems().len()
        &&& self.ht == 1 + higher(tree_height(self.left), tree_height(self.right))
    }

    /// The heights of the two children differ by at most one.
    pub closed spec fn balanced(self) -> bool {
        -1 <= tree_height(self.left) - tree_height(self.right) <= 1
    }

    /// The shape invariants hold at this node and below.
    pub closed spec fn wf(self) -> bool
        decreases self,
    {
        &&& tree_wf(self.left)
        &&& tree_wf(self.right)
        &&& self.meta_ok()
        &&& self.balanced()
    }

    /// What the balance check of a node accepts, at this node and below: the children
    /// differ in height by at most one and the stored height is one more than the higher.
    pub closed spec fn heights_ok(self) -> bool
        decreases self,
    {
        &&& match self.left {
            None => true,
            Some(n) => n.heights_ok(),
        }
        &&& match self.right {
            None => true,
            Some(n) => n.heights_ok(),
        }
        &&& self.balanced()
        &&& self.ht == 1 + higher(tree_height(self.left), tree_height(self.right))
    }

    /// The node has no children.
    pub closed spec fn is_single(self) -> bool {
        self.left is None && self.right is None
    }

    /// The value stored at the node.
    pub closed spec fn spec_value(self) -> i32 {
        self.value
    }

    /// The left child.
    pub closed spec fn spec_left(self) -> Option<Box<Node>> {
        self.left
    }

    /// The right child.
    pub closed spec fn spec_right(self) -> Option<Box<Node>> {
        self.right
    }

    /// At a node that meets the shape invariants, the size is one more than the sizes of the
    /// children and counts the values, the height is one more than that of the higher child,
    /// the children differ in height by at most one, and both children meet the invariants.
    pub proof fn lemma_shape(self)
        requires
            self.wf(),
        ensures
            tree_len(Some(Box::new(self))) == 1 + tree_len(self.spec_left()) + tree_len(
                self.spec_right(),
            ),
            tree_len(Some(Box::new(self))) == self.elems().len(),
            self.elems() == tree_elems(self.spec_left()) + seq![self.spec_value()] + tree_elems(
                self.spec_right(),
            ),
            tree_height(Some(Box::new(self))) == 1 + higher(
                tree_height(self.spec_left()),
                tree_height(self.spec_right()),
            ),
            -1 <= tree_height(self.spec_left()) - tree_height(self.spec_right()) <= 1,
            tree_wf(self.spec_left()),
            tree_wf(self.spec_right()),
    {
        lemma_elems(self);
    }
}

impl Node {
    /// The node with the given children, its value kept and its size and height as stored.
    pub closed spec fn with_children(self, l: Option<Box<Node>>, r: Option<Box<Node>>) -> Node {
        Node { left: l, right: r, value: self.value, len: self.len, ht: self.ht }
    }

    /// The node with its size and height recomputed from its children.
    pub closed spec fn updated(self) -> Node {
        Node {
            left: self.left,
            right: self.right,
            value: self.value,
            len: (1 + tree_len(self.left) + tree_len(self.right)) as usize,
            ht: (1 + higher(tree_height(self.left), tree_height(self.right))) as u8,
        }
    }

    /// The node over the given children, with size and height computed from them.
    pub closed spec fn over(self, l: Option<Box<Node>>, r: Option<Box<Node>>) -> Node {
        self.with_children(l, r).updated()
    }

    /// The node `over` gives holds the value of the node and the given children; its size is
    /// one more than their sizes and its height one more than the higher of theirs, as far
    /// as these fit.
    pub proof fn lemma_over(self, l: Option<Box<Node>>, r: Option<Box<Node>>)
        ensures
            self.over(l, r).spec_left() == l,
            self.over(l, r).spec_right() == r,
            self.over(l, r).spec_value() == self.spec_value(),
            self.with_children(l, r).spec_left() == l,
            self.with_children(l, r).spec_right() == r,
            self.with_children(l, r).spec_value() == self.spec_value(),
            self.updated() == self.over(self.spec_left(), self.spec_right()),
            tree_len(l) + tree_len(r) < usize::MAX ==> tree_len(Some(Box::new(self.over(l, r))))
                == 1 + tree_len(l) + tree_len(r),
            higher(tree_height(l), tree_height(r)) < 255 ==> tree_height(
                Some(Box::new(self.over(l, r))),
            ) == 1 + higher(tree_height(l), tree_height(r)),
    {
    }
}

/// The subtree after its right child has been lifted above its root.
#[verifier::opaque]
pub closed spec fn rotated_left(x: Node) -> Node {
    match x.right {
        Some(y) => y.over(Some(Box::new(x.over(x.left, y.left))), y.right),
        None => x,
    }
}

/// The subtree after its left child has been lifted above its root.
#[verifier::opaque]
pub closed spec fn rotated_right(x: Node) -> Node {
    match x.left {
        Some(y) => y.over(y.left, Some(Box::new(x.over(y.right, x.right)))),
        None => x,
    }
}

/// The subtree after the balance rule has acted on its root: where the children differ in
/// height by two, the higher child is lifted above the root, after the inner grandchild
/// has been lifted above that child where it is the higher one; otherwise the root is
/// only recomputed.
#[verifier::opaque]
pub closed spec fn rebalanced(x: Node) -> Node {
    let hl = tree_height(x.left);
    let hr = tree_height(x.right);
    if hr == hl + 2 {
        match x.right {
            Some(r) => {
                let r2 = if tree_height(r.left) > tree_height(r.right) {
                    rotated_right(*r)
                } else {
                    *r
                };
                rotated_left(x.with_children(x.left, Some(Box::new(r2))))
            },
            None => x,
        }
    } else if hl == hr + 2 {
        match x.left {
            Some(l) => {
                let l2 = if tree_height(l.left) < tree_height(l.right) {
                    rotated_left(*l)
                } else {
                    *l
                };
                rotated_right(x.with_children(Some(Box::new(l2)), x.right))
            },
            None => x,
        }
    } else {
        x.updated()
    }
}

/// The tree that joining `l`, the node `c` and `r` gives: with equal heights `c` over `l`
/// and `r`; otherwise the root of the higher side stays, with the join of the rest in the
/// place of its inner child, and is rebalanced.
#[verifier::opaque]
pub closed spec fn merged3(l: Option<Box<Node>>, c: Node, r: Option<Box<Node>>) -> Node
    decreases l, r,
{
    if tree_height(l) < tree_height(r) {
        match r {
            Some(rn) => rebalanced(
                rn.with_children(Some(Box::new(merged3(l, c, rn.left))), rn.right),
            ),
            None => c,
        }
    } else if tree_height(l) > tree_height(r) {
        match l {
            Some(ln) => rebalanced(
                ln.with_children(ln.left, Some(Box::new(merged3(ln.right, c, r)))),
            ),
            None => c,
        }
    } else {
        c.over(l, r)
    }
}

/// The tree that the midpoint construction builds from `values[lo..hi]`: empty for an empty
/// range, otherwise the value in the middle over the trees of the two halves.
#[verifier::opaque]
pub closed spec fn built(values: Seq<i32>, lo: int, hi: int) -> Option<Box<Node>>
    decreases hi - lo,
{
    if lo >= hi {
        None
    } else {
        let mid = lo + (hi - lo) / 2;
        Some(
            Box::new(
                (Node {
                    left: built(values, lo, mid),
                    right: built(values, mid + 1, hi),
                    value: values[mid],
                    len: 1,
                    ht: 0,
                }).updated(),
            ),
        )
    }
}

/// The root of the tree built from a range that is not empty holds the value in the middle
/// of the range, over the trees built from the two halves.
pub proof fn lemma_built(values: Seq<i32>, lo: int, hi: int)
    ensures
        lo >= hi ==> built(values, lo, hi) is None,
        lo < hi ==> built(values, lo, hi) is Some && built(values, lo, hi).unwrap().spec_value()
            == values[lo + (hi - lo) / 2] && built(values, lo, hi).unwrap().spec_left() == built(
            values,
            lo,
            lo + (hi - lo) / 2,
        ) && built(values, lo, hi).unwrap().spec_right() == built(
            values,
            lo + (hi - lo) / 2 + 1,
            hi,
        ),
{
    reveal(built);
}

/// Lifting a child above the root gives the child over what is left of the root and the
/// child's outer subtree.
pub proof fn lemma_rotated(x: Node)
    ensures
        x.spec_right() matches Some(y) ==> rotated_left(x) == y.over(
            Some(Box::new(x.over(x.spec_left(), y.spec_left()))),
            y.spec_right(),
        ),
        x.spec_left() matches Some(y) ==> rotated_right(x) == y.over(
            y.spec_left(),
            Some(Box::new(x.over(y.spec_right(), x.spec_right()))),
        ),
{
    reveal(rotated_left);
    reveal(rotated_right);
}

/// What the balance rule does, case by case.
pub proof fn lemma_rebalanced(x: Node)
    ensures
        tree_height(x.spec_left()) != tree_height(x.spec_right()) + 2 && tree_height(
            x.spec_right(),
        ) != tree_height(x.spec_left()) + 2 ==> rebalanced(x) == x.updated(),
        tree_height(x.spec_right()) == tree_height(x.spec_left()) + 2 ==> (x.spec_right() matches Some(
            r,
        ) ==> rebalanced(x) == rotated_left(
            x.with_children(
                x.spec_left(),
                Some(
                    Box::new(
                        if tree_height(r.spec_left()) > tree_height(r.spec_right()) {
                            rotated_right(*r)
                        } else {
                            *r
                        },
                    ),
                ),
            ),
        )),
        tree_height(x.spec_left()) == tree_height(x.spec_right()) + 2 ==> (x.spec_left() matches Some(
            l,
        ) ==> rebalanced(x) == rotated_right(
            x.with_children(
                Some(
                    Box::new(
                        if tree_height(l.spec_left()) < tree_height(l.spec_right()) {
                            rotated_left(*l)
                        } else {
                            *l
                        },
                    ),
                ),
                x.spec_right(),
            ),
        )),
{
    reveal(rebalanced);
}

/// Where the centre is hung in a join, case by case.
pub proof fn lemma_merged3(l: Option<Box<Node>>, c: Node, r: Option<Box<Node>>)
    ensures
        tree_height(l) == tree_height(r) ==> merged3(l, c, r) == c.over(l, r),
        tree_height(l) < tree_height(r) ==> (r matches Some(rn) ==> merged3(l, c, r)
            == rebalanced(
            rn.with_children(Some(Box::new(merged3(l, c, rn.spec_left()))), rn.spec_right()),
        )),
        tree_height(l) > tree_height(r) ==> (l matches Some(ln) ==> merged3(l, c, r)
            == rebalanced(
            ln.with_children(ln.spec_left(), Some(Box::new(merged3(ln.spec_right(), c, r)))),
        )),
{
    reveal(merged3);
}

/// The node that holds `value` and nothing below it.
pub closed spec fn single(value: i32) -> Node {
    Node { left: None, right: None, value, len: 1, ht: 1 }
}

/// The three parts that cutting the subtree at `index` gives: the cut goes down to the node
/// at `index`, which comes out alone; on the way back every node passed joins what is left
/// of the side that the cut went into with its other child.
#[verifier::opaque]
pub closed spec fn split3_parts(x: Node, index: nat) -> (
    Option<Box<Node>>,
    Node,
    Option<Box<Node>>,
)
    decreases x,
{
    let c = x.over(None, None);
    let llen = tree_len(x.left);
    if index < llen {
        match x.left {
            Some(l) => {
                let p = split3_parts(*l, index);
                (p.0, p.1, Some(Box::new(merged3(p.2, c, x.right))))
            },
            None => (None, c, x.right),
        }
    } else if index == llen {
        (x.left, c, x.right)
    } else {
        match x.right {
            Some(r) => {
                let p = split3_parts(*r, (index - llen - 1) as nat);
                (Some(Box::new(merged3(x.left, c, p.0))), p.1, p.2)
            },
            None => (x.left, c, None),
        }
    }
}

/// The tree that joining `l` and `r` gives: `l` itself where `r` is empty, otherwise the
/// join of `l`, the first node of `r` and the rest of `r`.
#[verifier::opaque]
pub closed spec fn merged2(l: Option<Box<Node>>, r: Option<Box<Node>>) -> Option<Box<Node>> {
    match r {
        None => l,
        Some(rn) => {
            let p = split3_parts(*rn, 0);
            Some(Box::new(merged3(l, p.1, p.2)))
        },
    }
}

/// The two parts that cutting the tree before `index` gives: the whole tree and nothing
/// where `index` is its size, otherwise what lies before the node at `index`, and that node
/// joined with what lies after it.
#[verifier::opaque]
pub closed spec fn split2_parts(x: Option<Box<Node>>, index: nat) -> (
    Option<Box<Node>>,
    Option<Box<Node>>,
) {
    match x {
        Some(n) if index != tree_len(x) => {
            let p = split3_parts(*n, index);
            (p.0, merged2(Some(Box::new(p.1)), p.2))
        },
        _ => (x, None),
    }
}

/// The single node holds its value and has no children.
pub proof fn lemma_single(value: i32)
    ensures
        single(value).spec_value() == value,
        single(value).is_single(),
        tree_len(Some(Box::new(single(value)))) == 1,
{
}

/// What cutting and joining give, case by case.
pub proof fn lemma_parts(x: Node, l: Option<Box<Node>>, r: Option<Box<Node>>, index: nat)
    ensures
        index == tree_len(x.spec_left()) ==> split3_parts(x, index) == (
            x.spec_left(),
            x.over(None, None),
            x.spec_right(),
        ),
        index < tree_len(x.spec_left()) ==> (x.spec_left() matches Some(n) ==> split3_parts(
            x,
            index,
        ) == (
            split3_parts(*n, index).0,
            split3_parts(*n, index).1,
            Some(
                Box::new(merged3(split3_parts(*n, index).2, x.over(None, None), x.spec_right())),
            ),
        )),
        index > tree_len(x.spec_left()) ==> (x.spec_right() matches Some(n) ==> split3_parts(
            x,
            index,
        ) == (
            Some(
                Box::new(
                    merged3(
                        x.spec_left(),
                        x.over(None, None),
                        split3_parts(*n, (index - tree_len(x.spec_left()) - 1) as nat).0,
                    ),
                ),
            ),
            split3_parts(*n, (index - tree_len(x.spec_left()) - 1) as nat).1,
            split3_parts(*n, (index - tree_len(x.spec_left()) - 1) as nat).2,
        )),
        r is None ==> merged2(l, r) == l,
        r matches Some(n) ==> merged2(l, r) == Some(
            Box::new(merged3(l, split3_parts(*n, 0).1, split3_parts(*n, 0).2)),
        ),
        index == tree_len(l) || l is None ==> split2_parts(l, index) == (l, None::<Box<Node>>),
        index != tree_len(l) ==> (l matches Some(n) ==> split2_parts(l, index) == (
            split3_parts(*n, index).0,
            merged2(Some(Box::new(split3_parts(*n, index).1)), split3_parts(*n, index).2),
        )),
{
    reveal(split3_parts);
    reveal(merged2);
    reveal(split2_parts);
}

proof fn lemma_elems(n: Node)
    ensures
        n.elems() == n.inner(),
{
    reveal(Node::elems);
}

/// The number of nodes on the longest way down through the subtree, 0 when empty.
pub open spec fn tree_depth(t: Option<Box<Node>>) -> nat
    decreases t,
{
    match t {
        None => 0,
        Some(n) => 1 + higher(tree_depth(n.spec_left()), tree_depth(n.spec_right())),
    }
}

/// The stored height of a tree that meets the invariants is the number of nodes on its
/// longest way down.
pub proof fn lemma_height_is_depth(t: Option<Box<Node>>)
    requires
        tree_wf(t),
    ensures
        tree_height(t) == tree_depth(t),
    decreases t,
{
    match t {
        None => {},
        Some(n) => {
            lemma_height_is_depth(n.left);
            lemma_height_is_depth(n.right);
        },
    }
}

/// The empty tree meets the invariants and holds nothing, the stored size of a tree that
/// meets the invariants is the number of its values, and a tree that is not empty meets
/// the invariants exactly when its root does.
pub proof fn lemma_tree_size(t: Option<Box<Node>>)
    ensures
        tree_wf(None::<Box<Node>>),
        tree_elems(None::<Box<Node>>) == Seq::<i32>::empty(),
        tree_len(None::<Box<Node>>) == 0,
        tree_len(t) <= usize::MAX,
        tree_height(None::<Box<Node>>) == 0,
        tree_wf(t) ==> tree_len(t) == tree_elems(t).len(),
        t matches Some(n) ==> tree_wf(t) == n.wf(),
{
    if tree_wf(t) {
        lemma_tree_len(t);
    }
}

proof fn lemma_tree_len(t: Option<Box<Node>>)
    requires
        tree_wf(t),
    ensures
        tree_elems(t).len() == tree_len(t),
        (t is None) == (tree_height(t) == 0),
        t matches Some(n) ==> n.meta_ok() && n.balanced() && tree_wf(n.left) && tree_wf(n.right),
{
}

/// A balanced subtree of stored height `h` holds at least `min_nodes(h)` nodes.
pub proof fn lemma_tree_min_nodes(t: Option<Box<Node>>)
    requires
        tree_wf(t),
    ensures
        tree_len(t) >= min_nodes(tree_height(t)),
    decreases t,
{
    match t {
        None => {},
        Some(n) => {
            lemma_tree_min_nodes(n.left);
            lemma_tree_min_nodes(n.right);
            let hl = tree_height(n.left);
            let hr = tree_height(n.right);
            let h = n.ht as nat;
            if h >= 2 {
                if hl >= hr {
                    lemma_min_nodes_monotone((h - 2) as nat, hr);
                } else {
                    lemma_min_nodes_monotone((h - 2) as nat, hl);
                }
            }
        },
    }
}

/// A subtree of stored height `h` that meets the shape invariants holds fewer than `2^h`
/// nodes, and none exactly when its height is 0.
pub proof fn lemma_tree_max_nodes(t: Option<Box<Node>>)
    requires
        tree_wf(t),
    ensures
        tree_len(t) + 1 <= vstd::arithmetic::power2::pow2(tree_height(t)),
        (tree_height(t) == 0) == (tree_len(t) == 0),
    decreases t,
{
    vstd::arithmetic::power2::lemma2_to64();
    match t {
        None => {},
        Some(n) => {
            lemma_tree_max_nodes(n.left);
            lemma_tree_max_nodes(n.right);
            let h = n.ht as nat;
            let hl = tree_height(n.left);
            let hr = tree_height(n.right);
            vstd::arithmetic::power2::lemma_pow2_unfold(h);
            if hl < h - 1 {
                vstd::arithmetic::power2::lemma_pow2_strictly_increases(hl, (h - 1) as nat);
            }
            if hr < h - 1 {
                vstd::arithmetic::power2::lemma_pow2_strictly_increases(hr, (h - 1) as nat);
            }
        },
    }
}

/// A balanced subtree whose size fits in `usize` has height at most 127.
pub proof fn lemma_tree_height_bound(t: Option<Box<Node>>)
    requires
        tree_wf(t),
    ensures
        tree_height(t) <= 127,
{
    if tree_height(t) >= 128 {
        lemma_tree_min_nodes(t);
        lemma_min_nodes_limit(tree_height(t));
        assert(tree_len(t) <= usize::MAX);
        assert(usize::MAX <= u64::MAX);
    }
}

/// A subtree that meets the shape invariants passes the balance check at every node.
pub proof fn lemma_wf_heights_ok(t: Option<Box<Node>>)
    requires
        tree_wf(t),
    ensures
        tree_heights_ok(t),
    decreases t,
{
    match t {
        None => {},
        Some(n) => {
            lemma_wf_heights_ok(n.left);
            lemma_wf_heights_ok(n.right);
        },
    }
}

fn ht(x: &Option<Box<Node>>) -> (h: u8)
    ensures
        h == tree_height(*x),
{
    match x {
        None => 0,
        Some(n) => n.ht,
    }
}

fn size(x: &Option<Box<Node>>) -> (n: usize)
    ensures
        n == tree_len(*x),
{
    match x {
        None => 0,
        Some(n) => n.len,
    }
}

impl Node {
    /// Recomputes size and height from the children.
    fn update(&mut self)
        requires
            tree_wf(old(self).left),
            tree_wf(old(self).right),
            tree_len(old(self).left) + tree_len(old(self).right) < usize::MAX,
        ensures
            final(self).left == old(self).left,
            final(self).right == old(self).right,
            final(self).value == old(self).value,
            *final(self) == old(self).updated(),
            final(self).meta_ok(),
            final(self).elems() == old(self).inner(),
    {
        proof {
            lemma_tree_height_bound(self.left);
            lemma_tree_height_bound(self.right);
            lemma_tree_len(self.left);
            lemma_tree_len(self.right);
        }
        self.len = 1;
        self.ht = 1;
        match self.left.as_ref() {
            Some(l) => {
                self.len += l.len;
                if l.ht + 1 > self.ht {
                    self.ht = l.ht + 1;
                }
            },
            None => {},
        }
        match self.right.as_ref() {
            Some(r) => {
                self.len += r.len;
                if r.ht + 1 > self.ht {
                    self.ht = r.ht + 1;
                }
            },
            None => {},
        }
        proof {
            lemma_elems(*self);
        }
    }

    /// Whether the children differ in height by at most one and the stored height is one more
    /// than the higher of them.
    pub fn validate_balance(&self) -> (ok: bool)
        ensures
            ok == (self.balanced() && tree_height(Some(Box::new(*self))) == 1 + higher(
                tree_height(self.spec_left()),
                tree_height(self.spec_right()),
            )),
    {
        let hl = ht(&self.left);
        let hr = ht(&self.right);
        let (top, gap) = if hl >= hr {
            (hl, hl - hr)
        } else {
            (hr, hr - hl)
        };
        gap <= 1 && top < 255 && self.ht == top + 1
    }
}

/// Makes the right child the root of the subtree, keeping the order of the values.
#[verifier::rlimit(40)]
fn rotate_left(mut x: Box<Node>) -> (z: Box<Node>)
    requires
        tree_wf(x.left),
        x.right is Some,
        x.right.unwrap().meta_ok(),
        tree_wf(x.right.unwrap().left),
        tree_wf(x.right.unwrap().right),
        -1 <= tree_height(x.left) - tree_height(x.right.unwrap().left) <= 1,
        tree_len(x.left) + tree_len(x.right) < usize::MAX,
    ensures
        z.meta_ok(),
        z.elems() == x.inner(),
        tree_wf(z.left),
        tree_wf(z.right),
        tree_height(z.left) == 1 + higher(tree_height(x.left), tree_height(x.right.unwrap().left)),
        tree_height(z.right) == tree_height(x.right.unwrap().right),
        *z == rotated_left(*x),
{
    let ghost x0 = *x;
    let mut y = x.right.take().unwrap();
    proof {
        reveal(rotated_left);
        lemma_elems(*y);
    }
    x.right = y.left.take();
    x.update();
    y.left = Some(x);
    proof {
        lemma_tree_len(y.left);
        lemma_tree_len(y.right);
    }
    y.update();
    proof {
        assert(y.elems() =~= x0.inner());
    }
    y
}

/// Makes the left child the root of the subtree, keeping the order of the values.
#[verifier::rlimit(40)]
fn rotate_right(mut x: Box<Node>) -> (z: Box<Node>)
    requires
        tree_wf(x.right),
        x.left is Some,
        x.left.unwrap().meta_ok(),
        tree_wf(x.left.unwrap().left),
        tree_wf(x.left.unwrap().right),
        -1 <= tree_height(x.left.unwrap().right) - tree_height(x.right) <= 1,
        tree_len(x.left) + tree_len(x.right) < usize::MAX,
    ensures
        z.meta_ok(),
        z.elems() == x.inner(),
        tree_wf(z.left),
        tree_wf(z.right),
        tree_height(z.left) == tree_height(x.left.unwrap().left),
        tree_height(z.right) == 1 + higher(
            tree_height(x.left.unwrap().right),
            tree_height(x.right),
        ),
        *z == rotated_right(*x),
{
    let ghost x0 = *x;
    let mut y = x.left.take().unwrap();
    proof {
        reveal(rotated_right);
        lemma_elems(*y);
    }
    x.left = y.right.take();
    x.update();
    y.right = Some(x);
    proof {
        lemma_tree_len(y.left);
        lemma_tree_len(y.right);
    }
    y.update();
    proof {
        assert(y.elems() =~= x0.inner());
    }
    y
}

/// Restores the height balance at `x` when its children differ by at most two.
#[verifier::rlimit(40)]
fn balance(mut x: Box<Node>) -> (z: Box<Node>)
    requires
        tree_wf(x.left),
        tree_wf(x.right),
        -2 <= tree_height(x.left) - tree_height(x.right) <= 2,
        tree_len(x.left) + tree_len(x.right) < usize::MAX,
    ensures
        z.wf(),
        z.elems() == x.inner(),
        higher(tree_height(x.left), tree_height(x.right)) <= tree_height(Some(z)) <= higher(
            tree_height(x.left),
            tree_height(x.right),
        ) + 1,
        -1 <= tree_height(x.left) - tree_height(x.right) <= 1 ==> tree_height(Some(z)) == 1
            + higher(tree_height(x.left), tree_height(x.right)),
        -1 <= tree_height(x.left) - tree_height(x.right) <= 1 ==> z.left == x.left && z.right
            == x.right && z.value == x.value,
        *z == rebalanced(*x),
{
    proof {
        reveal(rebalanced);
        lemma_tree_height_bound(x.left);
        lemma_tree_height_bound(x.right);
        lemma_tree_len(x.left);
        lemma_tree_len(x.right);
    }
    let ghost x0 = *x;
    let hl = ht(&x.left);
    let hr = ht(&x.right);
    if hr == hl + 2 {
        let mut r = x.right.take().unwrap();
        let ghost r0 = *r;
        proof {
            lemma_tree_len(r.left);
            lemma_tree_len(r.right);
            lemma_elems(r0);
        }
        if ht(&r.left) > ht(&r.right) {
            r = rotate_right(r);
        }
        x.right = Some(r);
        assert(x.inner() == x0.inner());
        x = rotate_left(x);
    } else if hl == hr + 2 {
        let mut l = x.left.take().unwrap();
        let ghost l0 = *l;
        proof {
            lemma_tree_len(l.left);
            lemma_tree_len(l.right);
            lemma_elems(l0);
        }
        if ht(&l.left) < ht(&l.right) {
            l = rotate_left(l);
        }
        x.left = Some(l);
        assert(x.inner() == x0.inner());
        x = rotate_right(x);
    } else {
        x.update();
    }
    x
}

/// Joins `l`, the single node `c` and `r` into one balanced tree, in that order.
#[verifier::rlimit(40)]
pub fn merge3(l: Option<Box<Node>>, mut c: Box<Node>, r: Option<Box<Node>>) -> (z: Box<Node>)
    requires
        tree_wf(l),
        tree_wf(r),
        c.is_single(),
        tree_len(l) + tree_len(r) < usize::MAX,
    ensures
        z.wf(),
        z.elems() == tree_elems(l) + seq![c.spec_value()] + tree_elems(r),
        tree_len(Some(z)) == tree_len(l) + 1 + tree_len(r),
        higher(tree_height(l), tree_height(r)) <= tree_height(Some(z)) <= higher(
            tree_height(l),
            tree_height(r),
        ) + 1,
        tree_height(l) == tree_height(r) ==> z.spec_left() == l && z.spec_right() == r
            && z.spec_value() == c.spec_value(),
        *z == merged3(l, *c, r),
    decreases tree_height(l) + tree_height(r),
{
    let hl = ht(&l);
    let hr = ht(&r);
    proof {
        reveal(merged3);
        lemma_tree_len(l);
        lemma_tree_len(r);
    }
    if hl < hr {
        let mut r = r.unwrap();
        let ghost r0 = *r;
        proof {
            lemma_tree_len(r.left);
            lemma_tree_len(r.right);
        }
        let rl = r.left.take();
        let t = merge3(l, c, rl);
        r.left = Some(t);
        proof {
            lemma_elems(r0);
            lemma_concat_shift(tree_elems(l), c.spec_value(), tree_elems(r0.left), r0.spec_value(), tree_elems(r0.right));
        }
        balance(r)
    } else if hl == hr {
        c.left = l;
        c.right = r;
        c.update();
        c
    } else {
        let mut l = l.unwrap();
        let ghost l0 = *l;
        proof {
            lemma_tree_len(l.left);
            lemma_tree_len(l.right);
        }
        let lr = l.right.take();
        let t = merge3(lr, c, r);
        l.right = Some(t);
        proof {
            lemma_elems(l0);
            lemma_concat_shift(tree_elems(l0.left), l0.spec_value(), tree_elems(l0.right), c.spec_value(), tree_elems(r));
        }
        balance(l)
    }
}

/// Splits off the node at `index`, returning what lies before it, the node, and what lies after.
#[verifier::rlimit(40)]
pub fn split3(mut x: Box<Node>, index: usize) -> (res: (
    Option<Box<Node>>,
    Box<Node>,
    Option<Box<Node>>,
))
    requires
        x.wf(),
        index < x.elems().len(),
    ensures
        tree_wf(res.0),
        tree_wf(res.2),
        res.1.wf(),
        res.1.is_single(),
        res.1.spec_value() == x.elems()[index as int],
        tree_elems(res.0) == x.elems().subrange(0, index as int),
        tree_elems(res.2) == x.elems().subrange(index + 1, x.elems().len() as int),
        tree_len(res.0) == index,
        tree_len(res.0) + 1 + tree_len(res.2) == x.elems().len(),
        tree_len(res.0) + tree_len(res.2) < usize::MAX,
        (res.0, *res.1, res.2) == split3_parts(*x, index as nat),
    decreases tree_height(Some(x)),
{
    proof {
        reveal(split3_parts);
        lemma_tree_len(x.left);
        lemma_tree_len(x.right);
        lemma_elems(*x);
    }
    let ghost el = tree_elems(x.left);
    let ghost er = tree_elems(x.right);
    let ghost v = x.spec_value();
    let llen = size(&x.left);
    let l = x.left.take();
    let r = x.right.take();
    x.update();
    proof {
        assert(x.elems() =~= seq![v]);
    }
    if index < llen {
        let (l0, l1, l2) = split3(l.unwrap(), index);
        proof {
            lemma_cut_left(el, v, er, index as int);
            lemma_tree_len(l0);
            lemma_tree_len(l2);
        }
        let z = merge3(l2, x, r);
        (l0, l1, Some(z))
    } else if index == llen {
        proof {
            lemma_cut_middle(el, v, er);
        }
        (l, x, r)
    } else {
        let (r0, r1, r2) = split3(r.unwrap(), index - llen - 1);
        proof {
            lemma_cut_right(el, v, er, index as int);
            lemma_tree_len(r0);
            lemma_tree_len(r2);
        }
        let z = merge3(l, x, r0);
        (Some(z), r1, r2)
    }
}

/// Concatenates two balanced trees.
pub fn merge2(l: Option<Box<Node>>, r: Option<Box<Node>>) -> (z: Option<Box<Node>>)
    requires
        tree_wf(l),
        tree_wf(r),
        tree_len(l) + tree_len(r) <= usize::MAX,
    ensures
        tree_wf(z),
        tree_elems(z) == joined((tree_elems(l), tree_elems(r))),
        tree_len(z) == tree_len(l) + tree_len(r),
        r is None ==> z == l,
        z == merged2(l, r),
{
    proof {
        reveal(merged2);
        lemma_tree_len(l);
        lemma_tree_len(r);
    }
    match r {
        None => {
            assert(tree_elems(l) + tree_elems(r) =~= tree_elems(l));
            l
        },
        Some(r) => {
            let ghost e = r.elems();
            let (_, c, r) = split3(r, 0);
            proof {
                lemma_tree_len(r);
            }
            let z = merge3(l, c, r);
            proof {
                assert(z.elems() =~= tree_elems(l) + e);
            }
            Some(z)
        },
    }
}

/// Splits a balanced tree into its first `index` values and the rest.
pub fn split2(x: Option<Box<Node>>, index: usize) -> (res: (
    Option<Box<Node>>,
    Option<Box<Node>>,
))
    requires
        tree_wf(x),
        index <= tree_elems(x).len(),
    ensures
        tree_wf(res.0),
        tree_wf(res.1),
        (tree_elems(res.0), tree_elems(res.1)) == split_at(tree_elems(x), index as int),
        tree_len(res.0) == index,
        tree_len(res.0) + tree_len(res.1) == tree_len(x),
        tree_len(res.0) + tree_len(res.1) <= usize::MAX,
        index == tree_len(x) ==> res.0 == x && res.1 is None,
        res == split2_parts(x, index as nat),
{
    proof {
        reveal(split2_parts);
        lemma_tree_len(x);
    }
    if index == size(&x) {
        proof {
            let e = tree_elems(x);
            assert(e.subrange(0, e.len() as int) =~= e);
            assert(e.subrange(e.len() as int, e.len() as int) =~= Seq::<i32>::empty());
        }
        return (x, None);
    }
    let ghost e = tree_elems(x);
    let (l, c, r) = split3(x.unwrap(), index);
    proof {
        lemma_tree_len(r);
        lemma_elems(*c);
        assert(c.elems() =~= seq![c.spec_value()]);
    }
    let z = merge2(Some(c), r);
    proof {
        assert(tree_elems(z) =~= e.subrange(index as int, e.len() as int));
    }
    (l, z)
}

/// Builds a balanced tree from `values[lo..hi]`, with the midpoint at the root.
fn from_iter_recurse(values: &Vec<i32>, lo: usize, hi: usize) -> (t: Option<Box<Node>>)
    requires
        lo <= hi <= values.len(),
    ensures
        tree_wf(t),
        tree_elems(t) == values@.subrange(lo as int, hi as int),
        tree_height(t) == perfect_height((hi - lo) as nat),
        t == built(values@, lo as int, hi as int),
    decreases hi - lo,
{
    let n = hi - lo;
    proof {
        reveal(built);
    }
    if n == 0 {
        assert(values@.subrange(lo as int, hi as int) =~= Seq::<i32>::empty());
        return None;
    }
    let mid = lo + n / 2;
    let left = from_iter_recurse(values, lo, mid);
    let right = from_iter_recurse(values, mid + 1, hi);
    let mut c = Box::new(Node { left, right, value: values[mid], ht: 0, len: 1 });
    proof {
        lemma_tree_len(c.left);
        lemma_tree_len(c.right);
        lemma_perfect_height_step(((hi - mid - 1) as nat));
        assert((mid - lo) as nat == (n / 2) as nat);
        assert((hi - mid - 1) as nat == (mid - lo) as nat || (hi - mid - 1) as nat + 1 == (mid
            - lo) as nat);
    }
    c.update();
    proof {
        assert(c.elems() =~= values@.subrange(lo as int, hi as int));
    }
    Some(c)
}

impl View for AvlTreeByBox {
    type V = Seq<i32>;

    /// The values of the sequence in order.
    closed spec fn view(&self) -> Seq<i32> {
        tree_elems(self.root)
    }
}

impl Default for AvlTreeByBox {
    fn default() -> (t: Self)
        ensures
            t.wf(),
            t@ == Seq::<i32>::empty(),
    {
        Self::new()
    }
}

impl AvlTreeByBox {
    /// Size and balance invariants hold at every node.
    pub closed spec fn wf(&self) -> bool {
        tree_wf(self.root)
    }

    /// The stored height of the root, 0 when empty.
    pub closed spec fn spec_height(&self) -> nat {
        tree_height(self.root)
    }

    /// The tree that holds the sequence.
    pub closed spec fn spec_root(&self) -> Option<Box<Node>> {
        self.root
    }

    /// The sequence is what its tree holds in order, and it meets its invariants exactly when
    /// its tree does.
    pub proof fn lemma_spec_root(&self)
        ensures
            self@ == tree_elems(self.spec_root()),
            self.wf() == tree_wf(self.spec_root()),
    {
    }

    /// The empty sequence.
    pub fn new() -> (t: Self)
        ensures
            t.wf(),
            t@ == Seq::<i32>::empty(),
    {
        Self { root: None }
    }

    /// The number of values.
    pub fn len(&self) -> (n: usize)
        requires
            self.wf(),
        ensures
            n == self@.len(),
    {
        proof {
            lemma_tree_len(self.root);
        }
        size(&self.root)
    }

    /// Whether the sequence holds no value.
    pub fn is_empty(&self) -> (b: bool)
        requires
            self.wf(),
        ensures
            b == (self@.len() == 0),
    {
        self.len() == 0
    }

    /// The height of the tree, 0 when empty.
    pub fn height(&self) -> (h: u8)
        requires
            self.wf(),
        ensures
            h == self.spec_height(),
            h == tree_depth(self.spec_root()),
            h <= 127,
            min_nodes(h as nat) <= self@.len(),
            self@.len() < vstd::arithmetic::power2::pow2(h as nat),
            (h == 0) == (self@.len() == 0),
    {
        proof {
            lemma_height_is_depth(self.root);
            lemma_tree_len(self.root);
            lemma_tree_height_bound(self.root);
            lemma_tree_min_nodes(self.root);
            lemma_tree_max_nodes(self.root);
        }
        ht(&self.root)
    }

    /// Places `value` at position `index`, moving what was there and after it one step back.
    pub fn insert(&mut self, index: usize, value: i32)
        requires
            old(self).wf(),
            index <= old(self)@.len(),
            old(self)@.len() < usize::MAX,
        ensures
            final(self).wf(),
            final(self)@ == inserted(old(self)@, index as int, value),
            final(self).spec_root() == Some(
                Box::new(
                    merged3(
                        split2_parts(old(self).spec_root(), index as nat).0,
                        single(value),
                        split2_parts(old(self).spec_root(), index as nat).1,
                    ),
                ),
            ),
    {
        proof {
            lemma_tree_len(self.root);
        }
        let c = Box::new(Node { left: None, right: None, value, len: 1, ht: 1 });
        let (l, r) = split2(self.root.take(), index);
        proof {
            lemma_tree_len(l);
            lemma_tree_len(r);
        }
        self.root = Some(merge3(l, c, r));
    }

    /// Takes out the value at position `index` and returns it.
    pub fn remove(&mut self, index: usize) -> (value: i32)
        requires
            old(self).wf(),
            index < old(self)@.len(),
        ensures
            final(self).wf(),
            final(self)@ == removed(old(self)@, index as int),
            value == old(self)@[index as int],
            old(self).spec_root() matches Some(n) && final(self).spec_root() == merged2(
                split3_parts(*n, index as nat).0,
                split3_parts(*n, index as nat).2,
            ),
    {
        proof {
            lemma_tree_len(self.root);
        }
        let (l, c, r) = split3(self.root.take().unwrap(), index);
        proof {
            lemma_tree_len(l);
            lemma_tree_len(r);
        }
        self.root = merge2(l, r);
        c.value
    }

    /// The sequence holding `values` in order, built in linear time with the midpoint of
    /// every range at the root of its subtree.
    pub fn from_iter(values: Vec<i32>) -> (t: Self)
        ensures
            t.wf(),
            t@ == values@,
            t.spec_height() == perfect_height(values@.len()),
            t.spec_root() == built(values@, 0, values@.len() as int),
    {
        let root = from_iter_recurse(&values, 0, values.len());
        proof {
            assert(values@.subrange(0, values.len() as int) =~= values@);
        }
        Self { root }
    }

    /// Gives up the sequence for the tree that holds it.
    pub fn into_root(self) -> (r: Option<Box<Node>>)
        ensures
            r == self.spec_root(),
            tree_elems(r) == self@,
            tree_wf(r) == self.wf(),
    {
        self.root
    }

    /// The sequence held by a balanced tree.
    pub fn from_root(root: Option<Box<Node>>) -> (t: Self)
        requires
            tree_wf(root),
        ensures
            t.wf(),
            t@ == tree_elems(root),
            t.spec_root() == root,
    {
        Self { root }
    }
}

impl Node {
    /// The number of nodes on the longest way down from this node.
    pub closed spec fn spec_depth(self) -> nat
        decreases self,
    {
        let l = match self.left {
            None => 0nat,
            Some(n) => n.spec_depth(),
        };
        let r = match self.right {
            None => 0nat,
            Some(n) => n.spec_depth(),
        };
        if l >= r {
            l + 1
        } else {
            r + 1
        }
    }
}

impl TreeNode for Node {
    open spec fn subtree_values(&self) -> Seq<i32> {
        self.elems()
    }

    closed spec fn left_child(&self) -> Option<Self> {
        match self.left {
            Some(n) => Some(*n),
            None => None,
        }
    }

    closed spec fn right_child(&self) -> Option<Self> {
        match self.right {
            Some(n) => Some(*n),
            None => None,
        }
    }

    open spec fn stored_value(&self) -> i32 {
        self.spec_value()
    }

    open spec fn depth(&self) -> nat {
        self.spec_depth()
    }

    proof fn lemma_children(&self) {
        lemma_elems(*self);
    }

    fn left(&self) -> (l: Option<&Self>) {
        match &self.left {
            Some(n) => Some(&**n),
            None => None,
        }
    }

    fn right(&self) -> (r: Option<&Self>) {
        match &self.right {
            Some(n) => Some(&**n),
            None => None,
        }
    }

    fn value(&self) -> (v: i32) {
        self.value
    }
}

impl Validatable for Node {
    open spec fn balance_ok(&self) -> bool {
        self.balanced() && tree_height(Some(Box::new(*self))) == 1 + higher(
            tree_height(self.spec_left()),
            tree_height(self.spec_right()),
        )
    }

    open spec fn all_balance_ok(&self) -> bool {
        self.heights_ok()
    }

    proof fn lemma_all_balance(&self) {
    }

    fn validate_balance(&self) -> (ok: bool) {
        Node::validate_balance(self)
    }
}

impl HasRoot for AvlTreeByBox {
    type Node = Node;

    open spec fn values(&self) -> Seq<i32> {
        self@
    }

    closed spec fn root_node(&self) -> Option<Node> {
        match self.root {
            Some(n) => Some(*n),
            None => None,
        }
    }

    proof fn lemma_root(&self) {
    }

    fn root(&self) -> (r: Option<&Node>) {
        match &self.root {
            Some(n) => Some(&**n),
            None => None,
        }
    }
}

impl AvlTreeByBox {
    /// A tree that meets its invariants passes the balance check at every node.
    pub proof fn lemma_wf_validates(&self)
        requires
            self.wf(),
        ensures
            all_ok(self.root_node()),
    {
        lemma_wf_heights_ok(self.root);
    }
}

impl BenchmarkableTree for AvlTreeByBox {
    open spec fn seq(&self) -> Seq<i32> {
        self@
    }

    open spec fn sound(&self) -> bool {
        self.wf()
    }

    open spec fn reported_height(&self) -> nat {
        self.spec_height()
    }

    fn from_iter(values: Vec<i32>) -> (t: Self) {
        AvlTreeByBox::from_iter(values)
    }

    fn len(&self) -> (n: usize) {
        AvlTreeByBox::len(self)
    }

    fn height(&self) -> (h: u8) {
        Self::height(self)
    }

    fn insert(&mut self, index: usize, value: i32) {
        AvlTreeByBox::insert(self, index, value)
    }

    fn remove(&mut self, index: usize) -> (value: i32) {
        AvlTreeByBox::remove(self, index)
    }
}

/// The marks before the entry of a node: a bar for every ancestor whose line runs past it.
pub closed spec fn overlines_text(overlines: Seq<bool>) -> Seq<char>
    decreases overlines.len(),
{
    if overlines.len() == 0 {
        Seq::empty()
    } else {
        overlines_text(overlines.drop_last()) + (if overlines.last() {
            "│"@
        } else {
            " "@
        })
    }
}

/// The value of the root of a subtree as text, or a star for an empty subtree.
pub closed spec fn child_text(t: Option<Box<Node>>) -> Seq<char> {
    match t {
        None => "*"@,
        Some(n) => signed_text(n.value as int),
    }
}

/// The line that the printer writes for one node: `dir` is 0 for the root, 1 for a left
/// child and 2 for a right child.
pub closed spec fn pretty_line(n: Node, overlines: Seq<bool>, dir: u8) -> Seq<char> {
    Seq::<char>::empty() + overlines_text(overlines) + (if dir == 0 {
        "─"@
    } else if dir == 1 {
        "┌"@
    } else {
        "└"@
    }).push(
        if n.left is None && n.right is None {
            '╴'
        } else if n.right is None {
            '┘'
        } else if n.left is None {
            '┐'
        } else {
            '┤'
        },
    ) + " "@ + repeated('┄', if overlines.len() <= 4 {
        (4 - overlines.len()) as nat
    } else {
        0
    }) + " "@ + signed_text(n.value as int) + " { left: "@ + child_text(n.left) + ", right: "@
        + child_text(n.right) + ", ht: "@ + decimal_text(n.ht as nat) + ", len: "@
        + decimal_text(n.len as nat) + " }"@ + "\n"@
}

/// The lines that the printer writes for a subtree, left subtree first.
pub closed spec fn pretty_text(t: Option<Box<Node>>, overlines: Seq<bool>, dir: u8) -> Seq<char>
    decreases t,
{
    match t {
        None => Seq::empty(),
        Some(n) => pretty_text(n.left, overlines.push(dir == 2), 1) + pretty_line(
            *n,
            overlines,
            dir,
        ) + pretty_text(n.right, overlines.push(dir == 1), 2),
    }
}

fn push_overlines(s: &mut String, overlines: &Vec<bool>)
    ensures
        final(s)@ == old(s)@ + overlines_text(overlines@),
{
    let mut i: usize = 0;
    proof {
        assert(overlines@.take(0) =~= Seq::<bool>::empty());
        assert(s@ + overlines_text(Seq::<bool>::empty()) =~= s@);
    }
    while i < overlines.len()
        invariant
            i <= overlines.len(),
            s@ == old(s)@ + overlines_text(overlines@.take(i as int)),
        decreases overlines.len() - i,
    {
        if overlines[i] {
            s.append("│");
        } else {
            s.append(" ");
        }
        proof {
            assert(overlines@.take(i + 1).drop_last() =~= overlines@.take(i as int));
            assert(overlines@.take(i + 1).last() == overlines[i as int]);
            assert(s@ =~= old(s)@ + overlines_text(overlines@.take(i + 1)));
        }
        i += 1;
    }
    proof {
        assert(overlines@.take(overlines.len() as int) =~= overlines@);
    }
}

fn push_child(s: &mut String, t: &Option<Box<Node>>)
    ensures
        final(s)@ == old(s)@ + child_text(*t),
{
    match t {
        None => s.append("*"),
        Some(n) => push_signed(s, n.value),
    }
}

fn push_pretty_line(x: &Node, s: &mut String, overlines: &Vec<bool>, dir: u8)
    ensures
        final(s)@ == old(s)@ + pretty_line(*x, overlines@, dir),
{
    let mut line = String::new();
    push_overlines(&mut line, overlines);
    if dir == 0 {
        line.append("─");
    } else if dir == 1 {
        line.append("┌");
    } else {
        line.append("└");
    }
    let branch = if x.left.is_none() && x.right.is_none() {
        '╴'
    } else if x.right.is_none() {
        '┘'
    } else if x.left.is_none() {
        '┐'
    } else {
        '┤'
    };
    push_char(&mut line, branch);
    line.append(" ");
    let padding: usize = if overlines.len() <= 4 {
        4 - overlines.len()
    } else {
        0
    };
    push_repeated(&mut line, '┄', padding);
    line.append(" ");
    push_signed(&mut line, x.value);
    line.append(" { left: ");
    push_child(&mut line, &x.left);
    line.append(", right: ");
    push_child(&mut line, &x.right);
    line.append(", ht: ");
    push_decimal(&mut line, x.ht as u64);
    line.append(", len: ");
    push_decimal(&mut line, x.len as u64);
    line.append(" }");
    line.append("\n");
    assert(line@ == pretty_line(*x, overlines@, dir));
    s.append(line.as_str());
}

#[verifier::rlimit(40)]
fn pretty_recurse(x: &Node, s: &mut String, overlines: &mut Vec<bool>, dir: u8)
    ensures
        final(s)@ == old(s)@ + pretty_text(Some(Box::new(*x)), old(overlines)@, dir),
        final(overlines)@ == old(overlines)@,
    decreases *x,
{
    let ghost start = s@;
    let ghost marks = overlines@;
    let ghost tl = pretty_text(x.left, marks.push(dir == 2), 1);
    let ghost tr = pretty_text(x.right, marks.push(dir == 1), 2);
    match &x.left {
        Some(l) => {
            overlines.push(dir == 2);
            pretty_recurse(l, s, overlines, 1);
            overlines.pop();
            assert(overlines@ =~= marks);
        },
        None => {
            assert(s@ + tl =~= s@);
        },
    }
    assert(s@ == start + tl);
    push_pretty_line(x, s, overlines, dir);
    let ghost mid = s@;
    match &x.right {
        Some(r) => {
            overlines.push(dir == 1);
            pretty_recurse(r, s, overlines, 2);
            overlines.pop();
            assert(overlines@ =~= marks);
        },
        None => {
            assert(s@ + tr =~= s@);
        },
    }
    assert(s@ == mid + tr);
    proof {
        assert(pretty_text(Some(Box::new(*x)), marks, dir) == tl + pretty_line(*x, marks, dir)
            + tr);
        lemma_append3(start, tl, pretty_line(*x, marks, dir), tr);
    }
}

/// The tree as text for inspection: one line per node with the shape of the tree drawn in
/// front of it, without a line break at the end, or a note that the tree is empty.
pub fn pretty(x: &Option<Box<Node>>) -> (s: String)
    ensures
        s@ == (if *x is None {
            "(empty)"@
        } else {
            pretty_text(*x, Seq::<bool>::empty(), 0).drop_last()
        }),
{
    match x {
        Some(x) => {
            let mut s = String::new();
            let mut overlines: Vec<bool> = Vec::new();
            pretty_recurse(x, &mut s, &mut overlines, 0);
            proof {
                assert(Seq::<char>::empty() + pretty_text(Some(*x), Seq::<bool>::empty(), 0)
                    =~= pretty_text(Some(*x), Seq::<bool>::empty(), 0));
            }
            pop_char(&mut s);
            s
        },
        None => "(empty)".to_owned(),
    }
}

/// Checks the stored heights of a subtree: whether at every node the children differ in
/// height by at most one and the stored height is one more than the higher of them.
pub fn validate(x: &Option<Box<Node>>) -> (ok: bool)
    ensures
        ok == tree_heights_ok(*x),
        tree_wf(*x) ==> ok,
{
    proof {
        if tree_wf(*x) {
            lemma_wf_heights_ok(*x);
        }
    }
    match x {
        Some(x) => validate_recurse(x),
        None => true,
    }
}

fn validate_recurse(x: &Node) -> (ok: bool)
    ensures
        ok == x.heights_ok(),
    decreases *x,
{
    if !x.validate_balance() {
        return false;
    }
    let left_ok = match &x.left {
        Some(l) => validate_recurse(l),
        None => true,
    };
    if !left_ok {
        return false;
    }
    match &x.right {
        Some(r) => validate_recurse(r),
        None => true,
    }
}

impl AvlTreeByBox {
    /// Like [`insert`](Self::insert), but turns a position beyond the end down, and every
    /// position once the sequence holds as many values as a `usize` can count, and leaves
    /// the sequence as it was.
    pub fn try_insert(&mut self, index: usize, value: i32) -> (r: Result<(), TreeError>)
        requires
            old(self).wf(),
        ensures
            final(self).wf(),
            index <= old(self)@.len() < usize::MAX ==> r is Ok && final(self)@ == inserted(
                old(self)@,
                index as int,
                value,
            ),
            !(index <= old(self)@.len() < usize::MAX) ==> r == Err::<(), TreeError>(
                TreeError::IndexOutOfRange,
            ) && final(self)@ == old(self)@,
    {
        let n = self.len();
        if index > n || n == usize::MAX {
            return Err(TreeError::IndexOutOfRange);
        }
        self.insert(index, value);
        Ok(())
    }

    /// Like [`remove`](Self::remove), but turns a position that does not exist down and
    /// leaves the sequence as it was.
    pub fn try_remove(&mut self, index: usize) -> (r: Result<i32, TreeError>)
        requires
            old(self).wf(),
        ensures
            final(self).wf(),
            index < old(self)@.len() ==> r is Ok && r->Ok_0 == old(self)@[index as int]
                && final(self)@ == removed(old(self)@, index as int),
            index >= old(self)@.len() ==> r == Err::<i32, TreeError>(TreeError::IndexOutOfRange)
                && final(self)@ == old(self)@,
    {
        if index >= self.len() {
            return Err(TreeError::IndexOutOfRange);
        }
        Ok(self.remove(index))
    }
}

} // verus!
