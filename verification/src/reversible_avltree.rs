//! A height-balanced sequence with lazy range reversal, built from owned nodes
//! and a split/merge engine.

use vstd::prelude::*;
use vstd::string::StringExecFns;
use vstd::arithmetic::div_mod::{lemma_add_mod_noop, lemma_small_mod};
use crate::error::TreeError;
use crate::fp::{residue, P};
use crate::text::{
    decimal_text, lemma_append3, push_decimal, push_repeated, repeated,
};
use crate::model::{
    fp_values, higher, inserted, joined, lemma_concat_shift, lemma_cut_left, lemma_cut_middle,
    lemma_cut_right, lemma_isolate, lemma_min_nodes_limit, lemma_min_nodes_monotone,
    lemma_perfect_height_step, lemma_reverse_concat, lemma_reverse_twice, lemma_sum_concat,
    lemma_sum_reverse, lemma_sum_single, min_nodes, oriented, perfect_height, removed,
    reversed_range, seq_sum, split_at,
};

verus! {

/// The residues that the sequences hold.
type Fp = crate::fp::Fp<P>;

/// One element of the sequence together with the summary of its subtree.
///
/// The reversal tag describes what is still owed to the two children.
pub struct Node {
    left: Option<Box<Node>>,
    right: Option<Box<Node>>,
    value: Fp,
    sum: Fp,
    len: usize,
    h: u8,
    rev: bool,
}

/// The in-order values of a subtree with every pending tag resolved.
pub closed spec fn tree_elems(t: Option<Box<Node>>) -> Seq<int> {
    match t {
        None => Seq::empty(),
        Some(n) => n.elems(),
    }
}

/// The stored size of a subtree, 0 when empty.
pub closed spec fn tree_len(t: Option<Box<Node>>) -> nat {
    match t {
        None => 0,
        Some(n) => n.len as nat,
    }
}

/// The stored height of a subtree, 0 when empty.
pub closed spec fn tree_height(t: Option<Box<Node>>) -> nat {
    match t {
        None => 0,
        Some(n) => n.h as nat,
    }
}

/// The shape invariants hold at every node of the subtree.
pub closed spec fn tree_wf(t: Option<Box<Node>>) -> bool
    decreases t,
{
    match t {
        None => true,
        Some(n) => n.wf(),
    }
}

/// Size, aggregate and height of the root agree with its children.
pub closed spec fn tree_meta_ok(t: Option<Box<Node>>) -> bool {
    match t {
        None => true,
        Some(n) => n.meta_ok(),
    }
}

impl Node {
    /// The values of the subtree in order, read backwards under a pending reversal.
    #[verifier::opaque]
    pub closed spec fn elems(self) -> Seq<int>
        decreases self,
    {
        let l = match self.left {
            None => Seq::empty(),
            Some(n) => n.elems(),
        };
        let r = match self.right {
            None => Seq::empty(),
            Some(n) => n.elems(),
        };
        oriented(l + seq![self.value@] + r, self.rev)
    }

    /// The children's values around this node's value, ignoring this node's tag.
    pub closed spec fn inner(self) -> Seq<int> {
        tree_elems(self.left) + seq![self.value@] + tree_elems(self.right)
    }

    /// No tag is pending on this node.
    pub closed spec fn is_pushed(self) -> bool {
        !self.rev
    }

    /// Size, aggregate and height agree with the children.
    pub closed spec fn meta_ok(self) -> bool {
        &&& self.len == 1 + tree_len(self.left) + tree_len(self.right)
        &&& self.len == self.elems().len()
        &&& self.sum@ == residue(seq_sum(self.elems()))
        &&& self.h == 1 + if tree_height(self.left) >= tree_height(self.right) {
            tree_height(self.left)
        } else {
            tree_height(self.right)
        }
    }

    /// The heights of the two children differ by at most one.
    pub closed spec fn balanced(self) -> bool {
        -1 <= tree_height(self.left) - tree_height(self.right) <= 1
    }

    /// The shape invariants hold at this node and below.
    pub closed spec fn wf(self) -> bool
        decreases self,
    {
        &&& tree_wf(self.left)
        &&& tree_wf(self.right)
        &&& self.meta_ok()
        &&& self.balanced()
    }

    /// The node has no children.
    pub closed spec fn is_single(self) -> bool {
        self.left is None && self.right is None
    }

    /// The height of the child that is logically on the left.
    pub closed spec fn left_height(self) -> nat {
        if self.rev {
            tree_height(self.right)
        } else {
            tree_height(self.left)
        }
    }

    /// The height of the child that is logically on the right.
    pub closed spec fn right_height(self) -> nat {
        if self.rev {
            tree_height(self.left)
        } else {
            tree_height(self.right)
        }
    }

    /// The size of the child that is logically on the left.
    pub closed spec fn left_len(self) -> nat {
        if self.rev {
            tree_len(self.right)
        } else {
            tree_len(self.left)
        }
    }

    /// The size of the child that is logically on the right.
    pub closed spec fn right_len(self) -> nat {
        if self.rev {
            tree_len(self.left)
        } else {
            tree_len(self.right)
        }
    }

    /// The value stored at the node.
    pub closed spec fn spec_value(self) -> int {
        self.value@
    }
}

impl Node {
    /// The node with the reading direction of its subtree turned round.
    pub closed spec fn toggled(self) -> Node {
        Node { rev: !self.rev, ..self }
    }

    /// The node after the pending reversal has been handed down: the children change sides
    /// and are each turned round; the node itself keeps value, aggregate, size and height
    /// and has no tag left.
    pub closed spec fn pushed(self) -> Node {
        if self.rev {
            Node {
                left: tree_toggled(self.right),
                right: tree_toggled(self.left),
                rev: false,
                ..self
            }
        } else {
            self
        }
    }

    /// What turning round does to the fields of a node, and what handing the reversal down
    /// does to a node and its children.
    pub proof fn lemma_pushed(self)
        ensures
            self.toggled().spec_rev() == !self.spec_rev(),
            self.toggled().spec_value() == self.spec_value(),
            self.toggled().spec_sum() == self.spec_sum(),
            self.toggled().spec_left() == self.spec_left(),
            self.toggled().spec_right() == self.spec_right(),
            self.pushed().spec_rev() == false,
            self.pushed().spec_value() == self.spec_value(),
            self.pushed().spec_sum() == self.spec_sum(),
            self.spec_rev() ==> self.pushed().spec_left() == tree_toggled(self.spec_right())
                && self.pushed().spec_right() == tree_toggled(self.spec_left()),
            !self.spec_rev() ==> self.pushed() == self,
    {
    }
}

/// The subtree with its root turned round; the empty subtree stays empty.
pub closed spec fn tree_toggled(t: Option<Box<Node>>) -> Option<Box<Node>> {
    match t {
        None => None,
        Some(n) => Some(Box::new(n.toggled())),
    }
}

impl Node {
    /// The node with the given children and every other field as it is.
    pub closed spec fn with_children(self, l: Option<Box<Node>>, r: Option<Box<Node>>) -> Node {
        Node { left: l, right: r, ..self }
    }

    /// The node with its size, aggregate and height recomputed from its children.
    pub closed spec fn updated(self) -> Node {
        let with_left = match self.left {
            Some(l) => self.value.spec_add(l.sum),
            None => self.value,
        };
        let with_both = match self.right {
            Some(r) => with_left.spec_add(r.sum),
            None => with_left,
        };
        Node {
            len: (1 + tree_len(self.left) + tree_len(self.right)) as usize,
            sum: with_both,
            h: (1 + higher(tree_height(self.left), tree_height(self.right))) as u8,
            ..self
        }
    }

    /// The node over the given children, with size, aggregate and height computed from them.
    pub closed spec fn over(self, l: Option<Box<Node>>, r: Option<Box<Node>>) -> Node {
        self.with_children(l, r).updated()
    }

    /// The node `over` gives holds the value and the tags of the node and the given
    /// children; its size is one more than their sizes and its height one more than the
    /// higher of theirs, as far as these fit.
    pub proof fn lemma_over(self, l: Option<Box<Node>>, r: Option<Box<Node>>)
        ensures
            self.over(l, r).spec_left() == l,
            self.over(l, r).spec_right() == r,
            self.over(l, r).spec_value() == self.spec_value(),
            self.over(l, r).spec_rev() == self.spec_rev(),
            self.with_children(l, r).spec_left() == l,
            self.with_children(l, r).spec_right() == r,
            self.with_children(l, r).spec_value() == self.spec_value(),
            self.with_children(l, r).spec_rev() == self.spec_rev(),
            self.with_children(l, r).spec_sum() == self.spec_sum(),
            self.updated() == self.over(self.spec_left(), self.spec_right()),
            tree_len(l) + tree_len(r) < usize::MAX ==> tree_len(Some(Box::new(self.over(l, r))))
                == 1 + tree_len(l) + tree_len(r),
            higher(tree_height(l), tree_height(r)) < 255 ==> tree_height(
                Some(Box::new(self.over(l, r))),
            ) == 1 + higher(tree_height(l), tree_height(r)),
    {
    }
}

/// The subtree after its right child has been lifted above its root, the tags of both
/// handed down first.
#[verifier::opaque]
pub closed spec fn rotated_left(x: Node) -> Node {
    let x1 = x.pushed();
    match x1.right {
        Some(y0) => {
            let y = y0.pushed();
            y.over(Some(Box::new(x1.over(x1.left, y.left))), y.right)
        },
        None => x,
    }
}

/// The subtree after its left child has been lifted above its root, the tags of both
/// handed down first.
#[verifier::opaque]
pub closed spec fn rotated_right(x: Node) -> Node {
    let x1 = x.pushed();
    match x1.left {
        Some(y0) => {
            let y = y0.pushed();
            y.over(y.left, Some(Box::new(x1.over(y.right, x1.right))))
        },
        None => x,
    }
}

/// The subtree after the balance rule has acted on its root: where the children differ in
/// height by two, the higher child is lifted above the root, after the inner grandchild
/// has been lifted above that child where it is the higher one; otherwise the root is
/// only recomputed.
#[verifier::opaque]
pub closed spec fn rebalanced(x: Node) -> Node {
    let hl = tree_height(x.left);
    let hr = tree_height(x.right);
    if hr == hl + 2 {
        match x.right {
            Some(r) => {
                let r2 = if tree_height(r.left) > tree_height(r.right) {
                    rotated_right(r.pushed())
                } else {
                    *r
                };
                rotated_left(x.with_children(x.left, Some(Box::new(r2))))
            },
            None => x,
        }
    } else if hl == hr + 2 {
        match x.left {
            Some(l) => {
                let l2 = if tree_height(l.left) < tree_height(l.right) {
                    rotated_left(l.pushed())
                } else {
                    *l
                };
                rotated_right(x.with_children(Some(Box::new(l2)), x.right))
            },
            None => x,
        }
    } else {
        x.updated()
    }
}

/// The tree that joining `l`, the node `c` and `r` gives: with equal heights `c` over `l`
/// and `r`; otherwise the root of the higher side hands its tags down and stays, with the
/// join of the rest in the place of its inner child, and is rebalanced. The inner child of
/// a tree that meets the invariants is lower than the tree; where it is not, nothing is
/// joined and the result is `c`.
#[verifier::opaque]
pub closed spec fn merged3(l: Option<Box<Node>>, c: Node, r: Option<Box<Node>>) -> Node
    decreases tree_height(l) + tree_height(r),
{
    if tree_height(l) < tree_height(r) {
        match r {
            Some(r0) => {
                let rn = r0.pushed();
                if tree_height(rn.left) < tree_height(r) {
                    rebalanced(rn.with_children(Some(Box::new(merged3(l, c, rn.left))), rn.right))
                } else {
                    c
                }
            },
            None => c,
        }
    } else if tree_height(l) > tree_height(r) {
        match l {
            Some(l0) => {
                let ln = l0.pushed();
                if tree_height(ln.right) < tree_height(l) {
                    rebalanced(ln.with_children(ln.left, Some(Box::new(merged3(ln.right, c, r)))))
                } else {
                    c
                }
            },
            None => c,
        }
    } else {
        c.over(l, r)
    }
}

/// The tree that the midpoint construction builds from `values[lo..hi]`: empty for an empty
/// range, otherwise the value in the middle, with no tag, over the trees of the two halves.
#[verifier::opaque]
pub closed spec fn built(values: Seq<Fp>, lo: int, hi: int) -> Option<Box<Node>>
    decreases hi - lo,
{
    if lo >= hi {
        None
    } else {
        let mid = lo + (hi - lo) / 2;
        Some(
            Box::new(
                (Node {
                    left: None,
                    right: None,
                    value: values[mid],
                    sum: values[mid],
                    len: 1,
                    h: 0,
                    rev: false,
                }).over(built(values, lo, mid), built(values, mid + 1, hi)),
            ),
        )
    }
}

/// The root of the tree built from a range that is not empty holds the value in the middle
/// of the range, over the trees built from the two halves.
pub proof fn lemma_built(values: Seq<Fp>, lo: int, hi: int)
    ensures
        lo >= hi ==> built(values, lo, hi) is None,
        lo < hi ==> built(values, lo, hi) is Some && built(values, lo, hi).unwrap().spec_value()
            == values[lo + (hi - lo) / 2]@ && built(values, lo, hi).unwrap().spec_left() == built(
            values,
            lo,
            lo + (hi - lo) / 2,
        ) && built(values, lo, hi).unwrap().spec_right() == built(
            values,
            lo + (hi - lo) / 2 + 1,
            hi,
        ) && !built(values, lo, hi).unwrap().spec_rev(),
{
    reveal(built);
}

/// Lifting a child above the root hands the tags of both down and gives the child over
/// what is left of the root and the child's outer subtree.
pub proof fn lemma_rotated(x: Node)
    ensures
        x.pushed().spec_right() matches Some(y) ==> rotated_left(x) == y.pushed().over(
            Some(Box::new(x.pushed().over(x.pushed().spec_left(), y.pushed().spec_left()))),
            y.pushed().spec_right(),
        ),
        x.pushed().spec_left() matches Some(y) ==> rotated_right(x) == y.pushed().over(
            y.pushed().spec_left(),
            Some(Box::new(x.pushed().over(y.pushed().spec_right(), x.pushed().spec_right()))),
        ),
{
    reveal(rotated_left);
    reveal(rotated_right);
}

/// What the balance rule does, case by case.
pub proof fn lemma_rebalanced(x: Node)
    ensures
        tree_height(x.spec_left()) != tree_height(x.spec_right()) + 2 && tree_height(
            x.spec_right(),
        ) != tree_height(x.spec_left()) + 2 ==> rebalanced(x) == x.updated(),
        tree_height(x.spec_right()) == tree_height(x.spec_left()) + 2 ==> (x.spec_right() matches Some(
            r,
        ) ==> rebalanced(x) == rotated_left(
            x.with_children(
                x.spec_left(),
                Some(
                    Box::new(
                        if tree_height(r.spec_left()) > tree_height(r.spec_right()) {
                            rotated_right(r.pushed())
                        } else {
                            *r
                        },
                    ),
                ),
            ),
        )),
        tree_height(x.spec_left()) == tree_height(x.spec_right()) + 2 ==> (x.spec_left() matches Some(
            l,
        ) ==> rebalanced(x) == rotated_right(
            x.with_children(
                Some(
                    Box::new(
                        if tree_height(l.spec_left()) < tree_height(l.spec_right()) {
                            rotated_left(l.pushed())
                        } else {
                            *l
                        },
                    ),
                ),
                x.spec_right(),
            ),
        )),
{
    reveal(rebalanced);
}

/// Where the centre is hung in a join of trees that meet the invariants, case by case.
pub proof fn lemma_merged3(l: Option<Box<Node>>, c: Node, r: Option<Box<Node>>)
    requires
        tree_wf(l),
        tree_wf(r),
    ensures
        tree_height(l) == tree_height(r) ==> merged3(l, c, r) == c.over(l, r),
        tree_height(l) < tree_height(r) ==> (r matches Some(rn) ==> merged3(l, c, r)
            == rebalanced(
            rn.pushed().with_children(
                Some(Box::new(merged3(l, c, rn.pushed().spec_left()))),
                rn.pushed().spec_right(),
            ),
        )),
        tree_height(l) > tree_height(r) ==> (l matches Some(ln) ==> merged3(l, c, r)
            == rebalanced(
            ln.pushed().with_children(
                ln.pushed().spec_left(),
                Some(Box::new(merged3(ln.pushed().spec_right(), c, r))),
            ),
        )),
{
    reveal(merged3);
    lemma_tree_len(l);
    lemma_tree_len(r);
    match r {
        Some(rn) => {
            lemma_pushed_heights(*rn);
        },
        None => {},
    }
    match l {
        Some(ln) => {
            lemma_pushed_heights(*ln);
        },
        None => {},
    }
}

/// Handing the tags down leaves both children of a node that meets the invariants lower
/// than the node.
proof fn lemma_pushed_heights(n: Node)
    requires
        n.wf(),
    ensures
        tree_height(n.pushed().left) < n.h,
        tree_height(n.pushed().right) < n.h,
{
}

/// The node that holds `value`, with no tag and nothing below it.
pub closed spec fn single(value: Fp) -> Node {
    Node { left: None, right: None, value, sum: value, len: 1, h: 1, rev: false }
}

/// The three parts that cutting the subtree at `index` gives: the cut goes down to the node
/// at `index`, handing down the tags of every node that it passes; the node at `index` comes
/// out alone, and on the way back every node passed joins what is left of the side that
/// the cut went into with its other child. A child of a node that meets the invariants is
/// lower than the node; where it is not, the cut stops.
#[verifier::opaque]
pub closed spec fn split3_parts(x: Node, index: nat) -> (
    Option<Box<Node>>,
    Node,
    Option<Box<Node>>,
)
    decreases tree_height(Some(Box::new(x))),
{
    let x1 = x.pushed();
    let c = x1.with_children(None, None);
    let llen = tree_len(x1.left);
    if index < llen {
        match x1.left {
            Some(l) if l.h < x.h => {
                let p = split3_parts(*l, index);
                (p.0, p.1, Some(Box::new(merged3(p.2, c, x1.right))))
            },
            _ => (x1.left, c.updated(), x1.right),
        }
    } else if index == llen {
        (x1.left, c.updated(), x1.right)
    } else {
        match x1.right {
            Some(r) if r.h < x.h => {
                let p = split3_parts(*r, (index - llen - 1) as nat);
                (Some(Box::new(merged3(x1.left, c, p.0))), p.1, p.2)
            },
            _ => (x1.left, c.updated(), x1.right),
        }
    }
}

/// The tree that joining `l` and `r` gives: `l` itself where `r` is empty, otherwise the
/// join of `l`, the first node of `r` and the rest of `r`.
#[verifier::opaque]
pub closed spec fn merged2(l: Option<Box<Node>>, r: Option<Box<Node>>) -> Option<Box<Node>> {
    match r {
        None => l,
        Some(rn) => {
            let p = split3_parts(*rn, 0);
            Some(Box::new(merged3(l, p.1, p.2)))
        },
    }
}

/// The two parts that cutting the tree before `index` gives: nothing and the whole tree
/// where `index` is 0, otherwise what lies before the node at `index - 1` joined with that
/// node, and what lies after it.
#[verifier::opaque]
pub closed spec fn split2_parts(x: Option<Box<Node>>, index: nat) -> (
    Option<Box<Node>>,
    Option<Box<Node>>,
) {
    match x {
        Some(n) if index != 0 => {
            let p = split3_parts(*n, (index - 1) as nat);
            (Some(Box::new(merged3(p.0, p.1, None))), p.2)
        },
        _ => (None, x),
    }
}

/// The single node holds its value, has no children and no tag, and is its own aggregate.
pub proof fn lemma_single(value: Fp)
    ensures
        single(value).spec_value() == value@,
        single(value).spec_sum() == value@,
        single(value).is_single(),
        !single(value).spec_rev(),
        tree_len(Some(Box::new(single(value)))) == 1,
{
}

/// What cutting and joining give on trees that meet the invariants, case by case.
pub proof fn lemma_parts(x: Node, l: Option<Box<Node>>, r: Option<Box<Node>>, index: nat)
    requires
        x.wf(),
    ensures
        index == tree_len(x.pushed().spec_left()) ==> split3_parts(x, index) == (
            x.pushed().spec_left(),
            x.pushed().over(None, None),
            x.pushed().spec_right(),
        ),
        index < tree_len(x.pushed().spec_left()) ==> (x.pushed().spec_left() matches Some(n)
            ==> split3_parts(x, index) == (
            split3_parts(*n, index).0,
            split3_parts(*n, index).1,
            Some(
                Box::new(
                    merged3(
                        split3_parts(*n, index).2,
                        x.pushed().with_children(None, None),
                        x.pushed().spec_right(),
                    ),
                ),
            ),
        )),
        index > tree_len(x.pushed().spec_left()) ==> (x.pushed().spec_right() matches Some(n)
            ==> split3_parts(x, index) == (
            Some(
                Box::new(
                    merged3(
                        x.pushed().spec_left(),
                        x.pushed().with_children(None, None),
                        split3_parts(*n, (index - tree_len(x.pushed().spec_left()) - 1) as nat).0,
                    ),
                ),
            ),
            split3_parts(*n, (index - tree_len(x.pushed().spec_left()) - 1) as nat).1,
            split3_parts(*n, (index - tree_len(x.pushed().spec_left()) - 1) as nat).2,
        )),
        r is None ==> merged2(l, r) == l,
        r matches Some(n) ==> merged2(l, r) == Some(
            Box::new(merged3(l, split3_parts(*n, 0).1, split3_parts(*n, 0).2)),
        ),
        index == 0 || l is None ==> split2_parts(l, index) == (None::<Box<Node>>, l),
        index != 0 ==> (l matches Some(n) ==> split2_parts(l, index) == (
            Some(
                Box::new(
                    merged3(
                        split3_parts(*n, (index - 1) as nat).0,
                        split3_parts(*n, (index - 1) as nat).1,
                        None,
                    ),
                ),
            ),
            split3_parts(*n, (index - 1) as nat).2,
        )),
{
    reveal(split3_parts);
    reveal(merged2);
    reveal(split2_parts);
    lemma_pushed_heights(x);
}

/// The number of nodes on the longest way down through the subtree, 0 when empty.
pub open spec fn tree_depth(t: Option<Box<Node>>) -> nat
    decreases t,
{
    match t {
        None => 0,
        Some(n) => 1 + higher(tree_depth(n.spec_left()), tree_depth(n.spec_right())),
    }
}

/// The stored height of a tree that meets the invariants is the number of nodes on its
/// longest way down.
pub proof fn lemma_height_is_depth(t: Option<Box<Node>>)
    requires
        tree_wf(t),
    ensures
        tree_height(t) == tree_depth(t),
    decreases t,
{
    match t {
        None => {},
        Some(n) => {
            lemma_height_is_depth(n.left);
            lemma_height_is_depth(n.right);
        },
    }
}

/// The empty tree meets the invariants and holds nothing, the stored size of a tree that
/// meets the invariants is the number of its values, and a tree that is not empty meets
/// the invariants exactly when its root does.
pub proof fn lemma_tree_size(t: Option<Box<Node>>)
    ensures
        tree_wf(None::<Box<Node>>),
        tree_elems(None::<Box<Node>>) == Seq::<int>::empty(),
        tree_len(None::<Box<Node>>) == 0,
        tree_len(t) <= usize::MAX,
        tree_height(None::<Box<Node>>) == 0,
        tree_wf(t) ==> tree_len(t) == tree_elems(t).len(),
        t matches Some(n) ==> tree_wf(t) == n.wf(),
{
    if tree_wf(t) {
        lemma_tree_len(t);
    }
}

proof fn lemma_tree_len(t: Option<Box<Node>>)
    requires
        tree_wf(t),
    ensures
        tree_elems(t).len() == tree_len(t),
        (t is None) == (tree_height(t) == 0),
        tree_meta_ok(t),
{
}

/// A pushed node lists its children's values around its own.
proof fn lemma_pushed_elems(n: Node)
    requires
        n.is_pushed(),
    ensures
        n.elems() == n.inner(),
{
    reveal(Node::elems);
}

/// A balanced subtree of stored height `h` holds at least `min_nodes(h)` nodes.
proof fn lemma_tree_min_nodes(t: Option<Box<Node>>)
    requires
        tree_wf(t),
    ensures
        tree_len(t) >= min_nodes(tree_height(t)),
    decreases t,
{
    match t {
        None => {},
        Some(n) => {
            lemma_tree_min_nodes(n.left);
            lemma_tree_min_nodes(n.right);
            let hl = tree_height(n.left);
            let hr = tree_height(n.right);
            let h = n.h as nat;
            if h >= 2 {
                if hl >= hr {
                    lemma_min_nodes_monotone((h - 2) as nat, hr);
                } else {
                    lemma_min_nodes_monotone((h - 2) as nat, hl);
                }
            }
        },
    }
}

/// A subtree of stored height `h` that meets the shape invariants holds fewer than `2^h`
/// nodes, and none exactly when its height is 0.
pub proof fn lemma_tree_max_nodes(t: Option<Box<Node>>)
    requires
        tree_wf(t),
    ensures
        tree_len(t) + 1 <= vstd::arithmetic::power2::pow2(tree_height(t)),
        (tree_height(t) == 0) == (tree_len(t) == 0),
    decreases t,
{
    vstd::arithmetic::power2::lemma2_to64();
    match t {
        None => {},
        Some(n) => {
            lemma_tree_max_nodes(n.left);
            lemma_tree_max_nodes(n.right);
            let h = n.h as nat;
            let hl = tree_height(n.left);
            let hr = tree_height(n.right);
            vstd::arithmetic::power2::lemma_pow2_unfold(h);
            if hl < h - 1 {
                vstd::arithmetic::power2::lemma_pow2_strictly_increases(hl, (h - 1) as nat);
            }
            if hr < h - 1 {
                vstd::arithmetic::power2::lemma_pow2_strictly_increases(hr, (h - 1) as nat);
            }
        },
    }
}

/// A balanced subtree whose size fits in `usize` has height at most 127.
proof fn lemma_tree_height_bound(t: Option<Box<Node>>)
    requires
        tree_wf(t),
    ensures
        tree_height(t) <= 127,
{
    if tree_height(t) >= 128 {
        lemma_tree_min_nodes(t);
        lemma_min_nodes_limit(tree_height(t));
        assert(tree_len(t) <= usize::MAX);
        assert(usize::MAX <= u64::MAX);
    }
}

fn ht(x: &Option<Box<Node>>) -> (h: u8)
    ensures
        h == tree_height(*x),
{
    match x {
        None => 0,
        Some(n) => n.h,
    }
}

fn size(x: &Option<Box<Node>>) -> (n: usize)
    ensures
        n == tree_len(*x),
{
    match x {
        None => 0,
        Some(n) => n.len,
    }
}


impl Node {
    /// A detached leaf holding `value`.
    fn leaf(value: Fp) -> (c: Box<Node>)
        ensures
            c.is_single(),
            c.is_pushed(),
            c.wf(),
            c.value@ == value@,
            c.elems() == seq![value@],
            *c == single(value),
    {
        let c = Box::new(
            Node {
                left: None,
                right: None,
                value,
                sum: value,
                len: 1,
                h: 1,
                rev: false,
            },
        );
        proof {
            lemma_pushed_elems(*c);
            assert(c.inner() =~= seq![value@]);
            lemma_sum_single(value@);
            value.lemma_in_range();
            lemma_small_mod(value@ as nat, P as nat);
        }
        c
    }

    /// Recomputes size, aggregate and height from the children.
    fn update(&mut self)
        requires
            old(self).is_pushed(),
            tree_wf(old(self).left),
            tree_wf(old(self).right),
            tree_len(old(self).left) + tree_len(old(self).right) < usize::MAX,
        ensures
            final(self).left == old(self).left,
            final(self).right == old(self).right,
            final(self).value == old(self).value,
            final(self).is_pushed(),
            final(self).meta_ok(),
            final(self).elems() == old(self).inner(),
            *final(self) == old(self).updated(),
    {
        proof {
            lemma_tree_height_bound(self.left);
            lemma_tree_height_bound(self.right);
            lemma_tree_len(self.left);
            lemma_tree_len(self.right);
        }
        self.len = 1;
        self.sum = self.value;
        self.h = 1;
        match self.left.as_ref() {
            Some(l) => {
                self.len += l.len;
                self.sum = self.sum.add(l.sum);
                if l.h + 1 > self.h {
                    self.h = l.h + 1;
                }
            },
            None => {},
        }
        match self.right.as_ref() {
            Some(r) => {
                self.len += r.len;
                self.sum = self.sum.add(r.sum);
                if r.h + 1 > self.h {
                    self.h = r.h + 1;
                }
            },
            None => {},
        }
        proof {
            let l = tree_elems(self.left);
            let r = tree_elems(self.right);
            let v = self.value@;
            lemma_pushed_elems(*self);
            lemma_sum_concat(l + seq![v], r);
            lemma_sum_concat(l, seq![v]);
            lemma_sum_single(v);
            let m = P as int;
            lemma_add_mod_noop(v, seq_sum(l), m);
            lemma_add_mod_noop(v + seq_sum(l), seq_sum(r), m);
            self.value.lemma_in_range();
            lemma_small_mod(v as nat, P as nat);
            assert(seq_sum(Seq::<int>::empty()) == 0);
            lemma_small_mod(0, P as nat);
        }
    }

    /// Records that the whole subtree is to be read backwards.
    fn toggle(&mut self)
        requires
            old(self).meta_ok(),
        ensures
            *final(self) == old(self).toggled(),
            final(self).meta_ok(),
            old(self).wf() ==> final(self).wf(),
            final(self).elems() == old(self).elems().reverse(),
            final(self).h == old(self).h,
            final(self).len == old(self).len,
            final(self).rev == !old(self).rev,
            final(self).left_height() == old(self).right_height(),
            final(self).right_height() == old(self).left_height(),
            final(self).left_len() == old(self).right_len(),
            final(self).right_len() == old(self).left_len(),
    {
        self.rev = !self.rev;
        proof {
            reveal(Node::elems);
            lemma_sum_reverse(old(self).elems());
            lemma_reverse_twice(tree_elems(self.left) + seq![self.value@] + tree_elems(self.right));
        }
    }
}

fn tree_toggle(t: &mut Option<Box<Node>>)
    requires
        tree_meta_ok(*old(t)),
    ensures
        *final(t) == tree_toggled(*old(t)),
        tree_meta_ok(*final(t)),
        tree_wf(*old(t)) ==> tree_wf(*final(t)),
        tree_elems(*final(t)) == tree_elems(*old(t)).reverse(),
        tree_height(*final(t)) == tree_height(*old(t)),
        tree_len(*final(t)) == tree_len(*old(t)),
{
    match t.as_mut() {
        Some(n) => {
            n.toggle();
        },
        None => {
            assert(Seq::<int>::empty().reverse() =~= Seq::<int>::empty());
        },
    }
}

impl Node {
    /// Hands the pending reversal down to the children.
    #[verifier::rlimit(40)]
    fn push(&mut self)
        requires
            tree_meta_ok(old(self).left),
            tree_meta_ok(old(self).right),
        ensures
            *final(self) == old(self).pushed(),
            final(self).is_pushed(),
            tree_meta_ok(final(self).left),
            tree_meta_ok(final(self).right),
            tree_wf(old(self).left) && tree_wf(old(self).right) ==> tree_wf(final(self).left)
                && tree_wf(final(self).right),
            final(self).inner() == old(self).elems(),
            final(self).elems() == old(self).elems(),
            final(self).value == old(self).value,
            final(self).sum == old(self).sum,
            final(self).len == old(self).len,
            final(self).h == old(self).h,
            tree_height(final(self).left) == old(self).left_height(),
            tree_height(final(self).right) == old(self).right_height(),
            tree_len(final(self).left) == old(self).left_len(),
            tree_len(final(self).right) == old(self).right_len(),
            old(self).is_pushed() ==> final(self).left == old(self).left && final(self).right
                == old(self).right,
            old(self).meta_ok() ==> final(self).meta_ok(),
    {
        proof {
            reveal(Node::elems);
        }
        let ghost l0 = tree_elems(self.left);
        let ghost r0 = tree_elems(self.right);
        let ghost v = self.value@;
        if self.rev {
            self.rev = false;
            std::mem::swap(&mut self.left, &mut self.right);
            tree_toggle(&mut self.left);
            tree_toggle(&mut self.right);
            proof {
                lemma_reverse_concat(l0 + seq![v], r0);
                lemma_reverse_concat(l0, seq![v]);
                assert(seq![v].reverse() =~= seq![v]);
                assert(old(self).elems() =~= tree_elems(self.left) + seq![v] + tree_elems(
                    self.right,
                ));
            }
        }
        proof {
            lemma_pushed_elems(*self);
        }
    }
}

/// Makes the right child the root of the subtree, keeping the order of the values.
#[verifier::rlimit(40)]
fn rotate_left(mut x: Box<Node>) -> (z: Box<Node>)
    requires
        x.is_pushed(),
        tree_wf(x.left),
        x.right is Some,
        x.right.unwrap().meta_ok(),
        tree_wf(x.right.unwrap().left),
        tree_wf(x.right.unwrap().right),
        -1 <= tree_height(x.left) - x.right.unwrap().left_height() <= 1,
        tree_len(x.left) + tree_len(x.right) < usize::MAX,
    ensures
        z.is_pushed(),
        z.meta_ok(),
        z.elems() == x.inner(),
        tree_wf(z.left),
        tree_wf(z.right),
        tree_height(z.left) == 1 + higher(tree_height(x.left), x.right.unwrap().left_height()),
        tree_height(z.right) == x.right.unwrap().right_height(),
        *z == rotated_left(*x),
{
    let ghost x0 = *x;
    proof {
        reveal(rotated_left);
    }
    x.push();
    let mut y = x.right.take().unwrap();
    y.push();
    x.right = y.left.take();
    x.update();
    y.left = Some(x);
    proof {
        lemma_tree_len(y.left);
        lemma_tree_len(y.right);
    }
    y.update();
    proof {
        assert(y.elems() =~= x0.inner());
    }
    y
}

/// Makes the left child the root of the subtree, keeping the order of the values.
#[verifier::rlimit(40)]
fn rotate_right(mut x: Box<Node>) -> (z: Box<Node>)
    requires
        x.is_pushed(),
        tree_wf(x.right),
        x.left is Some,
        x.left.unwrap().meta_ok(),
        tree_wf(x.left.unwrap().left),
        tree_wf(x.left.unwrap().right),
        -1 <= x.left.unwrap().right_height() - tree_height(x.right) <= 1,
        tree_len(x.left) + tree_len(x.right) < usize::MAX,
    ensures
        z.is_pushed(),
        z.meta_ok(),
        z.elems() == x.inner(),
        tree_wf(z.left),
        tree_wf(z.right),
        tree_height(z.left) == x.left.unwrap().left_height(),
        tree_height(z.right) == 1 + higher(x.left.unwrap().right_height(), tree_height(x.right)),
        *z == rotated_right(*x),
{
    let ghost x0 = *x;
    proof {
        reveal(rotated_right);
    }
    x.push();
    let mut y = x.left.take().unwrap();
    y.push();
    x.left = y.right.take();
    x.update();
    y.right = Some(x);
    proof {
        lemma_tree_len(y.left);
        lemma_tree_len(y.right);
    }
    y.update();
    proof {
        assert(y.elems() =~= x0.inner());
    }
    y
}

/// Restores the height balance at `x` when its children differ by at most two.
#[verifier::rlimit(40)]
fn balance(mut x: Box<Node>) -> (z: Box<Node>)
    requires
        x.is_pushed(),
        tree_wf(x.left),
        tree_wf(x.right),
        -2 <= tree_height(x.left) - tree_height(x.right) <= 2,
        tree_height(x.left) - tree_height(x.right) == 2 ==> !x.left.unwrap().rev,
        tree_height(x.left) - tree_height(x.right) == -2 ==> !x.right.unwrap().rev,
        tree_len(x.left) + tree_len(x.right) < usize::MAX,
    ensures
        z.wf(),
        z.is_pushed(),
        z.elems() == x.inner(),
        higher(tree_height(x.left), tree_height(x.right)) <= z.h <= higher(
            tree_height(x.left),
            tree_height(x.right),
        ) + 1,
        -1 <= tree_height(x.left) - tree_height(x.right) <= 1 ==> z.h == 1 + higher(
            tree_height(x.left),
            tree_height(x.right),
        ),
        -1 <= tree_height(x.left) - tree_height(x.right) <= 1 ==> z.left == x.left && z.right
            == x.right && z.value == x.value,
        *z == rebalanced(*x),
{
    proof {
        reveal(rebalanced);
        lemma_tree_height_bound(x.left);
        lemma_tree_height_bound(x.right);
        lemma_tree_len(x.left);
        lemma_tree_len(x.right);
    }
    let ghost x0 = *x;
    let hl = ht(&x.left);
    let hr = ht(&x.right);
    if hr == hl + 2 {
        let mut r = x.right.take().unwrap();
        let ghost r0 = *r;
        proof {
            lemma_tree_len(r.left);
            lemma_tree_len(r.right);
        }
        if ht(&r.left) > ht(&r.right) {
            r.push();
            r = rotate_right(r);
        }
        assert(r.elems() == r0.elems());
        x.right = Some(r);
        assert(x.inner() == x0.inner());
        x = rotate_left(x);
    } else if hl == hr + 2 {
        let mut l = x.left.take().unwrap();
        let ghost l0 = *l;
        proof {
            lemma_tree_len(l.left);
            lemma_tree_len(l.right);
        }
        if ht(&l.left) < ht(&l.right) {
            l.push();
            l = rotate_left(l);
        }
        assert(l.elems() == l0.elems());
        x.left = Some(l);
        assert(x.inner() == x0.inner());
        x = rotate_right(x);
    } else {
        x.update();
    }
    x
}

/// Joins `l`, the single node `c` and `r` into one balanced tree, in that order.
#[verifier::rlimit(100)]
pub fn merge3(l: Option<Box<Node>>, mut c: Box<Node>, r: Option<Box<Node>>) -> (z: Box<Node>)
    requires
        tree_wf(l),
        tree_wf(r),
        c.is_single(),
        c.is_pushed(),
        tree_len(l) + tree_len(r) < usize::MAX,
    ensures
        z.wf(),
        z.is_pushed(),
        z.elems() == tree_elems(l) + seq![c.spec_value()] + tree_elems(r),
        tree_len(Some(z)) == tree_len(l) + 1 + tree_len(r),
        tree_height(l) == tree_height(r) ==> z.spec_left() == l && z.spec_right() == r
            && z.spec_value() == c.spec_value(),
        higher(tree_height(l), tree_height(r)) <= tree_height(Some(z)) <= higher(
            tree_height(l),
            tree_height(r),
        ) + 1,
        *z == merged3(l, *c, r),
    decreases tree_height(l) + tree_height(r),
{
    let hl = ht(&l);
    let hr = ht(&r);
    proof {
        lemma_merged3(l, *c, r);
        lemma_tree_len(l);
        lemma_tree_len(r);
    }
    if hl < hr {
        let mut r = r.unwrap();
        let ghost r0 = *r;
        proof {
            lemma_tree_len(r.left);
            lemma_tree_len(r.right);
        }
        r.push();
        let rl = r.left.take();
        let t = merge3(l, c, rl);
        r.left = Some(t);
        proof {
            lemma_concat_shift(tree_elems(l), c.spec_value(), tree_elems(r0.left), r0.spec_value(), tree_elems(r0.right));
        }
        balance(r)
    } else if hl == hr {
        c.left = l;
        c.right = r;
        c.update();
        c
    } else {
        let mut l = l.unwrap();
        let ghost l0 = *l;
        proof {
            lemma_tree_len(l.left);
            lemma_tree_len(l.right);
        }
        l.push();
        let lr = l.right.take();
        let t = merge3(lr, c, r);
        l.right = Some(t);
        proof {
            lemma_concat_shift(tree_elems(l0.left), l0.spec_value(), tree_elems(l0.right), c.spec_value(), tree_elems(r));
        }
        balance(l)
    }
}

/// Splits off the node at `index`, returning what lies before it, the node, and what lies after.
#[verifier::rlimit(40)]
pub fn split3(mut x: Box<Node>, index: usize) -> (res: (
    Option<Box<Node>>,
    Box<Node>,
    Option<Box<Node>>,
))
    requires
        x.wf(),
        index < x.elems().len(),
    ensures
        tree_wf(res.0),
        tree_wf(res.2),
        res.1.wf(),
        res.1.is_single(),
        res.1.is_pushed(),
        res.1.spec_value() == x.elems()[index as int],
        tree_elems(res.0) == x.elems().subrange(0, index as int),
        tree_elems(res.2) == x.elems().subrange(index + 1, x.elems().len() as int),
        tree_len(res.0) == index,
        tree_len(res.0) + 1 + tree_len(res.2) == x.elems().len(),
        tree_len(res.0) + tree_len(res.2) < usize::MAX,
        (res.0, *res.1, res.2) == split3_parts(*x, index as nat),
    decreases tree_height(Some(x)),
{
    proof {
        reveal(split3_parts);
        lemma_pushed_heights(*x);
        lemma_tree_len(x.left);
        lemma_tree_len(x.right);
    }
    x.push();
    proof {
        lemma_tree_len(x.left);
        lemma_tree_len(x.right);
    }
    let ghost el = tree_elems(x.left);
    let ghost er = tree_elems(x.right);
    let ghost v = x.spec_value();
    let llen = size(&x.left);
    let l = x.left.take();
    let r = x.right.take();
    if index < llen {
        let (ll, lc, lr) = split3(l.unwrap(), index);
        proof {
            lemma_cut_left(el, v, er, index as int);
            lemma_tree_len(ll);
            lemma_tree_len(lr);
        }
        let z = merge3(lr, x, r);
        (ll, lc, Some(z))
    } else if index == llen {
        x.update();
        proof {
            lemma_cut_middle(el, v, er);
        }
        (l, x, r)
    } else {
        let (rl, rc, rr) = split3(r.unwrap(), index - 1 - llen);
        proof {
            lemma_cut_right(el, v, er, index as int);
            lemma_tree_len(rl);
            lemma_tree_len(rr);
        }
        let z = merge3(l, x, rl);
        (Some(z), rc, rr)
    }
}

/// Concatenates two balanced trees.
pub fn merge2(l: Option<Box<Node>>, r: Option<Box<Node>>) -> (z: Option<Box<Node>>)
    requires
        tree_wf(l),
        tree_wf(r),
        tree_len(l) + tree_len(r) <= usize::MAX,
    ensures
        tree_wf(z),
        tree_elems(z) == joined((tree_elems(l), tree_elems(r))),
        tree_len(z) == tree_len(l) + tree_len(r),
        r is None ==> z == l,
        z == merged2(l, r),
{
    proof {
        reveal(merged2);
        lemma_tree_len(l);
        lemma_tree_len(r);
    }
    match r {
        None => {
            assert(tree_elems(l) + tree_elems(r) =~= tree_elems(l));
            l
        },
        Some(r) => {
            let ghost e = r.elems();
            let (_, c, r) = split3(r, 0);
            proof {
                lemma_tree_len(r);
            }
            let z = merge3(l, c, r);
            proof {
                assert(z.elems() =~= tree_elems(l) + e);
            }
            Some(z)
        },
    }
}

/// Splits a balanced tree into its first `index` values and the rest.
pub fn split2(x: Option<Box<Node>>, index: usize) -> (res: (
    Option<Box<Node>>,
    Option<Box<Node>>,
))
    requires
        tree_wf(x),
        index <= tree_elems(x).len(),
    ensures
        tree_wf(res.0),
        tree_wf(res.1),
        (tree_elems(res.0), tree_elems(res.1)) == split_at(tree_elems(x), index as int),
        tree_len(res.0) == index,
        tree_len(res.0) + tree_len(res.1) == tree_len(x),
        tree_len(res.0) + tree_len(res.1) <= usize::MAX,
        index == 0 ==> res.0 is None && res.1 == x,
        res == split2_parts(x, index as nat),
{
    proof {
        reveal(split2_parts);
        lemma_tree_len(x);
    }
    if index == 0 {
        proof {
            assert(tree_elems(x).subrange(0, 0) =~= Seq::<int>::empty());
            assert(tree_elems(x).subrange(0, tree_elems(x).len() as int) =~= tree_elems(x));
        }
        return (None, x);
    }
    let ghost e = tree_elems(x);
    let (l, c, r) = split3(x.unwrap(), index - 1);
    proof {
        lemma_tree_len(l);
    }
    let z = merge3(l, c, None);
    proof {
        assert(z.elems() =~= e.subrange(0, index as int));
    }
    (Some(z), r)
}


/// The three trees that cutting before `end` and then before `start` gives.
pub open spec fn isolated(root: Option<Box<Node>>, start: nat, end: nat) -> (
    Option<Box<Node>>,
    Option<Box<Node>>,
    Option<Box<Node>>,
) {
    let upper = split2_parts(root, end);
    let lower = split2_parts(upper.0, start);
    (lower.0, lower.1, upper.1)
}

/// The tree that joining the first two of three trees and then the third gives.
pub open spec fn rejoined(
    l: Option<Box<Node>>,
    c: Option<Box<Node>>,
    r: Option<Box<Node>>,
) -> Option<Box<Node>> {
    merged2(merged2(l, c), r)
}

/// Cuts the tree into what lies before `start`, the range `start..end`, and what lies after.
fn isolate(root: Option<Box<Node>>, start: usize, end: usize) -> (res: (
    Option<Box<Node>>,
    Option<Box<Node>>,
    Option<Box<Node>>,
))
    requires
        tree_wf(root),
        start <= end <= tree_elems(root).len(),
    ensures
        tree_wf(res.0),
        tree_wf(res.1),
        tree_wf(res.2),
        tree_elems(res.0) == tree_elems(root).subrange(0, start as int),
        tree_elems(res.1) == tree_elems(root).subrange(start as int, end as int),
        tree_elems(res.2) == tree_elems(root).subrange(end as int, tree_elems(root).len() as int),
        tree_len(res.0) + tree_len(res.1) + tree_len(res.2) == tree_elems(root).len(),
        res == isolated(root, start as nat, end as nat),
{
    proof {
        lemma_isolate(tree_elems(root), start as int, end as int);
    }
    let (lc, r) = split2(root, end);
    let (l, c) = split2(lc, start);
    proof {
        lemma_tree_len(l);
        lemma_tree_len(c);
        lemma_tree_len(r);
    }
    (l, c, r)
}

/// Puts three trees together again, in order.
fn rejoin(l: Option<Box<Node>>, c: Option<Box<Node>>, r: Option<Box<Node>>) -> (root: Option<
    Box<Node>,
>)
    requires
        tree_wf(l),
        tree_wf(c),
        tree_wf(r),
        tree_len(l) + tree_len(c) + tree_len(r) <= usize::MAX,
    ensures
        tree_wf(root),
        tree_elems(root) == tree_elems(l) + tree_elems(c) + tree_elems(r),
        root == rejoined(l, c, r),
{
    let lc = merge2(l, c);
    proof {
        lemma_tree_len(l);
        lemma_tree_len(c);
        lemma_tree_len(lc);
    }
    merge2(lc, r)
}

/// A sequence of residues with positional insertion and removal and range
/// reversal, each in logarithmic time.
pub struct AvlTree {
    root: Option<Box<Node>>,
}

impl View for AvlTree {
    type V = Seq<int>;

    /// The values of the sequence in order.
    closed spec fn view(&self) -> Seq<int> {
        tree_elems(self.root)
    }
}

impl Default for AvlTree {
    fn default() -> (t: Self)
        ensures
            t.wf(),
            t@ == Seq::<int>::empty(),
    {
        AvlTree { root: None }
    }
}

impl AvlTree {
    /// Size, aggregate and balance invariants hold at every node.
    pub closed spec fn wf(&self) -> bool {
        tree_wf(self.root)
    }

    /// The stored height of the root, 0 when empty.
    pub closed spec fn spec_height(&self) -> nat {
        tree_height(self.root)
    }

    /// The empty sequence.
    pub fn new() -> (t: Self)
        ensures
            t.wf(),
            t@ == Seq::<int>::empty(),
    {
        AvlTree { root: None }
    }

    /// The number of values.
    pub fn len(&self) -> (n: usize)
        requires
            self.wf(),
        ensures
            n == self@.len(),
    {
        proof {
            lemma_tree_len(self.root);
        }
        size(&self.root)
    }

    /// Whether the sequence holds no value.
    pub fn is_empty(&self) -> (b: bool)
        requires
            self.wf(),
        ensures
            b == (self@.len() == 0),
    {
        self.len() == 0
    }

    /// The height of the tree, 0 when empty.
    pub fn height(&self) -> (h: u8)
        requires
            self.wf(),
        ensures
            h == self.spec_height(),
            h == tree_depth(self.spec_root()),
            h <= 127,
            min_nodes(h as nat) <= self@.len(),
            self@.len() < vstd::arithmetic::power2::pow2(h as nat),
            (h == 0) == (self@.len() == 0),
    {
        proof {
            lemma_height_is_depth(self.root);
            lemma_tree_len(self.root);
            lemma_tree_height_bound(self.root);
            lemma_tree_min_nodes(self.root);
            lemma_tree_max_nodes(self.root);
        }
        ht(&self.root)
    }

    /// The tree that holds the sequence.
    pub closed spec fn spec_root(self) -> Option<Box<Node>> {
        self.root
    }

    /// The sequence is what its tree holds in order, and it meets its invariants exactly when
    /// its tree does.
    pub proof fn lemma_spec_root(&self)
        ensures
            self@ == tree_elems(self.spec_root()),
            self.wf() == tree_wf(self.spec_root()),
    {
    }

    /// Gives up the sequence for the tree that holds it.
    pub fn into_root(self) -> (r: Option<Box<Node>>)
        ensures
            tree_elems(r) == self@,
            tree_wf(r) == self.wf(),
            r == self.spec_root(),
    {
        self.root
    }

    /// The sequence held by a balanced tree.
    pub fn from_root(root: Option<Box<Node>>) -> (t: Self)
        requires
            tree_wf(root),
        ensures
            t.wf(),
            t@ == tree_elems(root),
            t.spec_root() == root,
    {
        Self { root }
    }

    /// The root of the tree.
    pub fn root(&self) -> (r: &Option<Box<Node>>)
        ensures
            tree_elems(*r) == self@,
            tree_wf(*r) == self.wf(),
    {
        &self.root
    }

    /// Places `value` at position `index`, moving what was there and after it one step back.
    pub fn insert(&mut self, index: usize, value: Fp)
        requires
            old(self).wf(),
            index <= old(self)@.len(),
            old(self)@.len() < usize::MAX,
        ensures
            final(self).wf(),
            final(self)@ == inserted(old(self)@, index as int, value@),
            final(self).spec_root() == Some(
                Box::new(
                    merged3(
                        split2_parts(old(self).spec_root(), index as nat).0,
                        single(value),
                        split2_parts(old(self).spec_root(), index as nat).1,
                    ),
                ),
            ),
    {
        proof {
            lemma_tree_len(self.root);
        }
        let (l, r) = split2(self.root.take(), index);
        let c = Node::leaf(value);
        proof {
            lemma_tree_len(l);
            lemma_tree_len(r);
        }
        self.root = Some(merge3(l, c, r));
    }

    /// Takes out the value at position `index` and returns it.
    pub fn remove(&mut self, index: usize) -> (value: Fp)
        requires
            old(self).wf(),
            index < old(self)@.len(),
        ensures
            final(self).wf(),
            final(self)@ == removed(old(self)@, index as int),
            value@ == old(self)@[index as int],
            old(self).spec_root() matches Some(n) && final(self).spec_root() == merged2(
                split3_parts(*n, index as nat).0,
                split3_parts(*n, index as nat).2,
            ),
    {
        proof {
            lemma_tree_len(self.root);
        }
        let (l, c, r) = split3(self.root.take().unwrap(), index);
        proof {
            lemma_tree_len(l);
            lemma_tree_len(r);
        }
        self.root = merge2(l, r);
        c.value
    }

    /// Reverses the order of the values at positions `start..end`.
    pub fn reverse(&mut self, start: usize, end: usize)
        requires
            old(self).wf(),
            start <= end <= old(self)@.len(),
        ensures
            final(self).wf(),
            final(self)@ == reversed_range(old(self)@, start as int, end as int),
            final(self).spec_root() == rejoined(
                isolated(old(self).spec_root(), start as nat, end as nat).0,
                tree_toggled(isolated(old(self).spec_root(), start as nat, end as nat).1),
                isolated(old(self).spec_root(), start as nat, end as nat).2,
            ),
    {
        proof {
            lemma_tree_len(self.root);
        }
        let (l, mut c, r) = isolate(self.root.take(), start, end);
        tree_toggle(&mut c);
        self.root = rejoin(l, c, r);
    }
}


/// Builds a balanced tree from `values[lo..hi]`, with the midpoint at the root.
fn build(values: &Vec<Fp>, lo: usize, hi: usize) -> (t: Option<Box<Node>>)
    requires
        lo <= hi <= values.len(),
    ensures
        tree_wf(t),
        tree_elems(t) == fp_values(values@).subrange(lo as int, hi as int),
        tree_height(t) == perfect_height((hi - lo) as nat),
        t == built(values@, lo as int, hi as int),
    decreases hi - lo,
{
    let n = hi - lo;
    proof {
        reveal(built);
    }
    if n == 0 {
        assert(fp_values(values@).subrange(lo as int, hi as int) =~= Seq::<int>::empty());
        return None;
    }
    let mid = lo + n / 2;
    let left = build(values, lo, mid);
    let right = build(values, mid + 1, hi);
    let value = values[mid];
    let mut c = Box::new(
        Node {
            left,
            right,
            value,
            sum: value,
            len: 1,
            h: 0,
            rev: false,
        },
    );
    proof {
        lemma_tree_len(c.left);
        lemma_tree_len(c.right);
        lemma_perfect_height_step(((hi - mid - 1) as nat));
        assert((mid - lo) as nat == (n / 2) as nat);
        assert((hi - mid - 1) as nat == (mid - lo) as nat || (hi - mid - 1) as nat + 1 == (mid
            - lo) as nat);
    }
    c.update();
    proof {
        assert(c.elems() =~= fp_values(values@).subrange(lo as int, hi as int));
    }
    Some(c)
}

impl AvlTree {
    /// The sequence holding `values` in order, built in linear time.
    pub fn from_values(values: &Vec<Fp>) -> (t: Self)
        ensures
            t.wf(),
            t@ == fp_values(values@),
            t.spec_height() == perfect_height(values@.len()),
            t.spec_root() == built(values@, 0, values@.len() as int),
    {
        let root = build(values, 0, values.len());
        proof {
            assert(fp_values(values@).subrange(0, values.len() as int) =~= fp_values(values@));
        }
        AvlTree { root }
    }

    /// The values of the sequence in order.
    pub fn to_vec(&self) -> (out: Vec<Fp>)
        ensures
            fp_values(out@) == self@,
    {
        collect(&self.root)
    }
}

fn collect_recur(x: &Option<Box<Node>>, out: &mut Vec<Fp>, rev: bool)
    ensures
        fp_values(final(out)@) == fp_values(old(out)@) + oriented(tree_elems(*x), rev),
    decreases *x,
{
    match x {
        None => {
            proof {
                assert(Seq::<int>::empty().reverse() =~= Seq::<int>::empty());
                assert(fp_values(out@) + Seq::<int>::empty() =~= fp_values(out@));
            }
        },
        Some(x) => {
            let rev2 = rev != x.rev;
            let v = x.value;
            let ghost before = fp_values(out@);
            let ghost el = tree_elems(x.left);
            let ghost er = tree_elems(x.right);
            if rev2 {
                collect_recur(&x.right, out, rev2);
                let ghost mid = out@;
                out.push(v);
                assert(fp_values(out@) =~= fp_values(mid) + seq![v@]);
                collect_recur(&x.left, out, rev2);
                assert(fp_values(out@) =~= before + (er.reverse() + seq![v@] + el.reverse()));
            } else {
                collect_recur(&x.left, out, rev2);
                let ghost mid = out@;
                out.push(v);
                assert(fp_values(out@) =~= fp_values(mid) + seq![v@]);
                collect_recur(&x.right, out, rev2);
                assert(fp_values(out@) =~= before + (el + seq![v@] + er));
            }
            proof {
                reveal(Node::elems);
                lemma_reverse_concat(el + seq![v@], er);
                lemma_reverse_concat(el, seq![v@]);
                assert(seq![v@].reverse() =~= seq![v@]);
                assert((el + seq![v@] + er).reverse() =~= er.reverse() + seq![v@] + el.reverse());
                lemma_reverse_twice(el + seq![v@] + er);
            }
        },
    }
}

/// The values of a subtree in order, with every pending reversal resolved.
pub fn collect(x: &Option<Box<Node>>) -> (out: Vec<Fp>)
    ensures
        fp_values(out@) == tree_elems(*x),
{
    let mut out = Vec::new();
    collect_recur(x, &mut out, false);
    proof {
        assert(fp_values(Seq::<Fp>::empty()) + tree_elems(*x) =~= tree_elems(*x));
    }
    out
}

/// The line that the printer writes for one node at depth `d`.
pub closed spec fn line_text(n: Node, d: nat) -> Seq<char> {
    Seq::<char>::empty() + repeated(' ', d) + "▶"@ + decimal_text(n.value@ as nat) + (if n.rev {
        " [rev]"@
    } else {
        Seq::<char>::empty()
    }) + "\n"@
}
/// The lines that the printer writes for a subtree whose root is at depth `d`: one line per
/// node as the nodes are stored, left subtree first, with a pending reversal shown and not applied.
pub closed spec fn display_text(t: Option<Box<Node>>, d: nat) -> Seq<char>
    decreases t,
{
    match t {
        None => Seq::empty(),
        Some(n) => display_text(n.left, d + 1) + line_text(*n, d) + display_text(n.right, d + 1),
    }
}

/// Appends the line of one node at depth `d`.
fn push_line(x: &Node, d: u8, s: &mut String)
    ensures
        final(s)@ == old(s)@ + line_text(*x, d as nat),
{
    proof {
        x.value.lemma_in_range();
    }
    let mut line = String::new();
    push_repeated(&mut line, ' ', d as usize);
    line.append("▶");
    push_decimal(&mut line, x.value.value());
    if x.rev {
        line.append(" [rev]");
    }
    line.append("\n");
    assert(line@ == line_text(*x, d as nat));
    s.append(line.as_str());
}

#[verifier::rlimit(40)]
fn display_recur(x: &Node, d: u8, s: &mut String)
    requires
        x.wf(),
        d + x.h <= 200,
    ensures
        final(s)@ == old(s)@ + display_text(Some(Box::new(*x)), d as nat),
    decreases *x,
{
    let ghost start = s@;
    let ghost tl = display_text(x.left, (d + 1) as nat);
    let ghost tr = display_text(x.right, (d + 1) as nat);
    match &x.left {
        Some(p) => {
            display_recur(p, d + 1, s);
        },
        None => {
            assert(s@ + tl =~= s@);
        },
    }
    assert(s@ == start + tl);
    push_line(x, d, s);
    let ghost mid = s@;
    match &x.right {
        Some(p) => {
            display_recur(p, d + 1, s);
        },
        None => {
            assert(s@ + tr =~= s@);
        },
    }
    assert(s@ == mid + tr);
    proof {
        assert(display_text(Some(Box::new(*x)), d as nat) == tl + line_text(*x, d as nat) + tr);
        lemma_append3(start, tl, line_text(*x, d as nat), tr);
    }
}

/// The tree as text for inspection, one line per node, or a note that it is empty.
pub fn display(x: &Option<Box<Node>>) -> (s: String)
    requires
        tree_wf(*x),
    ensures
        s@ == (if *x is None {
            "(empty)\n"@
        } else {
            display_text(*x, 0)
        }),
{
    match x {
        None => "(empty)\n".to_owned(),
        Some(x) => {
            let mut s = String::new();
            proof {
                lemma_tree_height_bound(Some(*x));
            }
            display_recur(x, 0, &mut s);
            proof {
                assert(Seq::<char>::empty() + display_text(Some(*x), 0) =~= display_text(
                    Some(*x),
                    0,
                ));
            }
            s
        },
    }
}

impl Node {
    /// The left child.
    pub closed spec fn spec_left(self) -> Option<Box<Node>> {
        self.left
    }

    /// The right child.
    pub closed spec fn spec_right(self) -> Option<Box<Node>> {
        self.right
    }

    /// The stored aggregate.
    pub closed spec fn spec_sum(self) -> int {
        self.sum@
    }

    /// Whether a reversal is pending.
    pub closed spec fn spec_rev(self) -> bool {
        self.rev
    }

    /// At a node that meets the shape invariants, the size is one more than the sizes of the
    /// children and counts the values, the aggregate is the sum of the values with every tag
    /// resolved, the values are those of the children under the pending tags around the
    /// value of the node, the height is one more than that of the higher child, the children
    /// differ in height by at most one, and both children meet the invariants.
    pub proof fn lemma_shape(self)
        requires
            self.wf(),
        ensures
            tree_len(Some(Box::new(self))) == 1 + tree_len(self.spec_left()) + tree_len(
                self.spec_right(),
            ),
            tree_len(Some(Box::new(self))) == self.elems().len(),
            self.spec_sum() == residue(seq_sum(self.elems())),
            self.elems() == oriented(
                tree_elems(self.spec_left()) + seq![self.spec_value()] + tree_elems(
                    self.spec_right(),
                ),
                self.spec_rev(),
            ),
            tree_height(Some(Box::new(self))) == 1 + higher(
                tree_height(self.spec_left()),
                tree_height(self.spec_right()),
            ),
            -1 <= tree_height(self.spec_left()) - tree_height(self.spec_right()) <= 1,
            tree_wf(self.spec_left()),
            tree_wf(self.spec_right()),
    {
        reveal(Node::elems);
    }
}

impl AvlTree {
    /// Like [`insert`](Self::insert), but turns a position beyond the end down, and every
    /// position once the sequence holds as many values as a `usize` can count, and leaves
    /// the sequence as it was.
    pub fn try_insert(&mut self, index: usize, value: Fp) -> (r: Result<(), TreeError>)
        requires
            old(self).wf(),
        ensures
            final(self).wf(),
            index <= old(self)@.len() < usize::MAX ==> r is Ok && final(self)@ == inserted(
                old(self)@,
                index as int,
                value@,
            ),
            !(index <= old(self)@.len() < usize::MAX) ==> r == Err::<(), TreeError>(
                TreeError::IndexOutOfRange,
            ) && final(self)@ == old(self)@,
    {
        let n = self.len();
        if index > n || n == usize::MAX {
            return Err(TreeError::IndexOutOfRange);
        }
        self.insert(index, value);
        Ok(())
    }

    /// Like [`remove`](Self::remove), but turns a position that does not exist down and
    /// leaves the sequence as it was.
    pub fn try_remove(&mut self, index: usize) -> (r: Result<Fp, TreeError>)
        requires
            old(self).wf(),
        ensures
            final(self).wf(),
            index < old(self)@.len() ==> r is Ok && r->Ok_0@ == old(self)@[index as int]
                && final(self)@ == removed(old(self)@, index as int),
            index >= old(self)@.len() ==> r == Err::<Fp, TreeError>(TreeError::IndexOutOfRange)
                && final(self)@ == old(self)@,
    {
        if index >= self.len() {
            return Err(TreeError::IndexOutOfRange);
        }
        Ok(self.remove(index))
    }

    /// Like [`reverse`](Self::reverse), but turns a range that is not within the sequence
    /// down and leaves the sequence as it was.
    pub fn try_reverse(&mut self, start: usize, end: usize) -> (r: Result<(), TreeError>)
        requires
            old(self).wf(),
        ensures
            final(self).wf(),
            start <= end <= old(self)@.len() ==> r is Ok && final(self)@ == reversed_range(
                old(self)@,
                start as int,
                end as int,
            ),
            !(start <= end <= old(self)@.len()) ==> r == Err::<(), TreeError>(
                TreeError::IndexOutOfRange,
            ) && final(self)@ == old(self)@,
    {
        if start > end || end > self.len() {
            return Err(TreeError::IndexOutOfRange);
        }
        self.reverse(start, end);
        Ok(())
    }
}

} // verus!
