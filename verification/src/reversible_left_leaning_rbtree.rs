//! A left-leaning red-black sequence with lazy range reversal, lazy range
//! affine maps and range sums, built from owned nodes and a split/merge engine.
//!
//! Red nodes are always left children. A pending reversal would turn a red left
//! child into a right child, so pushing it down first lifts that child above
//! its parent.

use vstd::prelude::*;
use vstd::string::StringExecFns;
use vstd::arithmetic::div_mod::{lemma_add_mod_noop, lemma_mul_mod_noop, lemma_small_mod};
use vstd::arithmetic::power2::{lemma2_to64, lemma_pow2_strictly_increases, lemma_pow2_unfold, pow2};
use crate::error::TreeError;
use crate::fp::{residue, P};
use crate::text::{
    decimal_text, lemma_append3, push_decimal, push_repeated, repeated,
};
use crate::model::{
    lemma_isolate,
    affine_range, affine_seq, affine_value, canonical, fp_values, inserted, joined,
    lemma_affine_seq_canonical, lemma_affine_seq_compose, lemma_affine_seq_concat,
    lemma_affine_seq_identity, lemma_affine_seq_reverse, lemma_concat_shift,
    lemma_cut_left, lemma_cut_middle, lemma_cut_right, lemma_reverse_concat, lemma_reverse_twice,
    lemma_sum_affine, lemma_sum_concat, lemma_sum_reverse, lemma_sum_single, oriented, range_sum,
    removed, reversed_range, seq_sum, split_at,
};

verus! {

/// The residues that the sequences hold.
type Fp = crate::fp::Fp<P>;

/// The colour of a node.
#[derive(Clone, Copy, Debug, PartialEq, Eq, Structural)]
pub enum Color {
    Red,
    Black,
}

/// One element of the sequence together with the summary of its subtree.
///
/// `value` and `sum` already reflect the node's own pending tags; the tags
/// describe what is still owed to the two children. `bh` is the number of black
/// nodes on every way down from the node, itself not counted and the empty end
/// counted.
pub struct Node {
    left: Option<Box<Node>>,
    right: Option<Box<Node>>,
    color: Color,
    value: Fp,
    rev: bool,
    c1: Fp,
    c0: Fp,
    sum: Fp,
    len: usize,
    bh: u8,
}

/// The in-order values of a subtree with every pending tag resolved.
pub closed spec fn tree_elems(t: Option<Box<Node>>) -> Seq<int> {
    match t {
        None => Seq::empty(),
        Some(n) => n.elems(),
    }
}

/// The stored size of a subtree, 0 when empty.
pub closed spec fn tree_len(t: Option<Box<Node>>) -> nat {
    match t {
        None => 0,
        Some(n) => n.len as nat,
    }
}

/// The colour of the root of a subtree; an empty subtree counts as black.
pub closed spec fn tree_color(t: Option<Box<Node>>) -> Color {
    match t {
        None => Color::Black,
        Some(n) => n.color,
    }
}

/// The stored black height of the root, 0 for an empty subtree.
pub closed spec fn tree_bh(t: Option<Box<Node>>) -> nat {
    match t {
        None => 0,
        Some(n) => n.bh as nat,
    }
}

/// The number of black nodes on every way down through the subtree, its root and the empty
/// end counted.
pub closed spec fn tree_total(t: Option<Box<Node>>) -> nat {
    match t {
        None => 1,
        Some(n) => n.total(),
    }
}

/// The left-leaning red-black invariants hold at every node of the subtree.
pub closed spec fn tree_llrb(t: Option<Box<Node>>) -> bool
    decreases t,
{
    match t {
        None => true,
        Some(n) => n.llrb(),
    }
}

/// Size, aggregate and black height of the root agree with its children.
pub closed spec fn tree_meta_ok(t: Option<Box<Node>>) -> bool {
    match t {
        None => true,
        Some(n) => n.meta_ok(),
    }
}

impl Node {
    /// The values of the subtree in order, with this node's tags applied to its children.
    #[verifier::opaque]
    pub closed spec fn elems(self) -> Seq<int>
        decreases self,
    {
        let l = match self.left {
            None => Seq::empty(),
            Some(n) => n.elems(),
        };
        let r = match self.right {
            None => Seq::empty(),
            Some(n) => n.elems(),
        };
        oriented(
            affine_seq(l, self.c1@, self.c0@) + seq![self.value@] + affine_seq(
                r,
                self.c1@,
                self.c0@,
            ),
            self.rev,
        )
    }

    /// The children's values around this node's value, ignoring this node's tags.
    pub closed spec fn inner(self) -> Seq<int> {
        tree_elems(self.left) + seq![self.value@] + tree_elems(self.right)
    }

    /// No tag is pending on this node.
    pub closed spec fn is_pushed(self) -> bool {
        !self.rev && self.c1@ == 1 && self.c0@ == 0
    }

    /// The number of black nodes on every way down through this node.
    pub closed spec fn total(self) -> nat {
        if self.color == Color::Black {
            self.bh as nat + 1
        } else {
            self.bh as nat
        }
    }

    /// Size, aggregate and black height agree with the children.
    pub closed spec fn meta_ok(self) -> bool {
        &&& self.len == 1 + tree_len(self.left) + tree_len(self.right)
        &&& self.len == self.elems().len()
        &&& self.sum@ == residue(seq_sum(self.elems()))
        &&& self.bh == tree_total(self.left)
    }

    /// Both children meet the invariants and have the same black height, and the summary of
    /// this node agrees with them; nothing is said of the colours around this node.
    pub closed spec fn node_ok(self) -> bool {
        &&& tree_llrb(self.left)
        &&& tree_llrb(self.right)
        &&& self.meta_ok()
        &&& tree_total(self.left) == tree_total(self.right)
    }

    /// The left-leaning red-black invariants hold at this node and below: no red right
    /// child, no red child of a red node, equal black heights.
    pub closed spec fn llrb(self) -> bool
        decreases self,
    {
        &&& tree_llrb(self.left)
        &&& tree_llrb(self.right)
        &&& self.meta_ok()
        &&& tree_total(self.left) == tree_total(self.right)
        &&& tree_color(self.right) == Color::Black
        &&& (self.color == Color::Red ==> tree_color(self.left) == Color::Black)
    }

    /// The node has no children.
    pub closed spec fn is_single(self) -> bool {
        self.left is None && self.right is None
    }

    /// The value stored at the node.
    pub closed spec fn spec_value(self) -> int {
        self.value@
    }

    /// The left child.
    pub closed spec fn spec_left(self) -> Option<Box<Node>> {
        self.left
    }

    /// The right child.
    pub closed spec fn spec_right(self) -> Option<Box<Node>> {
        self.right
    }
}

proof fn lemma_elems_canonical(n: Node)
    ensures
        canonical(n.elems()),
{
    reveal(Node::elems);
    let l = affine_seq(tree_elems(n.left), n.c1@, n.c0@);
    let r = affine_seq(tree_elems(n.right), n.c1@, n.c0@);
    lemma_affine_seq_canonical(tree_elems(n.left), n.c1@, n.c0@);
    lemma_affine_seq_canonical(tree_elems(n.right), n.c1@, n.c0@);
    n.value.lemma_in_range();
    let s = l + seq![n.value@] + r;
    assert(canonical(s));
    assert(canonical(s.reverse()));
}

proof fn lemma_tree_canonical(t: Option<Box<Node>>)
    ensures
        canonical(tree_elems(t)),
{
    match t {
        None => {},
        Some(n) => lemma_elems_canonical(*n),
    }
}

impl Node {
    /// The node with the reading direction of its subtree turned round.
    pub closed spec fn toggled(self) -> Node {
        Node { rev: !self.rev, ..self }
    }

    /// The node after `v -> c1 * v + c0` has acted on its subtree: value and aggregate are
    /// mapped, and the map is composed into the pending one.
    pub closed spec fn applied(self, c1: Fp, c0: Fp) -> Node {
        Node {
            value: c1.spec_mul(self.value).spec_add(c0),
            sum: c1.spec_mul(self.sum).spec_add(c0.spec_mul(Fp::spec_new(self.len as u64))),
            c1: c1.spec_mul(self.c1),
            c0: c1.spec_mul(self.c0).spec_add(c0),
            ..self
        }
    }

    /// The node after its pending affine map has been handed down: each child takes the
    /// map, and the node keeps everything but the map.
    pub closed spec fn eased(self) -> Node {
        if self.c1@ != 1 || self.c0@ != 0 {
            Node {
                left: tree_applied(self.left, self.c1, self.c0),
                right: tree_applied(self.right, self.c1, self.c0),
                c1: Fp::spec_new(1),
                c0: Fp::spec_new(0),
                ..self
            }
        } else {
            self
        }
    }

    /// The node with its children on the other side each, both turned round.
    pub closed spec fn flipped(self) -> Node {
        Node { left: tree_toggled(self.right), right: tree_toggled(self.left), ..self }
    }

    /// The node with its size, aggregate and black height recomputed from its children.
    pub closed spec fn updated(self) -> Node {
        let with_left = match self.left {
            Some(l) => self.value.spec_add(l.sum),
            None => self.value,
        };
        let with_both = match self.right {
            Some(r) => with_left.spec_add(r.sum),
            None => with_left,
        };
        Node {
            len: (1 + tree_len(self.left) + tree_len(self.right)) as usize,
            sum: with_both,
            bh: tree_total(self.left) as u8,
            ..self
        }
    }

    /// The pending affine map, as a pair of residues.
    pub closed spec fn tag(self) -> (Fp, Fp) {
        (self.c1, self.c0)
    }

    /// What turning round, the affine map, handing the map down and changing sides do to
    /// the fields of a node.
    pub proof fn lemma_tagged(self, c1: Fp, c0: Fp)
        ensures
            self.toggled().spec_rev() == !self.spec_rev(),
            self.toggled().spec_value() == self.spec_value(),
            self.toggled().spec_sum() == self.spec_sum(),
            self.toggled().tag() == self.tag(),
            self.toggled().spec_left() == self.spec_left(),
            self.toggled().spec_right() == self.spec_right(),
            self.applied(c1, c0).spec_value() == affine_value(self.spec_value(), c1@, c0@),
            self.applied(c1, c0).spec_sum() == residue(
                residue(c1@ * self.spec_sum()) + residue(
                    c0@ * residue(tree_len(Some(Box::new(self))) as int),
                ),
            ),
            self.applied(c1, c0).spec_c1() == residue(c1@ * self.spec_c1()),
            self.applied(c1, c0).spec_c0() == residue(residue(c1@ * self.spec_c0()) + c0@),
            self.applied(c1, c0).spec_rev() == self.spec_rev(),
            self.applied(c1, c0).spec_left() == self.spec_left(),
            self.applied(c1, c0).spec_right() == self.spec_right(),
            self.eased().spec_c1() == 1 && self.eased().spec_c0() == 0,
            self.eased().spec_rev() == self.spec_rev(),
            self.eased().spec_value() == self.spec_value(),
            self.eased().spec_sum() == self.spec_sum(),
            self.spec_c1() == 1 && self.spec_c0() == 0 ==> self.eased() == self,
            !(self.spec_c1() == 1 && self.spec_c0() == 0) ==> self.eased().spec_left()
                == tree_applied(self.spec_left(), self.tag().0, self.tag().1)
                && self.eased().spec_right() == tree_applied(
                self.spec_right(),
                self.tag().0,
                self.tag().1,
            ),
            self.flipped().spec_left() == tree_toggled(self.spec_right()),
            self.flipped().spec_right() == tree_toggled(self.spec_left()),
            self.flipped().spec_value() == self.spec_value(),
            self.flipped().spec_sum() == self.spec_sum(),
            self.flipped().spec_rev() == self.spec_rev(),
            self.flipped().tag() == self.tag(),
    {
        let n = Fp::spec_new(self.len as u64);
        Fp::lemma_spec_ops(c1, self.value, self.len as u64);
        Fp::lemma_spec_ops(c1.spec_mul(self.value), c0, 0);
        Fp::lemma_spec_ops(c1, self.sum, 1);
        Fp::lemma_spec_ops(c0, n, 0);
        Fp::lemma_spec_ops(c1.spec_mul(self.sum), c0.spec_mul(n), 0);
        Fp::lemma_spec_ops(c1, self.c1, 0);
        Fp::lemma_spec_ops(c1, self.c0, 0);
        Fp::lemma_spec_ops(c1.spec_mul(self.c0), c0, 0);
        lemma_add_mod_noop(c1@ * self.value@, c0@, P as int);
        c0.lemma_in_range();
        lemma_small_mod(c0@ as nat, P as nat);
        lemma_small_mod(self.len as nat, 0x1_0000_0000_0000_0000);
        lemma_small_mod(1, P as nat);
        lemma_small_mod(0, P as nat);
    }
}

/// The subtree with its root turned round; the empty subtree stays empty.
pub open spec fn tree_toggled(t: Option<Box<Node>>) -> Option<Box<Node>> {
    match t {
        None => None,
        Some(n) => Some(Box::new(n.toggled())),
    }
}

/// The subtree with the affine map taken by its root; the empty subtree stays empty.
pub open spec fn tree_applied(t: Option<Box<Node>>, c1: Fp, c0: Fp) -> Option<Box<Node>> {
    match t {
        None => None,
        Some(n) => Some(Box::new(n.applied(c1, c0))),
    }
}

impl Node {
    /// The node with the given children and every other field as it is.
    pub closed spec fn with_children(self, l: Option<Box<Node>>, r: Option<Box<Node>>) -> Node {
        Node { left: l, right: r, ..self }
    }

    /// The node in the given colour.
    pub closed spec fn painted(self, c: Color) -> Node {
        Node { color: c, ..self }
    }

    /// The node over the given children, with size, aggregate and black height computed from
    /// them.
    pub closed spec fn over(self, l: Option<Box<Node>>, r: Option<Box<Node>>) -> Node {
        self.with_children(l, r).updated()
    }

    /// The black node with two red children made a red node with two black children, one
    /// black node higher.
    pub closed spec fn four_split(self) -> Node {
        Node {
            color: Color::Red,
            left: tree_painted(self.left, Color::Black),
            right: tree_painted(self.right, Color::Black),
            bh: (self.bh + 1) as u8,
            ..self
        }
    }

    /// The node with two black children made a black node with two red children, one black
    /// node lower.
    pub closed spec fn two_joined(self) -> Node {
        Node {
            color: Color::Black,
            left: tree_painted(self.left, Color::Red),
            right: tree_painted(self.right, Color::Red),
            bh: (self.bh - 1) as u8,
            ..self
        }
    }

    /// The node with no reversal pending and every other field as it is.
    pub closed spec fn cleared(self) -> Node {
        Node { rev: false, ..self }
    }

    /// The colour of the node.
    pub closed spec fn spec_color(self) -> Color {
        self.color
    }

    /// The stored size of the node.
    pub closed spec fn spec_len(self) -> nat {
        self.len as nat
    }

    /// What the node with other children, in another colour, over other children, without
    /// its reversal, or with the colours passed up or down holds.
    pub proof fn lemma_fields(self, l: Option<Box<Node>>, r: Option<Box<Node>>, c: Color)
        ensures
            self.with_children(l, r).spec_left() == l,
            self.with_children(l, r).spec_right() == r,
            self.with_children(l, r).spec_value() == self.spec_value(),
            self.with_children(l, r).spec_color() == self.spec_color(),
            self.with_children(l, r).spec_rev() == self.spec_rev(),
            self.with_children(l, r).tag() == self.tag(),
            self.with_children(l, r).spec_len() == self.spec_len(),
            self.painted(c).spec_left() == self.spec_left(),
            self.painted(c).spec_right() == self.spec_right(),
            self.painted(c).spec_value() == self.spec_value(),
            self.painted(c).spec_color() == c,
            self.painted(c).spec_rev() == self.spec_rev(),
            self.painted(c).tag() == self.tag(),
            self.painted(c).spec_len() == self.spec_len(),
            self.cleared().spec_left() == self.spec_left(),
            self.cleared().spec_right() == self.spec_right(),
            self.cleared().spec_value() == self.spec_value(),
            self.cleared().spec_color() == self.spec_color(),
            !self.cleared().spec_rev(),
            self.cleared().tag() == self.tag(),
            self.cleared().spec_len() == self.spec_len(),
            self.over(l, r).spec_left() == l,
            self.over(l, r).spec_right() == r,
            self.over(l, r).spec_value() == self.spec_value(),
            self.over(l, r).spec_color() == self.spec_color(),
            self.over(l, r).spec_rev() == self.spec_rev(),
            self.over(l, r).tag() == self.tag(),
            tree_len(l) + tree_len(r) < usize::MAX ==> self.over(l, r).spec_len() == 1 + tree_len(
                l,
            ) + tree_len(r),
            tree_total(l) <= 255 ==> tree_bh(Some(Box::new(self.over(l, r)))) == tree_total(l),
            self.updated() == self.over(self.spec_left(), self.spec_right()),
            self.four_split().spec_left() == tree_painted(self.spec_left(), Color::Black),
            self.four_split().spec_right() == tree_painted(self.spec_right(), Color::Black),
            self.four_split().spec_value() == self.spec_value(),
            self.four_split().spec_color() == Color::Red,
            self.four_split().spec_rev() == self.spec_rev(),
            self.four_split().tag() == self.tag(),
            self.two_joined().spec_left() == tree_painted(self.spec_left(), Color::Red),
            self.two_joined().spec_right() == tree_painted(self.spec_right(), Color::Red),
            self.two_joined().spec_value() == self.spec_value(),
            self.two_joined().spec_color() == Color::Black,
            self.two_joined().spec_rev() == self.spec_rev(),
            self.two_joined().tag() == self.tag(),
            tree_color(Some(Box::new(self))) == self.spec_color(),
            tree_len(Some(Box::new(self))) == self.spec_len(),
            tree_left_color(Some(Box::new(self))) == tree_color(self.spec_left()),
            tree_color(None) == Color::Black,
            tree_left_color(None) == Color::Black,
    {
    }
}

/// The subtree with its root in the given colour; the empty subtree stays empty.
pub open spec fn tree_painted(t: Option<Box<Node>>, c: Color) -> Option<Box<Node>> {
    match t {
        None => None,
        Some(n) => Some(Box::new(n.painted(c))),
    }
}

/// The node after both pending tags have been handed down: the affine map first; then,
/// under a pending reversal, a red left child is lifted above the node, and the children of
/// the node then on top change sides and are each turned round. A child of a node whose
/// size is right is smaller than the node; where it is not, it is not lifted.
#[verifier::opaque]
pub open spec fn pushed(x: Node) -> Node
    decreases tree_len(Some(Box::new(x))), 1int,
{
    let x1 = x.eased();
    if x1.spec_rev() {
        let x2 = x1.cleared();
        let x3 = match x2.spec_left() {
            Some(yl) if yl.spec_color() == Color::Red && yl.spec_len() < x.spec_len() => {
                rotated_right(x2.with_children(Some(Box::new(pushed(*yl))), x2.spec_right()))
            },
            _ => x2,
        };
        x3.flipped()
    } else {
        x1
    }
}

/// The subtree after its left child has handed its tags down and has been lifted above its
/// root: the child takes the colour of the root, which turns red.
#[verifier::opaque]
pub open spec fn rotated_right(x: Node) -> Node
    decreases tree_len(Some(Box::new(x))), 0int,
{
    match x.spec_left() {
        Some(y0) if y0.spec_len() < x.spec_len() => {
            let y = pushed(*y0);
            y.painted(x.spec_color()).over(
                y.spec_left(),
                Some(Box::new(x.painted(Color::Red).over(y.spec_right(), x.spec_right()))),
            )
        },
        _ => x,
    }
}

/// The subtree after its right child has handed its tags down and has been lifted above
/// its root: the child takes the colour of the root, which turns red.
#[verifier::opaque]
pub open spec fn rotated_left(x: Node) -> Node {
    match x.spec_right() {
        Some(y0) => {
            let y = pushed(*y0);
            y.painted(x.spec_color()).over(
                Some(Box::new(x.painted(Color::Red).over(x.spec_left(), y.spec_left()))),
                y.spec_right(),
            )
        },
        None => x,
    }
}

/// The subtree after the colour rule has acted on its root: a red right child is lifted
/// above the root; then a red left child with a red left child of its own is lifted above
/// the root; then two red children pass their colour up.
#[verifier::opaque]
pub open spec fn fixed(x: Node) -> Node {
    let x1 = if tree_color(x.spec_right()) == Color::Red {
        rotated_left(x)
    } else {
        x
    };
    let x2 = if tree_color(x1.spec_left()) == Color::Red && tree_left_color(x1.spec_left())
        == Color::Red {
        rotated_right(x1)
    } else {
        x1
    };
    if tree_color(x2.spec_left()) == Color::Red && tree_color(x2.spec_right()) == Color::Red {
        x2.four_split()
    } else {
        x2
    }
}

/// The tree that joining `l`, the node `c` and `r` below the root of the higher of the two
/// gives: with equal black heights `c`, red, over `l` and `r`; otherwise the root of the
/// higher side hands its tags down and stays, with the join of the rest in the place of its
/// inner child; either way the colour rule then acts on the root. The inner child of a tree
/// that meets the invariants is smaller than the tree; where it is not, nothing is joined
/// and the result is `c`.
#[verifier::opaque]
pub open spec fn joined3(l: Option<Box<Node>>, c: Node, r: Option<Box<Node>>) -> Node
    decreases tree_len(l) + tree_len(r),
{
    if tree_bh(l) < tree_bh(r) {
        match r {
            Some(r0) => {
                let rn = pushed(*r0);
                if tree_len(rn.spec_left()) < tree_len(r) {
                    fixed(rn.over(Some(Box::new(joined3(l, c, rn.spec_left()))), rn.spec_right()))
                } else {
                    c
                }
            },
            None => c,
        }
    } else if tree_bh(l) == tree_bh(r) {
        fixed(c.painted(Color::Red).over(l, r))
    } else {
        match l {
            Some(l0) => {
                let ln = pushed(*l0);
                if tree_len(ln.spec_right()) < tree_len(l) {
                    fixed(ln.over(ln.spec_left(), Some(Box::new(joined3(ln.spec_right(), c, r)))))
                } else {
                    c
                }
            },
            None => c,
        }
    }
}

/// The tree that joining `l`, the node `c` and `r` gives: the join below the root of the
/// higher tree, with its root painted black.
pub open spec fn merged3(l: Option<Box<Node>>, c: Node, r: Option<Box<Node>>) -> Node {
    joined3(l, c, r).painted(Color::Black)
}

/// The red node that holds `value`, with no tag and nothing below it.
pub closed spec fn single(value: Fp) -> Node {
    Node {
        left: None,
        right: None,
        color: Color::Red,
        rev: false,
        c1: Fp::spec_new(1),
        c0: Fp::spec_new(0),
        value,
        sum: value,
        len: 1,
        bh: 1,
    }
}

/// The node after its left child has been made red for a walk into it: the right child
/// hands its tags down and both children turn red under the node, now black; where the
/// right child then has a red left child, that grandchild is lifted above the right child
/// and above the node, and the colours pass up again.
#[verifier::opaque]
pub open spec fn moved_red_left(x: Node) -> Node {
    match x.spec_right() {
        Some(xr) => {
            let x2 = x.with_children(x.spec_left(), Some(Box::new(pushed(*xr)))).two_joined();
            match x2.spec_right() {
                Some(r) if tree_left_color(x2.spec_right()) == Color::Red => rotated_left(
                    x2.with_children(x2.spec_left(), Some(Box::new(rotated_right(*r)))),
                ).four_split(),
                _ => x2,
            }
        },
        None => x,
    }
}

/// The node after its right child has been made red for a walk into it: the left child
/// hands its tags down and both children turn red under the node, now black; where the
/// left child then has a red left child, the left child is lifted above the node, and the
/// colours pass up again.
#[verifier::opaque]
pub open spec fn moved_red_right(x: Node) -> Node {
    match x.spec_left() {
        Some(xl) => {
            let x2 = x.with_children(Some(Box::new(pushed(*xl))), x.spec_right()).two_joined();
            if tree_left_color(x2.spec_left()) == Color::Red {
                rotated_right(x2).four_split()
            } else {
                x2
            }
        },
        None => x,
    }
}

/// The node made ready for a walk into its left child: the child hands its tags down, and
/// where it is then a black node with a black left child, it is made red and the right
/// child of the node is painted black.
#[verifier::opaque]
pub open spec fn prepared_left(x: Node) -> Node {
    match x.spec_left() {
        Some(xl) => {
            let x1 = x.with_children(Some(Box::new(pushed(*xl))), x.spec_right());
            if tree_color(x1.spec_left()) == Color::Black && tree_left_color(x1.spec_left())
                == Color::Black {
                let m = moved_red_left(x1);
                m.with_children(m.spec_left(), tree_painted(m.spec_right(), Color::Black))
            } else {
                x1
            }
        },
        None => x,
    }
}

/// The node made ready for a walk into its right child: a red left child is lifted above
/// the node; otherwise the right child hands its tags down, and where it is then a black
/// node with a black left child, it is made red and the left child of the node is painted
/// black.
#[verifier::opaque]
pub open spec fn prepared_right(x: Node) -> Node {
    if tree_color(x.spec_left()) == Color::Red {
        rotated_right(x)
    } else {
        match x.spec_right() {
            Some(xr) => {
                let x1 = x.with_children(x.spec_left(), Some(Box::new(pushed(*xr))));
                if tree_color(x1.spec_right()) == Color::Black && tree_left_color(x1.spec_right())
                    == Color::Black {
                    let m = moved_red_right(x1);
                    m.with_children(tree_painted(m.spec_left(), Color::Black), m.spec_right())
                } else {
                    x1
                }
            },
            None => x,
        }
    }
}

/// The three parts that the walk down from a node with no tag to the node at `index` gives:
/// that node comes out alone and red, its left child painted black; every node passed is
/// made ready for the walk and, on the way back, joins what is left of the side that the
/// walk went into with its other child, the root of the join painted black. A child of a
/// node whose size is right is smaller than the node; where it is not, the walk stops.
#[verifier::opaque]
pub open spec fn walked(x: Node, index: nat) -> (Option<Box<Node>>, Node, Option<Box<Node>>)
    decreases tree_len(Some(Box::new(x))),
{
    let llen = tree_len(x.spec_left());
    if index < llen {
        let x1 = prepared_left(x);
        match x1.spec_left() {
            Some(xl) if xl.spec_len() < x.spec_len() => {
                let q = walked(*xl, index);
                (
                    q.0,
                    q.1,
                    Some(Box::new(merged3(q.2, x1.with_children(None, None), x1.spec_right()))),
                )
            },
            _ => (x.spec_left(), x, x.spec_right()),
        }
    } else if index == llen {
        (
            tree_painted(x.spec_left(), Color::Black),
            x.painted(Color::Red).over(None, None),
            x.spec_right(),
        )
    } else {
        let x1 = prepared_right(x);
        match x1.spec_right() {
            Some(xr) if xr.spec_len() < x.spec_len() => {
                let q = walked(*xr, (index - (x1.spec_len() - tree_len(x1.spec_right()))) as nat);
                (
                    Some(Box::new(merged3(x1.spec_left(), x1.with_children(None, None), q.0))),
                    q.1,
                    q.2,
                )
            },
            _ => (x.spec_left(), x, x.spec_right()),
        }
    }
}

/// The three parts that cutting the tree at `index` gives: a black root with a black left
/// child turns red, the root hands its tags down, and the walk goes down from it.
#[verifier::opaque]
pub open spec fn split3_parts(x: Node, index: nat) -> (
    Option<Box<Node>>,
    Node,
    Option<Box<Node>>,
) {
    walked(
        pushed(
            if x.spec_color() == Color::Black && tree_color(x.spec_left()) == Color::Black {
                x.painted(Color::Red)
            } else {
                x
            },
        ),
        index,
    )
}

/// The tree that joining `l` and `r` gives: the other one where one is empty, otherwise the
/// join of `l`, the first node of `r` and the rest of `r`.
#[verifier::opaque]
pub open spec fn merged2(l: Option<Box<Node>>, r: Option<Box<Node>>) -> Option<Box<Node>> {
    match r {
        Some(rn) if l is Some => {
            let p = split3_parts(*rn, 0);
            Some(Box::new(merged3(l, p.1, p.2)))
        },
        Some(_) => r,
        None => l,
    }
}

/// The two parts that cutting the tree before `index` gives: nothing and the whole tree
/// where `index` is 0, otherwise what lies before the node at `index - 1` joined with that
/// node, and what lies after it.
#[verifier::opaque]
pub open spec fn split2_parts(x: Option<Box<Node>>, index: nat) -> (
    Option<Box<Node>>,
    Option<Box<Node>>,
) {
    match x {
        Some(n) if index != 0 => {
            let p = split3_parts(*n, (index - 1) as nat);
            (Some(Box::new(merged3(p.0, p.1, None))), p.2)
        },
        _ => (None, x),
    }
}

/// The three trees that cutting before `end` and then before `start` gives.
pub open spec fn isolated(root: Option<Box<Node>>, start: nat, end: nat) -> (
    Option<Box<Node>>,
    Option<Box<Node>>,
    Option<Box<Node>>,
) {
    let upper = split2_parts(root, end);
    let lower = split2_parts(upper.0, start);
    (lower.0, lower.1, upper.1)
}

/// The tree that joining the first two of three trees and then the third gives.
pub open spec fn rejoined(
    l: Option<Box<Node>>,
    c: Option<Box<Node>>,
    r: Option<Box<Node>>,
) -> Option<Box<Node>> {
    merged2(merged2(l, c), r)
}

/// The single node holds its value, is red, has no children and no tag, and is its own
/// aggregate; joining with nothing and cutting before the first position change nothing.
pub proof fn lemma_single(value: Fp, t: Option<Box<Node>>)
    ensures
        single(value).spec_value() == value@,
        single(value).spec_sum() == value@,
        single(value).is_single(),
        single(value).is_pushed(),
        tree_color(Some(Box::new(single(value)))) == Color::Red,
        tree_len(Some(Box::new(single(value)))) == 1,
        merged2(t, None) == t,
        merged2(None, t) == t,
        split2_parts(t, 0) == (None::<Box<Node>>, t),
{
    reveal(merged2);
    reveal(split2_parts);
    Fp::lemma_spec_ops(value, value, 1);
    Fp::lemma_spec_ops(value, value, 0);
    lemma_small_mod(1, P as nat);
    lemma_small_mod(0, P as nat);
}

/// Every way down through the subtree passes `k` black nodes, the empty end counted.
pub open spec fn every_way(t: Option<Box<Node>>, k: nat) -> bool
    decreases t,
{
    match t {
        None => k == 1,
        Some(n) => {
            let own: nat = if n.spec_color() == Color::Black {
                1
            } else {
                0
            };
            k >= own && every_way(n.spec_left(), (k - own) as nat) && every_way(
                n.spec_right(),
                (k - own) as nat,
            )
        },
    }
}

/// In a tree that meets the invariants every way down passes as many black nodes as the
/// root says.
pub proof fn lemma_every_way(t: Option<Box<Node>>)
    requires
        tree_llrb(t),
    ensures
        every_way(t, tree_total(t)),
        t matches Some(n) ==> every_way(n.spec_left(), tree_bh(t)) && every_way(
            n.spec_right(),
            tree_bh(t),
        ),
    decreases t,
{
    match t {
        None => {},
        Some(n) => {
            lemma_every_way(n.left);
            lemma_every_way(n.right);
        },
    }
}

/// The empty tree meets the invariants and holds nothing, the stored size of a tree that
/// meets the invariants is the number of its values, and a tree that is not empty meets
/// the invariants exactly when its root does.
pub proof fn lemma_tree_size(t: Option<Box<Node>>)
    ensures
        tree_llrb(None::<Box<Node>>),
        tree_elems(None::<Box<Node>>) == Seq::<int>::empty(),
        tree_len(None::<Box<Node>>) == 0,
        tree_len(t) <= usize::MAX,
        tree_color(None::<Box<Node>>) == Color::Black,
        tree_llrb(t) ==> tree_len(t) == tree_elems(t).len(),
        t matches Some(n) ==> tree_llrb(t) == n.llrb(),
{
    if tree_llrb(t) {
        lemma_tree_len(t);
    }
}

proof fn lemma_tree_len(t: Option<Box<Node>>)
    requires
        tree_llrb(t),
    ensures
        tree_elems(t).len() == tree_len(t),
        tree_total(t) >= 1,
        tree_meta_ok(t),
        t matches Some(n) ==> n.node_ok() && n.llrb() && tree_color(n.right) == Color::Black && (
        n.color == Color::Red ==> tree_color(n.left) == Color::Black),
        t is None ==> tree_total(t) == 1 && tree_color(t) == Color::Black,
{
}

/// A pushed node lists its children's values around its own.
proof fn lemma_pushed_elems(n: Node)
    requires
        n.is_pushed(),
    ensures
        n.elems() == n.inner(),
{
    reveal(Node::elems);
    lemma_tree_canonical(n.left);
    lemma_tree_canonical(n.right);
    lemma_affine_seq_identity(tree_elems(n.left));
    lemma_affine_seq_identity(tree_elems(n.right));
}

/// A left-leaning red-black subtree with black height `b` holds at least `2^(b - 1) - 1`
/// nodes.
pub proof fn lemma_tree_min_nodes(t: Option<Box<Node>>)
    requires
        tree_llrb(t),
    ensures
        tree_total(t) >= 1,
        tree_len(t) + 1 >= pow2((tree_total(t) - 1) as nat),
    decreases t,
{
    lemma2_to64();
    match t {
        None => {},
        Some(n) => {
            lemma_tree_min_nodes(n.left);
            lemma_tree_min_nodes(n.right);
            lemma_pow2_unfold(n.bh as nat);
        },
    }
}

/// A left-leaning red-black subtree whose size fits in `usize` has black height at most 65.
pub proof fn lemma_tree_bh_bound(t: Option<Box<Node>>)
    requires
        tree_llrb(t),
    ensures
        1 <= tree_total(t) <= 65,
        tree_bh(t) <= 65,
{
    lemma_tree_min_nodes(t);
    lemma2_to64();
    if tree_total(t) >= 66 {
        lemma_pow2_unfold(65);
        if tree_total(t) > 66 {
            lemma_pow2_strictly_increases(65, (tree_total(t) - 1) as nat);
        }
        assert(tree_len(t) <= usize::MAX);
        assert(usize::MAX <= u64::MAX);
    }
}

fn size(x: &Option<Box<Node>>) -> (n: usize)
    ensures
        n == tree_len(*x),
{
    match x {
        None => 0,
        Some(n) => n.len,
    }
}

fn bh(x: &Option<Box<Node>>) -> (b: u8)
    ensures
        b == tree_bh(*x),
{
    match x {
        None => 0,
        Some(n) => n.bh,
    }
}

fn color(x: &Option<Box<Node>>) -> (c: Color)
    ensures
        c == tree_color(*x),
{
    match x {
        None => Color::Black,
        Some(n) => n.color,
    }
}

impl Node {
    /// A detached red leaf holding `value`.
    fn leaf(value: Fp) -> (c: Box<Node>)
        ensures
            c.is_single(),
            c.is_pushed(),
            c.llrb(),
            c.color == Color::Red,
            c.value@ == value@,
            c.elems() == seq![value@],
            *c == single(value),
    {
        let c = Box::new(
            Node {
                left: None,
                right: None,
                color: Color::Red,
                rev: false,
                c1: Fp::new(1),
                c0: Fp::new(0),
                value,
                sum: value,
                len: 1,
                bh: 1,
            },
        );
        proof {
            lemma_small_mod(1, P as nat);
            lemma_small_mod(0, P as nat);
            lemma_pushed_elems(*c);
            assert(c.inner() =~= seq![value@]);
            lemma_sum_single(value@);
            value.lemma_in_range();
            lemma_small_mod(value@ as nat, P as nat);
        }
        c
    }

    /// Recomputes size, aggregate and black height from the children.
    fn update(&mut self)
        requires
            old(self).is_pushed(),
            tree_meta_ok(old(self).left),
            tree_meta_ok(old(self).right),
            tree_bh(old(self).left) < 255,
            tree_len(old(self).left) + tree_len(old(self).right) < usize::MAX,
        ensures
            final(self).left == old(self).left,
            final(self).right == old(self).right,
            final(self).value == old(self).value,
            final(self).color == old(self).color,
            final(self).is_pushed(),
            final(self).meta_ok(),
            final(self).elems() == old(self).inner(),
            *final(self) == old(self).updated(),
    {
        self.len = 1;
        self.sum = self.value;
        self.bh = 1;
        match self.left.as_ref() {
            Some(p) => {
                self.len += p.len;
                self.sum = self.sum.add(p.sum);
                self.bh = p.bh + if p.color == Color::Black {
                    1u8
                } else {
                    0u8
                };
            },
            None => {},
        }
        match self.right.as_ref() {
            Some(p) => {
                self.len += p.len;
                self.sum = self.sum.add(p.sum);
            },
            None => {},
        }
        proof {
            let l = tree_elems(self.left);
            let r = tree_elems(self.right);
            let v = self.value@;
            lemma_pushed_elems(*self);
            lemma_sum_concat(l + seq![v], r);
            lemma_sum_concat(l, seq![v]);
            lemma_sum_single(v);
            let m = P as int;
            lemma_add_mod_noop(v, seq_sum(l), m);
            lemma_add_mod_noop(v + seq_sum(l), seq_sum(r), m);
            self.value.lemma_in_range();
            lemma_small_mod(v as nat, P as nat);
            assert(seq_sum(Seq::<int>::empty()) == 0);
            lemma_small_mod(0, P as nat);
        }
    }

    /// Records that the whole subtree is to be read backwards.
    fn toggle(&mut self)
        requires
            old(self).meta_ok(),
        ensures
            final(self).meta_ok(),
            final(self).left == old(self).left,
            final(self).right == old(self).right,
            final(self).elems() == old(self).elems().reverse(),
            final(self).bh == old(self).bh,
            final(self).color == old(self).color,
            final(self).len == old(self).len,
            final(self).rev == !old(self).rev,
            *final(self) == old(self).toggled(),
    {
        self.rev = !self.rev;
        proof {
            reveal(Node::elems);
            lemma_sum_reverse(old(self).elems());
            let inner = affine_seq(tree_elems(self.left), self.c1@, self.c0@) + seq![self.value@]
                + affine_seq(tree_elems(self.right), self.c1@, self.c0@);
            lemma_reverse_twice(inner);
        }
    }

    /// Applies `v -> c1 * v + c0` to every value of the subtree.
    fn apply(&mut self, c1: Fp, c0: Fp)
        requires
            old(self).meta_ok(),
        ensures
            final(self).meta_ok(),
            final(self).elems() == affine_seq(old(self).elems(), c1@, c0@),
            final(self).bh == old(self).bh,
            final(self).color == old(self).color,
            final(self).len == old(self).len,
            final(self).rev == old(self).rev,
            final(self).left == old(self).left,
            final(self).right == old(self).right,
            *final(self) == old(self).applied(c1, c0),
    {
        let ghost before = *self;
        self.value = c1.mul(self.value).add(c0);
        self.sum = c1.mul(self.sum).add(c0.mul(Fp::new(self.len as u64)));
        let d1 = c1.mul(self.c1);
        let d0 = c1.mul(self.c0).add(c0);
        self.c1 = d1;
        self.c0 = d0;
        proof {
            reveal(Node::elems);
            let m = P as int;
            let l = tree_elems(self.left);
            let r = tree_elems(self.right);
            let (b1, b0) = (before.c1@, before.c0@);
            let v = before.value@;
            c0.lemma_in_range();
            // tags compose
            lemma_add_mod_noop(c1@ * b0, c0@, m);
            lemma_small_mod(c0@ as nat, P as nat);
            assert(d0@ == residue(c1@ * b0 + c0@));
            assert(d1@ == residue(c1@ * b1));
            lemma_affine_seq_compose(l, b1, b0, c1@, c0@);
            lemma_affine_seq_compose(r, b1, b0, c1@, c0@);
            // the value
            lemma_add_mod_noop(c1@ * v, c0@, m);
            assert(self.value@ == affine_value(v, c1@, c0@));
            // the sequence
            let bl = affine_seq(l, b1, b0);
            let br = affine_seq(r, b1, b0);
            let mid = bl + seq![v] + br;
            lemma_affine_seq_concat(bl + seq![v], br, c1@, c0@);
            lemma_affine_seq_concat(bl, seq![v], c1@, c0@);
            assert(affine_seq(seq![v], c1@, c0@) =~= seq![affine_value(v, c1@, c0@)]);
            lemma_affine_seq_reverse(mid, c1@, c0@);
            assert(self.elems() == affine_seq(before.elems(), c1@, c0@));
            // the aggregate
            let total = seq_sum(before.elems());
            lemma_sum_affine(before.elems(), c1@, c0@);
            lemma_small_mod(self.len as nat, 0x1_0000_0000_0000_0000);
            let n = before.len as int;
            assert((self.len as u64) as int == n);
            lemma_add_mod_noop(c1@ * (total % m), c0@ * (n % m), m);
            lemma_mul_mod_noop(c1@, total, m);
            c1.lemma_in_range();
            lemma_small_mod(c1@ as nat, P as nat);
            lemma_mul_mod_noop(c0@, n, m);
            lemma_add_mod_noop(c1@ * total, c0@ * n, m);
            lemma_add_mod_noop((c1@ * (total % m)) % m, (c0@ * (n % m)) % m, m);
            lemma_add_mod_noop(c1@ * (total % m), (c0@ * (n % m)) % m, m);
        }
    }
}

fn tree_toggle(t: &mut Option<Box<Node>>)
    requires
        tree_meta_ok(*old(t)),
    ensures
        tree_meta_ok(*final(t)),
        tree_llrb(*old(t)) ==> tree_llrb(*final(t)),
        tree_elems(*final(t)) == tree_elems(*old(t)).reverse(),
        tree_total(*final(t)) == tree_total(*old(t)),
        tree_bh(*final(t)) == tree_bh(*old(t)),
        tree_color(*final(t)) == tree_color(*old(t)),
        tree_len(*final(t)) == tree_len(*old(t)),
        *final(t) == tree_toggled(*old(t)),
{
    match t.as_mut() {
        Some(n) => {
            n.toggle();
        },
        None => {
            assert(Seq::<int>::empty().reverse() =~= Seq::<int>::empty());
        },
    }
}

fn tree_apply(t: &mut Option<Box<Node>>, c1: Fp, c0: Fp)
    requires
        tree_meta_ok(*old(t)),
    ensures
        tree_meta_ok(*final(t)),
        tree_llrb(*old(t)) ==> tree_llrb(*final(t)),
        tree_elems(*final(t)) == affine_seq(tree_elems(*old(t)), c1@, c0@),
        tree_total(*final(t)) == tree_total(*old(t)),
        tree_bh(*final(t)) == tree_bh(*old(t)),
        tree_color(*final(t)) == tree_color(*old(t)),
        tree_len(*final(t)) == tree_len(*old(t)),
        *final(t) == tree_applied(*old(t), c1, c0),
{
    match t.as_mut() {
        Some(n) => {
            n.apply(c1, c0);
        },
        None => {
            assert(affine_seq(Seq::<int>::empty(), c1@, c0@) =~= Seq::<int>::empty());
        },
    }
}

/// Paints the root of a subtree black.
fn blacken(t: &mut Option<Box<Node>>)
    requires
        tree_llrb(*old(t)),
    ensures
        tree_llrb(*final(t)),
        tree_elems(*final(t)) == tree_elems(*old(t)),
        tree_len(*final(t)) == tree_len(*old(t)),
        tree_bh(*final(t)) == tree_bh(*old(t)),
        tree_color(*final(t)) == Color::Black,
        tree_total(*final(t)) == tree_bh(*final(t)) + 1,
        *final(t) == tree_painted(*old(t), Color::Black),
{
    match t.as_mut() {
        Some(n) => {
            proof {
                reveal(Node::elems);
            }
            n.color = Color::Black;
        },
        None => {},
    }
}

/// Paints the root of a subtree in the given colour; nothing else changes.
fn paint(t: &mut Option<Box<Node>>, c: Color)
    requires
        *old(t) is Some,
    ensures
        *final(t) is Some,
        final(t).unwrap().color == c,
        final(t).unwrap().value == old(t).unwrap().value,
        final(t).unwrap().left == old(t).unwrap().left,
        final(t).unwrap().right == old(t).unwrap().right,
        final(t).unwrap().bh == old(t).unwrap().bh,
        final(t).unwrap().len == old(t).unwrap().len,
        final(t).unwrap().is_pushed() == old(t).unwrap().is_pushed(),
        final(t).unwrap().elems() == old(t).unwrap().elems(),
        final(t).unwrap().inner() == old(t).unwrap().inner(),
        old(t).unwrap().meta_ok() ==> final(t).unwrap().meta_ok(),
        tree_elems(*final(t)) == tree_elems(*old(t)),
        tree_len(*final(t)) == tree_len(*old(t)),
        tree_bh(*final(t)) == tree_bh(*old(t)),
        tree_color(*final(t)) == c,
        *final(t) == tree_painted(*old(t), c),
{
    match t.as_mut() {
        Some(n) => {
            proof {
                reveal(Node::elems);
            }
            n.color = c;
        },
        None => {},
    }
}

/// The values of a node are its children's values under its affine tag around its own value,
/// read backwards under a pending reversal.
proof fn lemma_elems_unfold(n: Node)
    ensures
        n.elems() == oriented(
            affine_seq(tree_elems(n.left), n.c1@, n.c0@) + seq![n.value@] + affine_seq(
                tree_elems(n.right),
                n.c1@,
                n.c0@,
            ),
            n.rev,
        ),
{
    reveal(Node::elems);
}

/// Hands the pending affine map down to the children.
fn push_affine(mut x: Box<Node>) -> (z: Box<Node>)
    requires
        tree_llrb(x.left),
        tree_llrb(x.right),
        x.meta_ok(),
    ensures
        z.c1@ == 1,
        z.c0@ == 0,
        z.rev == x.rev,
        z.meta_ok(),
        tree_llrb(z.left),
        tree_llrb(z.right),
        z.elems() == x.elems(),
        z.color == x.color,
        z.bh == x.bh,
        z.len == x.len,
        z.value == x.value,
        tree_color(z.left) == tree_color(x.left),
        tree_color(z.right) == tree_color(x.right),
        tree_total(z.left) == tree_total(x.left),
        tree_total(z.right) == tree_total(x.right),
        tree_len(z.left) == tree_len(x.left),
        tree_len(z.right) == tree_len(x.right),
        x.is_pushed() ==> z == x,
        *z == x.eased(),
{
    proof {
        lemma_elems_unfold(*x);
        lemma_tree_len(x.left);
        lemma_tree_len(x.right);
    }
    if x.c1.value() != 1 || x.c0.value() != 0 {
        let c1 = x.c1;
        let c0 = x.c0;
        tree_apply(&mut x.left, c1, c0);
        tree_apply(&mut x.right, c1, c0);
        x.c1 = Fp::new(1);
        x.c0 = Fp::new(0);
        proof {
            lemma_small_mod(1, P as nat);
            lemma_small_mod(0, P as nat);
            lemma_tree_canonical(x.left);
            lemma_tree_canonical(x.right);
            lemma_affine_seq_identity(tree_elems(x.left));
            lemma_affine_seq_identity(tree_elems(x.right));
            lemma_elems_unfold(*x);
        }
    }
    x
}

/// Hands both pending tags down to the children. Where a pending reversal would turn a
/// red left child into a right child, that child is lifted above the node first, so the
/// root of the subtree may change.
#[verifier::rlimit(40)]
fn push(x: Box<Node>) -> (z: Box<Node>)
    requires
        tree_llrb(x.left),
        tree_llrb(x.right),
        x.meta_ok(),
        x.rev ==> tree_total(x.left) == tree_total(x.right) && tree_color(x.right)
            == Color::Black,
    ensures
        z.is_pushed(),
        z.meta_ok(),
        tree_llrb(z.left),
        tree_llrb(z.right),
        z.elems() == x.elems(),
        z.color == x.color,
        z.bh == x.bh,
        z.len == x.len,
        tree_color(z.left) == tree_color(x.left),
        tree_color(z.right) == tree_color(x.right),
        tree_total(z.left) == tree_total(x.left),
        tree_total(z.right) == tree_total(x.right),
        x.is_pushed() ==> z == x,
        x.node_ok() ==> z.node_ok(),
        x.llrb() ==> z.llrb(),
        *z == pushed(*x),
    decreases x.len, 1int,
{
    proof {
        reveal(pushed);
        reveal(rotated_right);
        lemma_tree_len(x.left);
    }
    let mut x = push_affine(x);
    if x.rev {
        let ghost x1 = *x;
        proof {
            lemma_elems_unfold(x1);
            lemma_tree_canonical(x.left);
            lemma_tree_canonical(x.right);
            lemma_affine_seq_identity(tree_elems(x.left));
            lemma_affine_seq_identity(tree_elems(x.right));
            lemma_sum_reverse(x1.inner());
            lemma_reverse_twice(x1.inner());
            lemma_tree_len(x.left);
            lemma_tree_len(x.right);
        }
        x.rev = false;
        proof {
            lemma_pushed_elems(*x);
            assert(x.inner() == x1.inner());
            assert(x1.elems() == x1.inner().reverse());
        }
        if color(&x.left) == Color::Red {
            let yl = x.left.take().unwrap();
            let y = push(yl);
            x.left = Some(y);
            proof {
                lemma_tree_len(x.left);
            }
            x = rotate_right(x);
            proof {
                lemma_tree_len(x.left);
            }
        }
        let ghost mid = *x;
        proof {
            lemma_pushed_elems(mid);
        }
        x = flip_children(x);
    }
    x
}

/// Swaps the children of a pushed node and marks both as to be read backwards.
fn flip_children(mut x: Box<Node>) -> (z: Box<Node>)
    requires
        x.is_pushed(),
        x.meta_ok(),
        tree_meta_ok(x.left),
        tree_meta_ok(x.right),
        tree_total(x.left) == tree_total(x.right),
    ensures
        z.is_pushed(),
        z.meta_ok(),
        z.elems() == x.elems().reverse(),
        z.color == x.color,
        z.bh == x.bh,
        z.len == x.len,
        tree_llrb(x.right) ==> tree_llrb(z.left),
        tree_llrb(x.left) ==> tree_llrb(z.right),
        tree_color(z.left) == tree_color(x.right),
        tree_color(z.right) == tree_color(x.left),
        tree_total(z.left) == tree_total(x.right),
        tree_total(z.right) == tree_total(x.left),
        *z == x.flipped(),
{
    let ghost mid = *x;
    proof {
        lemma_pushed_elems(mid);
    }
    std::mem::swap(&mut x.left, &mut x.right);
    tree_toggle(&mut x.left);
    tree_toggle(&mut x.right);
    proof {
        let ml = tree_elems(mid.left);
        let mr = tree_elems(mid.right);
        let mv = mid.value@;
        lemma_reverse_concat(ml + seq![mv], mr);
        lemma_reverse_concat(ml, seq![mv]);
        assert(seq![mv].reverse() =~= seq![mv]);
        assert(x.inner() =~= (ml + seq![mv] + mr).reverse());
        lemma_pushed_elems(*x);
        lemma_sum_reverse(mid.inner());
    }
    x
}

/// Makes the left child the root of the subtree, keeping the order of the values; the
/// new root takes the colour of the old one, which turns red.
#[verifier::rlimit(40)]
fn rotate_right(mut x: Box<Node>) -> (z: Box<Node>)
    requires
        x.is_pushed(),
        x.left is Some,
        tree_meta_ok(x.right),
        tree_llrb(x.left.unwrap().left),
        tree_llrb(x.left.unwrap().right),
        x.left.unwrap().meta_ok(),
        x.left.unwrap().rev ==> tree_total(x.left.unwrap().left) == tree_total(
            x.left.unwrap().right,
        ) && tree_color(x.left.unwrap().right) == Color::Black,
        tree_len(x.left) + tree_len(x.right) < usize::MAX,
        x.len == 1 + tree_len(x.left) + tree_len(x.right),
    ensures
        z.is_pushed(),
        z.meta_ok(),
        z.elems() == x.inner(),
        z.color == x.color,
        z.len == x.len,
        tree_llrb(z.left),
        z.right is Some,
        z.right.unwrap().color == Color::Red,
        z.right.unwrap().value == x.value,
        z.right.unwrap().is_pushed(),
        z.right.unwrap().meta_ok(),
        z.right.unwrap().right == x.right,
        tree_llrb(z.right.unwrap().left),
        tree_color(z.left) == tree_color(x.left.unwrap().left),
        tree_color(z.right.unwrap().left) == tree_color(x.left.unwrap().right),
        tree_total(z.left) == tree_total(x.left.unwrap().left),
        tree_total(z.right.unwrap().left) == tree_total(x.left.unwrap().right),
        *z == rotated_right(*x),
    decreases x.len, 0int,
{
    proof {
        reveal(rotated_right);
        reveal(pushed);
    }
    let ghost x0 = *x;
    let y0 = x.left.take().unwrap();
    let mut y = push(y0);
    proof {
        lemma_pushed_elems(*y);
        lemma_tree_len(y.left);
        lemma_tree_len(y.right);
        lemma_tree_bh_bound(y.left);
        lemma_tree_bh_bound(y.right);
    }
    let ghost (yl, yv, yr) = (tree_elems(y.left), y.value@, tree_elems(y.right));
    x.left = y.right.take();
    y.color = x.color;
    x.color = Color::Red;
    x.update();
    y.right = Some(x);
    y.update();
    proof {
        lemma_concat_shift(yl, yv, yr, x0.value@, tree_elems(x0.right));
    }
    y
}

/// Makes the right child the root of the subtree, keeping the order of the values; the
/// new root takes the colour of the old one, which turns red.
#[verifier::rlimit(40)]
fn rotate_left(mut x: Box<Node>) -> (z: Box<Node>)
    requires
        x.is_pushed(),
        x.right is Some,
        tree_llrb(x.left),
        tree_llrb(x.right.unwrap().left),
        tree_llrb(x.right.unwrap().right),
        x.right.unwrap().meta_ok(),
        x.right.unwrap().rev ==> tree_total(x.right.unwrap().left) == tree_total(
            x.right.unwrap().right,
        ) && tree_color(x.right.unwrap().right) == Color::Black,
        tree_len(x.left) + tree_len(x.right) < usize::MAX,
    ensures
        z.is_pushed(),
        z.meta_ok(),
        z.elems() == x.inner(),
        z.color == x.color,
        tree_llrb(z.right),
        z.left is Some,
        z.left.unwrap().color == Color::Red,
        z.left.unwrap().value == x.value,
        z.left.unwrap().is_pushed(),
        z.left.unwrap().meta_ok(),
        z.left.unwrap().left == x.left,
        tree_llrb(z.left.unwrap().right),
        tree_color(z.right) == tree_color(x.right.unwrap().right),
        tree_color(z.left.unwrap().right) == tree_color(x.right.unwrap().left),
        tree_total(z.right) == tree_total(x.right.unwrap().right),
        tree_total(z.left.unwrap().right) == tree_total(x.right.unwrap().left),
        *z == rotated_left(*x),
{
    proof {
        reveal(rotated_left);
    }
    let ghost x0 = *x;
    let y0 = x.right.take().unwrap();
    let mut y = push(y0);
    proof {
        lemma_pushed_elems(*y);
        lemma_tree_len(x.left);
        lemma_tree_len(y.left);
        lemma_tree_len(y.right);
        lemma_tree_bh_bound(x.left);
        lemma_tree_bh_bound(y.left);
    }
    let ghost (yl, yv, yr) = (tree_elems(y.left), y.value@, tree_elems(y.right));
    x.right = y.left.take();
    y.color = x.color;
    x.color = Color::Red;
    x.update();
    proof {
        lemma_tree_bh_bound(x.left);
    }
    y.left = Some(x);
    y.update();
    proof {
        lemma_concat_shift(tree_elems(x0.left), x0.value@, yl, yv, yr);
    }
    y
}

/// The subtree meets the invariants below its root and has no red right child at the root;
/// its root may be red with a red left child.
pub closed spec fn tree_almost(t: Option<Box<Node>>) -> bool {
    match t {
        None => true,
        Some(n) => n.node_ok() && tree_color(n.right) == Color::Black,
    }
}

/// The colour of the left child of the root; black where there is none.
pub closed spec fn tree_left_color(t: Option<Box<Node>>) -> Color {
    match t {
        None => Color::Black,
        Some(n) => tree_color(n.left),
    }
}

fn left_color(x: &Option<Box<Node>>) -> (c: Color)
    ensures
        c == tree_left_color(*x),
{
    match x {
        None => Color::Black,
        Some(n) => color(&n.left),
    }
}

/// Turns a black node with two red children into a red node with two black children.
fn split_four_node(x: &mut Box<Node>)
    requires
        old(x).left is Some,
        old(x).right is Some,
        old(x).bh < 255,
    ensures
        final(x).color == Color::Red,
        final(x).bh == old(x).bh + 1,
        final(x).len == old(x).len,
        final(x).value == old(x).value,
        final(x).is_pushed() == old(x).is_pushed(),
        final(x).elems() == old(x).elems(),
        final(x).inner() == old(x).inner(),
        final(x).left is Some,
        final(x).right is Some,
        tree_color(final(x).left) == Color::Black,
        tree_color(final(x).right) == Color::Black,
        final(x).left.unwrap().is_pushed() == old(x).left.unwrap().is_pushed(),
        final(x).right.unwrap().is_pushed() == old(x).right.unwrap().is_pushed(),
        tree_len(final(x).left) == tree_len(old(x).left),
        tree_len(final(x).right) == tree_len(old(x).right),
        tree_elems(final(x).left) == tree_elems(old(x).left),
        tree_elems(final(x).right) == tree_elems(old(x).right),
        final(x).left.unwrap().value == old(x).left.unwrap().value,
        final(x).right.unwrap().value == old(x).right.unwrap().value,
        final(x).left.unwrap().left == old(x).left.unwrap().left,
        final(x).left.unwrap().right == old(x).left.unwrap().right,
        final(x).right.unwrap().left == old(x).right.unwrap().left,
        final(x).right.unwrap().right == old(x).right.unwrap().right,
        tree_bh(final(x).left) == tree_bh(old(x).left),
        tree_bh(final(x).right) == tree_bh(old(x).right),
        tree_meta_ok(old(x).left) ==> tree_meta_ok(final(x).left),
        tree_meta_ok(old(x).right) ==> tree_meta_ok(final(x).right),
        old(x).meta_ok() && tree_color(old(x).left) == Color::Red ==> final(x).meta_ok(),
        **final(x) == old(x).four_split(),
{
    proof {
        lemma_elems_unfold(**x);
    }
    x.color = Color::Red;
    paint(&mut x.left, Color::Black);
    paint(&mut x.right, Color::Black);
    x.bh += 1;
    proof {
        lemma_elems_unfold(**x);
    }
}

/// Turns a node with two black children into a black node with two red children.
fn join_two_nodes(x: &mut Box<Node>)
    requires
        old(x).left is Some,
        old(x).right is Some,
        old(x).bh >= 1,
    ensures
        final(x).color == Color::Black,
        final(x).bh == old(x).bh - 1,
        final(x).len == old(x).len,
        final(x).value == old(x).value,
        final(x).is_pushed() == old(x).is_pushed(),
        final(x).elems() == old(x).elems(),
        final(x).inner() == old(x).inner(),
        final(x).left is Some,
        final(x).right is Some,
        tree_color(final(x).left) == Color::Red,
        tree_color(final(x).right) == Color::Red,
        final(x).left.unwrap().value == old(x).left.unwrap().value,
        final(x).right.unwrap().value == old(x).right.unwrap().value,
        final(x).left.unwrap().left == old(x).left.unwrap().left,
        final(x).left.unwrap().right == old(x).left.unwrap().right,
        final(x).right.unwrap().left == old(x).right.unwrap().left,
        final(x).right.unwrap().right == old(x).right.unwrap().right,
        final(x).left.unwrap().is_pushed() == old(x).left.unwrap().is_pushed(),
        final(x).right.unwrap().is_pushed() == old(x).right.unwrap().is_pushed(),
        tree_bh(final(x).left) == tree_bh(old(x).left),
        tree_bh(final(x).right) == tree_bh(old(x).right),
        tree_len(final(x).left) == tree_len(old(x).left),
        tree_len(final(x).right) == tree_len(old(x).right),
        tree_elems(final(x).left) == tree_elems(old(x).left),
        tree_elems(final(x).right) == tree_elems(old(x).right),
        tree_meta_ok(old(x).left) ==> tree_meta_ok(final(x).left),
        tree_meta_ok(old(x).right) ==> tree_meta_ok(final(x).right),
        old(x).meta_ok() && tree_color(old(x).left) == Color::Black ==> final(x).meta_ok(),
        **final(x) == old(x).two_joined(),
{
    proof {
        lemma_elems_unfold(**x);
    }
    x.color = Color::Black;
    paint(&mut x.left, Color::Red);
    paint(&mut x.right, Color::Red);
    x.bh -= 1;
    proof {
        lemma_elems_unfold(**x);
    }
}

/// Restores the colour invariants at `x` after one child has been rebuilt: a red right
/// child is lifted above `x`, a red left child with a red left child of its own is lifted
/// above `x`, and two red children pass their colour up.
#[verifier::rlimit(40)]
fn fixup(mut x: Box<Node>) -> (z: Box<Node>)
    requires
        x.is_pushed(),
        x.meta_ok(),
        tree_total(x.left) == tree_total(x.right),
        tree_llrb(x.right),
        tree_almost(x.left),
        !tree_llrb(x.left) ==> x.color == Color::Black && tree_color(x.right) == Color::Black,
        tree_color(x.right) == Color::Red ==> x.color == Color::Black,
        tree_len(x.left) + tree_len(x.right) < usize::MAX,
    ensures
        z.is_pushed(),
        z.node_ok(),
        tree_color(z.right) == Color::Black,
        z.elems() == x.elems(),
        z.len == x.len,
        tree_total(Some(z)) == tree_total(Some(x)),
        x.color == Color::Black ==> z.llrb(),
        x.color == Color::Red ==> z.color == Color::Red,
        tree_color(x.left) == Color::Black && tree_color(x.right) == Color::Black ==> z.llrb(),
        tree_color(x.right) == Color::Black && (tree_color(x.left) == Color::Black
            || tree_left_color(x.left) == Color::Black) ==> z == x,
        *z == fixed(*x),
{
    let ghost x0 = *x;
    proof {
        reveal(fixed);
        lemma_pushed_elems(x0);
        lemma_tree_len(x.right);
        lemma_tree_bh_bound(x.right);
        if tree_llrb(x.left) {
            lemma_tree_len(x.left);
        }
    }
    if color(&x.right) == Color::Red {
        proof {
            lemma_tree_len(x.right.unwrap().left);
            lemma_tree_len(x.right.unwrap().right);
        }
        x = rotate_left(x);
        proof {
            lemma_pushed_elems(*x);
            lemma_tree_len(x.right);
            lemma_tree_len(x.left.unwrap().left);
            lemma_tree_len(x.left.unwrap().right);
        }
    }
    if color(&x.left) == Color::Red && left_color(&x.left) == Color::Red {
        proof {
            lemma_tree_len(x.left.unwrap().left);
            lemma_tree_len(x.left.unwrap().right);
        }
        x = rotate_right(x);
        proof {
            lemma_pushed_elems(*x);
            lemma_tree_len(x.left);
            lemma_tree_len(x.right.unwrap().left);
            lemma_tree_len(x.right.unwrap().right);
        }
    }
    if color(&x.left) == Color::Red && color(&x.right) == Color::Red {
        proof {
            lemma_tree_bh_bound(x.right);
        }
        split_four_node(&mut x);
    }
    proof {
        if x0.color == Color::Black || (tree_color(x0.left) == Color::Black && tree_color(
            x0.right,
        ) == Color::Black) {
            assert(tree_llrb(x.left));
            assert(tree_llrb(x.right));
            assert(tree_total(x.left) == tree_total(x.right));
            assert(tree_color(x.right) == Color::Black);
            assert(x.color == Color::Red ==> tree_color(x.left) == Color::Black);
            assert(x.meta_ok());
        }
    }
    x
}

/// Joins `l`, the single node `c` and `r`, in that order, below the root of the higher of
/// the two trees. The result may have a red root, and below a red root a red left child.
#[verifier::rlimit(40)]
fn merge_recurse(l: Option<Box<Node>>, mut c: Box<Node>, r: Option<Box<Node>>) -> (z: Box<
    Node,
>)
    requires
        tree_llrb(l),
        tree_llrb(r),
        tree_color(l) == Color::Black,
        tree_color(r) == Color::Red ==> tree_bh(l) < tree_bh(r),
        c.is_single(),
        c.is_pushed(),
        tree_len(l) + tree_len(r) < usize::MAX,
    ensures
        z.is_pushed(),
        z.node_ok(),
        tree_color(z.right) == Color::Black,
        z.elems() == tree_elems(l) + seq![c.spec_value()] + tree_elems(r),
        tree_bh(l) < tree_bh(r) ==> tree_total(Some(z)) == tree_total(r) && (tree_color(r)
            == Color::Black ==> z.llrb()) && (tree_color(r) == Color::Red ==> z.color
            == Color::Red),
        tree_bh(l) >= tree_bh(r) ==> tree_total(Some(z)) == tree_total(l) && z.llrb(),
        tree_bh(l) == tree_bh(r) ==> z.color == Color::Red,
        tree_bh(l) == tree_bh(r) ==> z.left == l && z.right == r && z.value == c.value,
        *z == joined3(l, *c, r),
    decreases tree_len(l) + tree_len(r),
{
    proof {
        reveal(joined3);
    }
    let bl = bh(&l);
    let br = bh(&r);
    proof {
        lemma_tree_len(l);
        lemma_tree_len(r);
        lemma_tree_bh_bound(l);
        lemma_tree_bh_bound(r);
    }
    if bl < br {
        let r0 = r.unwrap();
        let mut r = push(r0);
        proof {
            lemma_pushed_elems(*r);
            lemma_tree_len(r.left);
            lemma_tree_len(r.right);
            lemma_tree_bh_bound(r.left);
        }
        let ghost (rl_e, rv, rr_e) = (tree_elems(r.left), r.value@, tree_elems(r.right));
        let rl = r.left.take();
        let ghost rl0 = rl;
        let t = merge_recurse(l, c, rl);
        proof {
            lemma_concat_shift(tree_elems(l), c.spec_value(), rl_e, rv, rr_e);
            assert(tree_total(Some(t)) == tree_total(rl0));
        }
        r.left = Some(t);
        r.update();
        fixup(r)
    } else if bl == br {
        c.left = l;
        c.right = r;
        c.color = Color::Red;
        c.update();
        fixup(c)
    } else {
        let l0 = l.unwrap();
        let mut l = push(l0);
        proof {
            lemma_pushed_elems(*l);
            lemma_tree_len(l.left);
            lemma_tree_len(l.right);
            lemma_tree_bh_bound(l.left);
        }
        let ghost (ll_e, lv, lr_e) = (tree_elems(l.left), l.value@, tree_elems(l.right));
        let lr = l.right.take();
        let ghost lr0 = lr;
        let t = merge_recurse(lr, c, r);
        proof {
            lemma_concat_shift(ll_e, lv, lr_e, c.spec_value(), tree_elems(r));
            assert(tree_total(Some(t)) == tree_total(lr0));
            assert(t.llrb());
        }
        l.right = Some(t);
        l.update();
        fixup(l)
    }
}

/// Joins `l`, the single node `c` and `r` into one tree with a black root, in that order.
#[verifier::rlimit(40)]
pub fn merge3(l: Option<Box<Node>>, c: Box<Node>, r: Option<Box<Node>>) -> (z: Box<Node>)
    requires
        tree_llrb(l),
        tree_llrb(r),
        tree_color(l) == Color::Black,
        tree_color(r) == Color::Black,
        c.is_single(),
        c.is_pushed(),
        tree_len(l) + tree_len(r) < usize::MAX,
    ensures
        z.llrb(),
        tree_color(Some(z)) == Color::Black,
        z.elems() == tree_elems(l) + seq![c.spec_value()] + tree_elems(r),
        tree_len(Some(z)) == tree_len(l) + 1 + tree_len(r),
        tree_bh(l) == tree_bh(r) ==> z.spec_left() == l && z.spec_right() == r
            && z.spec_value() == c.spec_value(),
        *z == merged3(l, *c, r),
{
    let mut root = merge_recurse(l, c, r);
    proof {
        lemma_elems_unfold(*root);
    }
    root.color = Color::Black;
    proof {
        lemma_elems_unfold(*root);
    }
    root
}

/// What a walk down needs of the node it stands on: no pending tag, sound children of equal
/// black height, a summary that agrees with them, and a red right child only where the walk
/// goes on into it.
pub closed spec fn walkable(x: Node, index: nat) -> bool {
    &&& x.is_pushed()
    &&& x.node_ok()
    &&& index < x.len
    &&& (tree_color(x.right) == Color::Red ==> index > tree_len(x.left))
}

/// A painted subtree that was sound below its root and had no red right child at its root
/// is sound once its root is black.
proof fn lemma_black_root(before: Option<Box<Node>>, after: Option<Box<Node>>)
    requires
        tree_almost(before),
        before is Some,
        after is Some,
        after.unwrap().left == before.unwrap().left,
        after.unwrap().right == before.unwrap().right,
        after.unwrap().meta_ok(),
        after.unwrap().color == Color::Black,
    ensures
        tree_llrb(after),
{
}

/// Makes the left child of `x` red when it is a black node with a black left child, taking
/// a red node over from the right where the right child has one to give.
#[verifier::rlimit(40)]
fn move_red_left(mut x: Box<Node>) -> (z: Box<Node>)
    requires
        x.is_pushed(),
        x.node_ok(),
        x.left is Some,
        x.right is Some,
        x.left.unwrap().is_pushed(),
        tree_color(x.left) == Color::Black,
        tree_left_color(x.left) == Color::Black,
        tree_color(x.right) == Color::Black,
    ensures
        z.is_pushed(),
        z.inner() == x.inner(),
        z.len == x.len,
        z.left is Some,
        z.right is Some,
        tree_len(z.left) >= tree_len(x.left),
        tree_len(z.left) < z.len,
        z.len == 1 + tree_len(z.left) + tree_len(z.right),
        z.left.unwrap().is_pushed(),
        z.left.unwrap().node_ok(),
        tree_color(z.left.unwrap().right) == Color::Black,
        tree_almost(z.right),
        z.right.unwrap().meta_ok(),
        tree_color(z.left) == Color::Red || tree_left_color(z.left) == Color::Red,
        tree_left_color(x.right) == Color::Black ==> z.color == Color::Black && tree_color(
            z.left,
        ) == Color::Red && tree_color(z.right) == Color::Red && z.bh == x.bh - 1
            && z.spec_value() == x.spec_value() && tree_elems(z.left) == tree_elems(x.left)
            && tree_elems(z.right) == tree_elems(x.right),
        tree_left_color(x.right) == Color::Red ==> z.color == Color::Red && tree_color(z.left)
            == Color::Black && tree_left_color(z.left) == Color::Red && tree_color(z.right)
            == Color::Black && z.bh == x.bh && z.left.unwrap().spec_value() == x.spec_value()
            && tree_elems(z.left.unwrap().left) == tree_elems(x.left),
        *z == moved_red_left(*x),
{
    proof {
        reveal(moved_red_left);
    }
    let ghost x0 = *x;
    proof {
        lemma_pushed_elems(x0);
        lemma_tree_len(x.left);
        lemma_tree_len(x.right);
        lemma_tree_bh_bound(x.left);
        lemma_tree_bh_bound(x.right);
    }
    let xr = x.right.take().unwrap();
    let xr = push(xr);
    proof {
        lemma_pushed_elems(*xr);
        lemma_tree_len(xr.left);
        lemma_tree_len(xr.right);
    }
    x.right = Some(xr);
    let ghost x1 = *x;
    join_two_nodes(&mut x);
    proof {
        lemma_pushed_elems(*x);
        lemma_tree_len(x1.left.unwrap().left);
        lemma_tree_len(x1.left.unwrap().right);
    }
    if left_color(&x.right) == Color::Red {
        let r = x.right.take().unwrap();
        proof {
            lemma_pushed_elems(*r);
            lemma_tree_len(r.left);
            lemma_tree_len(r.right);
            lemma_tree_len(r.left.unwrap().left);
            lemma_tree_len(r.left.unwrap().right);
        }
        let r2 = rotate_right(r);
        proof {
            lemma_pushed_elems(*r2);
            lemma_tree_len(r2.left);
            lemma_pushed_elems(*r2.right.unwrap());
            lemma_tree_len(r2.right.unwrap().left);
            lemma_tree_len(r2.right.unwrap().right);
            assert(r2.right.unwrap().llrb());
        }
        x.right = Some(r2);
        proof {
            assert(x.left.unwrap().llrb());
        }
        x = rotate_left(x);
        proof {
            lemma_pushed_elems(*x);
            lemma_tree_bh_bound(x.right);
            lemma_tree_len(x.right);
        }
        split_four_node(&mut x);
    }
    x
}

/// Makes the right child of `x` red when it is a black node with a black left child, taking
/// a red node over from the left where the left child has one to give.
#[verifier::rlimit(40)]
fn move_red_right(mut x: Box<Node>) -> (z: Box<Node>)
    requires
        x.is_pushed(),
        x.node_ok(),
        x.left is Some,
        x.right is Some,
        x.right.unwrap().is_pushed(),
        tree_color(x.left) == Color::Black,
        tree_color(x.right) == Color::Black,
        tree_left_color(x.right) == Color::Black,
    ensures
        z.is_pushed(),
        z.inner() == x.inner(),
        z.len == x.len,
        z.left is Some,
        z.right is Some,
        z.len == 1 + tree_len(z.left) + tree_len(z.right),
        tree_len(z.left) <= tree_len(x.left),
        tree_almost(z.left),
        z.left.unwrap().meta_ok(),
        z.right.unwrap().is_pushed(),
        z.right.unwrap().node_ok(),
        tree_color(z.right.unwrap().right) == Color::Red ==> tree_len(z.left) + 1 + tree_len(
            z.right.unwrap().left,
        ) == tree_len(x.left),
        tree_color(z.right) == Color::Red || tree_color(z.right.unwrap().right) == Color::Red,
        tree_left_color(x.left) == Color::Black ==> z.color == Color::Black && tree_color(
            z.left,
        ) == Color::Red && tree_color(z.right) == Color::Red && z.bh == x.bh - 1
            && z.spec_value() == x.spec_value() && tree_elems(z.left) == tree_elems(x.left)
            && tree_elems(z.right) == tree_elems(x.right),
        tree_left_color(x.left) == Color::Red ==> z.color == Color::Red && tree_color(z.left)
            == Color::Black && tree_color(z.right) == Color::Black && tree_color(
            z.right.unwrap().right,
        ) == Color::Red && z.bh == x.bh && z.right.unwrap().spec_value() == x.spec_value()
            && tree_elems(z.right.unwrap().right) == tree_elems(x.right),
        *z == moved_red_right(*x),
{
    proof {
        reveal(moved_red_right);
    }
    let ghost x0 = *x;
    proof {
        lemma_pushed_elems(x0);
        lemma_tree_len(x.left);
        lemma_tree_len(x.right);
        lemma_tree_bh_bound(x.left);
        lemma_tree_bh_bound(x.right);
    }
    let xl = x.left.take().unwrap();
    let xl = push(xl);
    proof {
        lemma_pushed_elems(*xl);
        lemma_tree_len(xl.left);
        lemma_tree_len(xl.right);
    }
    x.left = Some(xl);
    let ghost x1 = *x;
    join_two_nodes(&mut x);
    proof {
        lemma_pushed_elems(*x);
        lemma_tree_len(x1.right.unwrap().left);
        lemma_tree_len(x1.right.unwrap().right);
    }
    if left_color(&x.left) == Color::Red {
        proof {
            lemma_tree_len(x.left.unwrap().left);
            lemma_tree_len(x.left.unwrap().right);
            lemma_tree_len(x.left.unwrap().left.unwrap().left);
            lemma_tree_len(x.left.unwrap().left.unwrap().right);
        }
        x = rotate_right(x);
        proof {
            lemma_pushed_elems(*x);
            lemma_tree_bh_bound(x.left);
            lemma_tree_len(x.left);
        }
        split_four_node(&mut x);
    }
    x
}

/// Gets the node ready for a walk into its left child: pushes the child, and where the
/// child is a black node with a black left child, makes it red.
#[verifier::rlimit(40)]
fn prepare_left(mut x: Box<Node>, Ghost(index): Ghost<nat>) -> (z: Box<Node>)
    requires
        walkable(*x, index),
        index < tree_len(x.left),
    ensures
        z.is_pushed(),
        z.inner() == x.inner(),
        z.len == x.len,
        z.len == 1 + tree_len(z.left) + tree_len(z.right),
        z.left is Some,
        walkable(*z.left.unwrap(), index),
        tree_llrb(z.right),
        tree_color(z.right) == Color::Black,
        *z == prepared_left(*x),
{
    proof {
        reveal(prepared_left);
    }
    let ghost x0 = *x;
    proof {
        lemma_tree_len(x.left);
        lemma_tree_len(x.right);
        lemma_pushed_elems(x0);
    }
    let xl = x.left.take().unwrap();
    let xl = push(xl);
    proof {
        lemma_tree_len(xl.left);
        lemma_tree_len(xl.right);
    }
    x.left = Some(xl);
    proof {
        lemma_pushed_elems(*x);
        assert(x.inner() == x0.inner());
        assert(x.node_ok());
    }
    if color(&x.left) == Color::Black && left_color(&x.left) == Color::Black {
        proof {
            lemma_tree_len(x.left);
        }
        x = move_red_left(x);
        let ghost before = x.right;
        paint(&mut x.right, Color::Black);
        proof {
            lemma_black_root(before, x.right);
        }
    }
    x
}

/// Gets the node ready for a walk into its right child: lifts a red left child above the
/// node, pushes the right child, and where that is a black node with a black left child,
/// makes it red.
#[verifier::rlimit(40)]
fn prepare_right(mut x: Box<Node>, Ghost(index): Ghost<nat>) -> (z: Box<Node>)
    requires
        walkable(*x, index),
        index > tree_len(x.left),
    ensures
        z.is_pushed(),
        z.inner() == x.inner(),
        z.len == x.len,
        z.len == 1 + tree_len(z.left) + tree_len(z.right),
        z.right is Some,
        index > tree_len(z.left),
        walkable(*z.right.unwrap(), (index - tree_len(z.left) - 1) as nat),
        tree_llrb(z.left),
        tree_color(z.left) == Color::Black,
        *z == prepared_right(*x),
{
    proof {
        reveal(prepared_right);
    }
    let ghost x0 = *x;
    proof {
        lemma_tree_len(x.left);
        lemma_tree_len(x.right);
    }
    if color(&x.left) == Color::Red {
        proof {
            lemma_tree_len(x.left.unwrap().left);
            lemma_tree_len(x.left.unwrap().right);
        }
        x = rotate_right(x);
        proof {
            lemma_pushed_elems(*x);
            lemma_pushed_elems(x0);
            lemma_tree_len(x.left);
            lemma_tree_len(x.right.unwrap().left);
            lemma_tree_len(x.right.unwrap().right);
        }
    } else {
        proof {
            lemma_pushed_elems(x0);
        }
        let xr = x.right.take().unwrap();
        let xr = push(xr);
        proof {
            lemma_tree_len(xr.left);
            lemma_tree_len(xr.right);
        }
        x.right = Some(xr);
        proof {
            lemma_pushed_elems(*x);
            assert(x.inner() == x0.inner());
            assert(x.node_ok());
        }
        if color(&x.right) == Color::Black && left_color(&x.right) == Color::Black {
            proof {
                lemma_tree_len(x.left);
                lemma_tree_len(x.right);
            }
            x = move_red_right(x);
            let ghost before = x.left;
            paint(&mut x.left, Color::Black);
            proof {
                lemma_black_root(before, x.left);
            }
        }
    }
    x
}

/// What a split of `whole` at `index` returns.
pub closed spec fn split_result(
    res: (Option<Box<Node>>, Box<Node>, Option<Box<Node>>),
    whole: Seq<int>,
    index: int,
) -> bool {
    &&& tree_llrb(res.0)
    &&& tree_llrb(res.2)
    &&& tree_color(res.0) == Color::Black
    &&& tree_color(res.2) == Color::Black
    &&& res.1.llrb()
    &&& res.1.is_single()
    &&& res.1.is_pushed()
    &&& res.1.spec_value() == whole[index]
    &&& tree_elems(res.0) == whole.subrange(0, index)
    &&& tree_elems(res.2) == whole.subrange(index + 1, whole.len() as int)
}

/// Splits off a node that lies in the left subtree of `x`.
#[verifier::rlimit(40)]
fn split_left(x: Box<Node>, index: usize) -> (res: (
    Option<Box<Node>>,
    Box<Node>,
    Option<Box<Node>>,
))
    requires
        walkable(*x, index as nat),
        index < tree_len(x.left),
    ensures
        split_result(res, x.inner(), index as int),
        (res.0, *res.1, res.2) == walked(*x, index as nat),
    decreases x.len, 0int,
{
    proof {
        reveal(walked);
    }
    let mut x = prepare_left(x, Ghost(index as nat));
    let ghost (le, xv, re) = (tree_elems(x.left), x.value@, tree_elems(x.right));
    proof {
        lemma_tree_len(x.right);
        lemma_cut_left(le, xv, re, index as int);
    }
    let xl = x.left.take().unwrap();
    let (l, removed, r) = split_recurse(xl, index);
    let xr = x.right.take();
    proof {
        lemma_tree_len(r);
    }
    let mut z = merge_recurse(r, x, xr);
    proof {
        lemma_elems_unfold(*z);
    }
    z.color = Color::Black;
    proof {
        lemma_elems_unfold(*z);
    }
    (l, removed, Some(z))
}

/// Splits off a node that lies in the right subtree of `x`.
#[verifier::rlimit(40)]
fn split_right(x: Box<Node>, index: usize) -> (res: (
    Option<Box<Node>>,
    Box<Node>,
    Option<Box<Node>>,
))
    requires
        walkable(*x, index as nat),
        index > tree_len(x.left),
    ensures
        split_result(res, x.inner(), index as int),
        (res.0, *res.1, res.2) == walked(*x, index as nat),
    decreases x.len, 0int,
{
    proof {
        reveal(walked);
    }
    let mut x = prepare_right(x, Ghost(index as nat));
    let ghost (le, xv, re) = (tree_elems(x.left), x.value@, tree_elems(x.right));
    proof {
        lemma_tree_len(x.left);
        lemma_cut_right(le, xv, re, index as int);
    }
    let rlen = size(&x.right);
    let below = index - (x.len - rlen);
    let xr = x.right.take().unwrap();
    let (l, removed, r) = split_recurse(xr, below);
    let xl = x.left.take();
    proof {
        lemma_tree_len(l);
    }
    let mut z = merge_recurse(xl, x, l);
    proof {
        lemma_elems_unfold(*z);
    }
    z.color = Color::Black;
    proof {
        lemma_elems_unfold(*z);
    }
    (Some(z), removed, r)
}

/// Splits off the node at `index` below `x`, joining what the walk passes on either side.
#[verifier::rlimit(40)]
fn split_recurse(mut x: Box<Node>, index: usize) -> (res: (
    Option<Box<Node>>,
    Box<Node>,
    Option<Box<Node>>,
))
    requires
        walkable(*x, index as nat),
    ensures
        split_result(res, x.elems(), index as int),
        (res.0, *res.1, res.2) == walked(*x, index as nat),
    decreases x.len, 1int,
{
    proof {
        reveal(walked);
        lemma_pushed_elems(*x);
        lemma_tree_len(x.left);
        lemma_tree_len(x.right);
    }
    let llen = size(&x.left);
    if index < llen {
        split_left(x, index)
    } else if index == llen {
        let mut l = x.left.take();
        let r = x.right.take();
        proof {
            lemma_cut_middle(tree_elems(l), x.value@, tree_elems(r));
        }
        blacken(&mut l);
        x.color = Color::Red;
        x.update();
        (l, x, r)
    } else {
        split_right(x, index)
    }
}

/// Splits off the node at `index`, returning what lies before it, the node, and what lies after.
#[verifier::rlimit(40)]
pub fn split3(mut x: Box<Node>, index: usize) -> (res: (
    Option<Box<Node>>,
    Box<Node>,
    Option<Box<Node>>,
))
    requires
        x.llrb(),
        index < x.elems().len(),
    ensures
        tree_llrb(res.0),
        tree_llrb(res.2),
        tree_color(res.0) == Color::Black,
        tree_color(res.2) == Color::Black,
        res.1.llrb(),
        res.1.is_single(),
        res.1.is_pushed(),
        res.1.spec_value() == x.elems()[index as int],
        tree_elems(res.0) == x.elems().subrange(0, index as int),
        tree_elems(res.2) == x.elems().subrange(index + 1, x.elems().len() as int),
        tree_len(res.0) == index,
        tree_len(res.0) + 1 + tree_len(res.2) == x.elems().len(),
        tree_len(res.0) + tree_len(res.2) < usize::MAX,
        (res.0, *res.1, res.2) == split3_parts(*x, index as nat),
{
    proof {
        reveal(split3_parts);
        lemma_tree_len(Some(x));
        lemma_elems_unfold(*x);
    }
    if x.color == Color::Black && color(&x.left) == Color::Black {
        x.color = Color::Red;
    }
    proof {
        lemma_elems_unfold(*x);
    }
    let x = push(x);
    split_recurse(x, index)
}

/// Concatenates two trees with black roots.
pub fn merge2(l: Option<Box<Node>>, r: Option<Box<Node>>) -> (z: Option<Box<Node>>)
    requires
        tree_llrb(l),
        tree_llrb(r),
        tree_color(l) == Color::Black,
        tree_color(r) == Color::Black,
        tree_len(l) + tree_len(r) <= usize::MAX,
    ensures
        tree_llrb(z),
        tree_color(z) == Color::Black,
        tree_elems(z) == joined((tree_elems(l), tree_elems(r))),
        tree_len(z) == tree_len(l) + tree_len(r),
        r is None ==> z == l,
        l is None ==> z == r,
        z == merged2(l, r),
{
    proof {
        reveal(merged2);
        lemma_tree_len(l);
        lemma_tree_len(r);
    }
    if l.is_none() {
        assert(tree_elems(l) + tree_elems(r) =~= tree_elems(r));
        return r;
    }
    match r {
        None => {
            assert(tree_elems(l) + tree_elems(r) =~= tree_elems(l));
            l
        },
        Some(r) => {
            let ghost e = r.elems();
            let (_, c, r) = split3(r, 0);
            proof {
                lemma_tree_len(r);
            }
            let z = merge3(l, c, r);
            proof {
                assert(z.elems() =~= tree_elems(l) + e);
            }
            Some(z)
        },
    }
}

/// Splits a tree with a black root into its first `index` values and the rest.
pub fn split2(x: Option<Box<Node>>, index: usize) -> (res: (
    Option<Box<Node>>,
    Option<Box<Node>>,
))
    requires
        tree_llrb(x),
        tree_color(x) == Color::Black,
        index <= tree_elems(x).len(),
    ensures
        tree_llrb(res.0),
        tree_llrb(res.1),
        tree_color(res.0) == Color::Black,
        tree_color(res.1) == Color::Black,
        (tree_elems(res.0), tree_elems(res.1)) == split_at(tree_elems(x), index as int),
        tree_len(res.0) == index,
        tree_len(res.0) + tree_len(res.1) == tree_len(x),
        tree_len(res.0) + tree_len(res.1) <= usize::MAX,
        index == 0 ==> res.0 is None && res.1 == x,
        res == split2_parts(x, index as nat),
{
    proof {
        reveal(split2_parts);
        lemma_tree_len(x);
    }
    if index == 0 {
        proof {
            assert(tree_elems(x).subrange(0, 0) =~= Seq::<int>::empty());
            assert(tree_elems(x).subrange(0, tree_elems(x).len() as int) =~= tree_elems(x));
        }
        return (None, x);
    }
    let ghost e = tree_elems(x);
    let (l, c, r) = split3(x.unwrap(), index - 1);
    proof {
        lemma_tree_len(l);
    }
    let z = merge3(l, c, None);
    proof {
        assert(z.elems() =~= e.subrange(0, index as int));
    }
    (Some(z), r)
}

/// Cuts the tree into what lies before `start`, the range `start..end`, and what lies after.
fn isolate(root: Option<Box<Node>>, start: usize, end: usize) -> (res: (
    Option<Box<Node>>,
    Option<Box<Node>>,
    Option<Box<Node>>,
))
    requires
        tree_llrb(root),
        tree_color(root) == Color::Black,
        start <= end <= tree_elems(root).len(),
    ensures
        tree_llrb(res.0),
        tree_llrb(res.1),
        tree_llrb(res.2),
        tree_color(res.0) == Color::Black,
        tree_color(res.1) == Color::Black,
        tree_color(res.2) == Color::Black,
        tree_elems(res.0) == tree_elems(root).subrange(0, start as int),
        tree_elems(res.1) == tree_elems(root).subrange(start as int, end as int),
        tree_elems(res.2) == tree_elems(root).subrange(end as int, tree_elems(root).len() as int),
        tree_len(res.0) + tree_len(res.1) + tree_len(res.2) == tree_elems(root).len(),
        res == isolated(root, start as nat, end as nat),
{
    proof {
        lemma_isolate(tree_elems(root), start as int, end as int);
    }
    let (lc, r) = split2(root, end);
    let (l, c) = split2(lc, start);
    proof {
        lemma_tree_len(l);
        lemma_tree_len(c);
        lemma_tree_len(r);
    }
    (l, c, r)
}

/// Puts three trees together again, in order.
fn rejoin(l: Option<Box<Node>>, c: Option<Box<Node>>, r: Option<Box<Node>>) -> (root: Option<
    Box<Node>,
>)
    requires
        tree_llrb(l),
        tree_llrb(c),
        tree_llrb(r),
        tree_color(l) == Color::Black,
        tree_color(c) == Color::Black,
        tree_color(r) == Color::Black,
        tree_len(l) + tree_len(c) + tree_len(r) <= usize::MAX,
    ensures
        tree_llrb(root),
        tree_color(root) == Color::Black,
        tree_elems(root) == tree_elems(l) + tree_elems(c) + tree_elems(r),
        root == rejoined(l, c, r),
{
    let lc = merge2(l, c);
    proof {
        lemma_tree_len(l);
        lemma_tree_len(c);
        lemma_tree_len(lc);
    }
    merge2(lc, r)
}

/// A sequence of residues with positional insertion and removal, range
/// reversal, range affine maps and range sums, each in logarithmic time.
pub struct Rbtree {
    root: Option<Box<Node>>,
}

impl View for Rbtree {
    type V = Seq<int>;

    /// The values of the sequence in order.
    closed spec fn view(&self) -> Seq<int> {
        tree_elems(self.root)
    }
}

impl Default for Rbtree {
    fn default() -> (t: Self)
        ensures
            t.wf(),
            t@ == Seq::<int>::empty(),
    {
        Rbtree { root: None }
    }
}

impl Rbtree {
    /// Size, aggregate and colour invariants hold at every node, and the root is black.
    pub closed spec fn wf(&self) -> bool {
        tree_llrb(self.root) && tree_color(self.root) == Color::Black
    }

    /// The stored black height of the root, 0 when empty.
    pub closed spec fn spec_black_height(&self) -> nat {
        tree_bh(self.root)
    }

    /// The empty sequence.
    pub fn new() -> (t: Self)
        ensures
            t.wf(),
            t@ == Seq::<int>::empty(),
    {
        Rbtree { root: None }
    }

    /// The number of values.
    pub fn len(&self) -> (n: usize)
        requires
            self.wf(),
        ensures
            n == self@.len(),
    {
        proof {
            lemma_tree_len(self.root);
        }
        size(&self.root)
    }

    /// Whether the sequence holds no value.
    pub fn is_empty(&self) -> (b: bool)
        requires
            self.wf(),
        ensures
            b == (self@.len() == 0),
    {
        self.len() == 0
    }

    /// The black height of the tree: the number of black nodes on every way down from the
    /// root, the root not counted and the empty end counted; 0 when empty.
    pub fn black_height(&self) -> (h: u8)
        requires
            self.wf(),
        ensures
            h == self.spec_black_height(),
            self.spec_root() is None ==> h == 0,
            self.spec_root() matches Some(n) ==> every_way(n.spec_left(), h as nat) && every_way(
                n.spec_right(),
                h as nat,
            ),
            h <= 65,
            pow2(h as nat) <= self@.len() + 1,
    {
        proof {
            lemma_every_way(self.root);
            lemma_tree_bh_bound(self.root);
            lemma_tree_min_nodes(self.root);
            lemma_tree_len(self.root);
            lemma2_to64();
        }
        bh(&self.root)
    }

    /// The tree that holds the sequence.
    pub closed spec fn spec_root(self) -> Option<Box<Node>> {
        self.root
    }

    /// The sequence is what its tree holds in order, and it meets its invariants exactly when
    /// its tree does and has a black root.
    pub proof fn lemma_spec_root(&self)
        ensures
            self@ == tree_elems(self.spec_root()),
            self.wf() == (tree_llrb(self.spec_root()) && tree_color(self.spec_root()) == Color::Black),
    {
    }

    /// Gives up the sequence for the tree that holds it.
    pub fn into_root(self) -> (r: Option<Box<Node>>)
        ensures
            tree_elems(r) == self@,
            self.wf() ==> tree_llrb(r) && tree_color(r) == Color::Black,
            r == self.spec_root(),
    {
        self.root
    }

    /// The sequence held by a tree that meets the invariants and has a black root.
    pub fn from_root(root: Option<Box<Node>>) -> (t: Self)
        requires
            tree_llrb(root),
            tree_color(root) == Color::Black,
        ensures
            t.wf(),
            t@ == tree_elems(root),
            t.spec_root() == root,
    {
        Self { root }
    }

    /// The root of the tree.
    pub fn root(&self) -> (r: &Option<Box<Node>>)
        ensures
            tree_elems(*r) == self@,
            self.wf() ==> tree_llrb(*r) && tree_color(*r) == Color::Black,
    {
        &self.root
    }

    /// Places `value` at position `index`, moving what was there and after it one step back.
    pub fn insert(&mut self, index: usize, value: Fp)
        requires
            old(self).wf(),
            index <= old(self)@.len(),
            old(self)@.len() < usize::MAX,
        ensures
            final(self).wf(),
            final(self)@ == inserted(old(self)@, index as int, value@),
            final(self).spec_root() == Some(
                Box::new(
                    merged3(
                        split2_parts(old(self).spec_root(), index as nat).0,
                        single(value),
                        split2_parts(old(self).spec_root(), index as nat).1,
                    ),
                ),
            ),
    {
        proof {
            lemma_tree_len(self.root);
        }
        let c = Node::leaf(value);
        let (l, r) = split2(self.root.take(), index);
        proof {
            lemma_tree_len(l);
            lemma_tree_len(r);
        }
        self.root = Some(merge3(l, c, r));
    }

    /// Takes out the value at position `index` and returns it.
    pub fn remove(&mut self, index: usize) -> (value: Fp)
        requires
            old(self).wf(),
            index < old(self)@.len(),
        ensures
            final(self).wf(),
            final(self)@ == removed(old(self)@, index as int),
            value@ == old(self)@[index as int],
            old(self).spec_root() matches Some(n) && final(self).spec_root() == merged2(
                split3_parts(*n, index as nat).0,
                split3_parts(*n, index as nat).2,
            ),
    {
        proof {
            lemma_tree_len(self.root);
        }
        let (l, c, r) = split3(self.root.take().unwrap(), index);
        proof {
            lemma_tree_len(l);
            lemma_tree_len(r);
        }
        self.root = merge2(l, r);
        c.value
    }

    /// Reverses the order of the values at positions `start..end`.
    pub fn reverse(&mut self, start: usize, end: usize)
        requires
            old(self).wf(),
            start <= end <= old(self)@.len(),
        ensures
            final(self).wf(),
            final(self)@ == reversed_range(old(self)@, start as int, end as int),
            final(self).spec_root() == rejoined(
                isolated(old(self).spec_root(), start as nat, end as nat).0,
                tree_toggled(isolated(old(self).spec_root(), start as nat, end as nat).1),
                isolated(old(self).spec_root(), start as nat, end as nat).2,
            ),
    {
        proof {
            lemma_tree_len(self.root);
        }
        let (l, mut c, r) = isolate(self.root.take(), start, end);
        tree_toggle(&mut c);
        self.root = rejoin(l, c, r);
    }

    /// Replaces every value `v` at positions `start..end` by `c1 * v + c0`.
    pub fn affine(&mut self, start: usize, end: usize, c1: Fp, c0: Fp)
        requires
            old(self).wf(),
            start <= end <= old(self)@.len(),
        ensures
            final(self).wf(),
            final(self)@ == affine_range(old(self)@, start as int, end as int, c1@, c0@),
            final(self).spec_root() == rejoined(
                isolated(old(self).spec_root(), start as nat, end as nat).0,
                tree_applied(
                    isolated(old(self).spec_root(), start as nat, end as nat).1,
                    c1,
                    c0,
                ),
                isolated(old(self).spec_root(), start as nat, end as nat).2,
            ),
    {
        proof {
            lemma_tree_len(self.root);
        }
        let (l, mut c, r) = isolate(self.root.take(), start, end);
        tree_apply(&mut c, c1, c0);
        self.root = rejoin(l, c, r);
    }

    /// The sum of the values at positions `start..end`; the sequence is left as it was.
    pub fn sum(&mut self, start: usize, end: usize) -> (total: Fp)
        requires
            old(self).wf(),
            start <= end <= old(self)@.len(),
        ensures
            final(self).wf(),
            final(self)@ == old(self)@,
            total@ == range_sum(old(self)@, start as int, end as int),
            final(self).spec_root() == rejoined(
                isolated(old(self).spec_root(), start as nat, end as nat).0,
                isolated(old(self).spec_root(), start as nat, end as nat).1,
                isolated(old(self).spec_root(), start as nat, end as nat).2,
            ),
    {
        proof {
            lemma_tree_len(self.root);
            lemma_isolate(self@, start as int, end as int);
        }
        let mut ans = Fp::new(0);
        let (l, c, r) = isolate(self.root.take(), start, end);
        match c.as_ref() {
            Some(c) => {
                ans = ans.add(c.sum);
                proof {
                    lemma_tree_len(Some(*c));
                    lemma_small_mod(0, P as nat);
                    lemma_add_mod_noop(0, seq_sum(c.elems()), P as int);
                }
            },
            None => {
                proof {
                    lemma_small_mod(0, P as nat);
                    assert(seq_sum(Seq::<int>::empty()) == 0);
                }
            },
        }
        self.root = rejoin(l, c, r);
        ans
    }

    /// The values of the sequence in order.
    pub fn to_vec(&self) -> (out: Vec<Fp>)
        ensures
            fp_values(out@) == self@,
    {
        collect(&self.root)
    }
}

fn collect_recur(x: &Option<Box<Node>>, out: &mut Vec<Fp>, rev: bool, c1: Fp, c0: Fp)
    ensures
        fp_values(final(out)@) == fp_values(old(out)@) + oriented(
            affine_seq(tree_elems(*x), c1@, c0@),
            rev,
        ),
    decreases *x,
{
    match x {
        None => {
            proof {
                assert(affine_seq(Seq::<int>::empty(), c1@, c0@) =~= Seq::<int>::empty());
                assert(Seq::<int>::empty().reverse() =~= Seq::<int>::empty());
                assert(fp_values(out@) + Seq::<int>::empty() =~= fp_values(out@));
            }
        },
        Some(x) => {
            let rev2 = rev != x.rev;
            let d1 = c1.mul(x.c1);
            let d0 = c1.mul(x.c0).add(c0);
            let v = c1.mul(x.value).add(c0);
            let ghost before = fp_values(out@);
            let ghost el = tree_elems(x.left);
            let ghost er = tree_elems(x.right);
            let ghost dl = affine_seq(el, d1@, d0@);
            let ghost dr = affine_seq(er, d1@, d0@);
            if rev2 {
                collect_recur(&x.right, out, rev2, d1, d0);
                let ghost mid = out@;
                out.push(v);
                assert(fp_values(out@) =~= fp_values(mid) + seq![v@]);
                collect_recur(&x.left, out, rev2, d1, d0);
                assert(fp_values(out@) =~= before + (dr.reverse() + seq![v@] + dl.reverse()));
            } else {
                collect_recur(&x.left, out, rev2, d1, d0);
                let ghost mid = out@;
                out.push(v);
                assert(fp_values(out@) =~= fp_values(mid) + seq![v@]);
                collect_recur(&x.right, out, rev2, d1, d0);
                assert(fp_values(out@) =~= before + (dl + seq![v@] + dr));
            }
            proof {
                reveal(Node::elems);
                let m = P as int;
                let (b1, b0) = (x.c1@, x.c0@);
                c0.lemma_in_range();
                lemma_add_mod_noop(c1@ * b0, c0@, m);
                lemma_small_mod(c0@ as nat, P as nat);
                lemma_add_mod_noop(c1@ * x.value@, c0@, m);
                lemma_affine_seq_compose(el, b1, b0, c1@, c0@);
                lemma_affine_seq_compose(er, b1, b0, c1@, c0@);
                let bl = affine_seq(el, b1, b0);
                let br = affine_seq(er, b1, b0);
                let inner = bl + seq![x.value@] + br;
                lemma_affine_seq_concat(bl + seq![x.value@], br, c1@, c0@);
                lemma_affine_seq_concat(bl, seq![x.value@], c1@, c0@);
                assert(affine_seq(seq![x.value@], c1@, c0@) =~= seq![v@]);
                assert(affine_seq(inner, c1@, c0@) == dl + seq![v@] + dr);
                lemma_affine_seq_reverse(inner, c1@, c0@);
                lemma_reverse_concat(dl + seq![v@], dr);
                lemma_reverse_concat(dl, seq![v@]);
                assert(seq![v@].reverse() =~= seq![v@]);
                assert((dl + seq![v@] + dr).reverse() =~= dr.reverse() + seq![v@] + dl.reverse());
                lemma_reverse_twice(dl + seq![v@] + dr);
            }
        },
    }
}

/// The values of a subtree in order, with every pending tag resolved.
pub fn collect(x: &Option<Box<Node>>) -> (out: Vec<Fp>)
    ensures
        fp_values(out@) == tree_elems(*x),
{
    let mut out = Vec::new();
    collect_recur(x, &mut out, false, Fp::new(1), Fp::new(0));
    proof {
        lemma_small_mod(1, P as nat);
        lemma_small_mod(0, P as nat);
        lemma_tree_canonical(*x);
        lemma_affine_seq_identity(tree_elems(*x));
        assert(fp_values(Seq::<Fp>::empty()) + tree_elems(*x) =~= tree_elems(*x));
    }
    out
}

/// The line that the printer writes for one node at depth `depth`.
pub closed spec fn node_text(n: Node, depth: nat) -> Seq<char> {
    Seq::<char>::empty() + repeated(' ', depth) + (if n.color == Color::Black {
        "●"@
    } else {
        "○"@
    }) + " { value: "@ + decimal_text(n.value@ as nat) + ", rev: "@ + (if n.rev {
        "true"@
    } else {
        "false"@
    }) + ", affine: ("@ + decimal_text(n.c1@ as nat) + ","@ + decimal_text(n.c0@ as nat)
        + "), sum: "@ + decimal_text(n.sum@ as nat) + ", len: "@ + decimal_text(n.len as nat)
        + " }\n"@
}

/// How much deeper a child is printed than its parent: one step, and one more between two
/// black nodes, so that every black level takes two columns.
pub closed spec fn step_down(n: Node, child: Option<Box<Node>>) -> nat {
    if n.color == Color::Black && tree_color(child) == Color::Black {
        2
    } else {
        1
    }
}

/// The lines that the printer writes for a subtree whose root is at depth `depth`: one line
/// per node as the nodes are stored, left subtree first, with pending tags shown and not
/// applied.
pub closed spec fn display_text(t: Option<Box<Node>>, depth: nat) -> Seq<char>
    decreases t,
{
    match t {
        None => Seq::empty(),
        Some(n) => display_text(n.left, depth + step_down(*n, n.left)) + node_text(*n, depth)
            + display_text(n.right, depth + step_down(*n, n.right)),
    }
}

/// Appends the line of one node at depth `depth`.
pub fn format_node(node: &Node, s: &mut String, depth: usize)
    ensures
        final(s)@ == old(s)@ + node_text(*node, depth as nat),
{
    proof {
        node.value.lemma_in_range();
        node.sum.lemma_in_range();
        node.c1.lemma_in_range();
        node.c0.lemma_in_range();
    }
    let mut line = String::new();
    push_repeated(&mut line, ' ', depth);
    match node.color {
        Color::Black => line.append("●"),
        Color::Red => line.append("○"),
    }
    line.append(" { value: ");
    push_decimal(&mut line, node.value.value());
    line.append(", rev: ");
    if node.rev {
        line.append("true");
    } else {
        line.append("false");
    }
    line.append(", affine: (");
    push_decimal(&mut line, node.c1.value());
    line.append(",");
    push_decimal(&mut line, node.c0.value());
    line.append("), sum: ");
    push_decimal(&mut line, node.sum.value());
    line.append(", len: ");
    push_decimal(&mut line, node.len as u64);
    line.append(" }\n");
    assert(line@ == node_text(*node, depth as nat));
    s.append(line.as_str());
}

#[verifier::rlimit(40)]
fn display_recur(x: &Node, depth: usize, out: &mut String)
    requires
        x.llrb(),
        depth + 4 * x.total() + (if x.color == Color::Red {
            2int
        } else {
            0int
        }) <= 1000,
    ensures
        final(out)@ == old(out)@ + display_text(Some(Box::new(*x)), depth as nat),
    decreases *x,
{
    let ghost start = out@;
    let ghost tl = display_text(x.left, depth as nat + step_down(*x, x.left));
    let ghost tr = display_text(x.right, depth as nat + step_down(*x, x.right));
    proof {
        lemma_tree_len(x.left);
        lemma_tree_len(x.right);
    }
    match &x.left {
        Some(p) => {
            let extra: usize = if x.color == Color::Black && p.color == Color::Black {
                1
            } else {
                0
            };
            display_recur(p, depth + 1 + extra, out);
        },
        None => {
            assert(out@ + tl =~= out@);
        },
    }
    assert(out@ == start + tl);
    format_node(x, out, depth);
    let ghost mid = out@;
    match &x.right {
        Some(p) => {
            let extra: usize = if x.color == Color::Black && p.color == Color::Black {
                1
            } else {
                0
            };
            display_recur(p, depth + 1 + extra, out);
        },
        None => {
            assert(out@ + tr =~= out@);
        },
    }
    assert(out@ == mid + tr);
    proof {
        assert(display_text(Some(Box::new(*x)), depth as nat) == tl + node_text(
            *x,
            depth as nat,
        ) + tr);
        lemma_append3(start, tl, node_text(*x, depth as nat), tr);
    }
}

/// The tree as text for inspection, one line per node, or a note that it is empty.
pub fn display(x: &Option<Box<Node>>) -> (s: String)
    requires
        tree_llrb(*x),
    ensures
        s@ == (if *x is None {
            "× (empty)\n"@
        } else {
            display_text(*x, 0)
        }),
{
    match x {
        None => "× (empty)\n".to_owned(),
        Some(root) => {
            let mut s = String::new();
            proof {
                lemma_tree_bh_bound(Some(*root));
            }
            display_recur(root, 0, &mut s);
            proof {
                assert(Seq::<char>::empty() + display_text(Some(*root), 0) =~= display_text(
                    Some(*root),
                    0,
                ));
            }
            s
        },
    }
}

/// The stored aggregate of a child as it counts below a parent with the affine tag
/// `(c1, c0)`; 0 for an empty child.
pub closed spec fn tagged_sum(t: Option<Box<Node>>, c1: int, c0: int) -> int {
    match t {
        None => 0,
        Some(p) => residue(p.sum@ * c1 + c0 * p.len),
    }
}

/// What the validity check accepts at every node of a subtree.
pub closed spec fn tree_checked(t: Option<Box<Node>>) -> bool {
    match t {
        None => true,
        Some(n) => n.checked(),
    }
}

impl Node {
    /// What the validity check accepts, at this node and below: no red right child, no red
    /// left child with a red left child of its own, a stored size of one more than the sizes
    /// of the children, both children of the stored black height, and a stored aggregate that
    /// is the value of the node plus the aggregates of the children under the node's affine
    /// tag.
    pub closed spec fn checked(self) -> bool
        decreases self,
    {
        &&& tree_color(self.right) != Color::Red
        &&& !(tree_color(self.left) == Color::Red && tree_left_color(self.left) == Color::Red)
        &&& self.len == 1 + tree_len(self.left) + tree_len(self.right)
        &&& self.bh == tree_total(self.left)
        &&& self.bh == tree_total(self.right)
        &&& self.sum@ == residue(
            tagged_sum(self.left, self.c1@, self.c0@) + self.value@ + tagged_sum(
                self.right,
                self.c1@,
                self.c0@,
            ),
        )
        &&& (match self.left {
            None => true,
            Some(n) => n.checked(),
        })
        &&& (match self.right {
            None => true,
            Some(n) => n.checked(),
        })
    }
}

/// The aggregate of a child's values under an affine tag is what the validity check computes
/// from the child's stored aggregate and size.
proof fn lemma_tagged_sum(t: Option<Box<Node>>, c1: int, c0: int)
    requires
        tree_llrb(t),
    ensures
        tagged_sum(t, c1, c0) == residue(seq_sum(affine_seq(tree_elems(t), c1, c0))),
{
    let m = P as int;
    match t {
        None => {
            assert(affine_seq(Seq::<int>::empty(), c1, c0) =~= Seq::<int>::empty());
            assert(seq_sum(Seq::<int>::empty()) == 0);
            lemma_small_mod(0, P as nat);
        },
        Some(p) => {
            lemma_tree_len(t);
            let e = p.elems();
            lemma_sum_affine(e, c1, c0);
            let total = seq_sum(e);
            vstd::arithmetic::div_mod::lemma_mul_mod_noop_left(total, c1, m);
            lemma_add_mod_noop(total * c1, c0 * e.len(), m);
            lemma_add_mod_noop((total % m) * c1, c0 * e.len(), m);
            assert(total * c1 == c1 * total) by (nonlinear_arith);
        },
    }
}

/// Three residues add up to the residue of the sum.
proof fn lemma_residue_sum3(a: int, v: int, b: int)
    requires
        0 <= v < P,
    ensures
        residue(residue(a) + v + residue(b)) == residue(a + v + b),
{
    let m = P as int;
    lemma_add_mod_noop(a, v + b, m);
    lemma_add_mod_noop(v, b, m);
    lemma_add_mod_noop(a % m, v + (b % m), m);
    lemma_add_mod_noop(v, b % m, m);
    lemma_add_mod_noop(a % m, v + b, m);
    vstd::arithmetic::div_mod::lemma_mod_twice(a, m);
}

/// The aggregate of a node is the value of the node plus the aggregates of the children
/// under the node's affine tag.
#[verifier::rlimit(40)]
proof fn lemma_node_sum(n: Node)
    requires
        n.llrb(),
    ensures
        n.sum@ == residue(
            tagged_sum(n.left, n.c1@, n.c0@) + n.value@ + tagged_sum(n.right, n.c1@, n.c0@),
        ),
{
    lemma_tagged_sum(n.left, n.c1@, n.c0@);
    lemma_tagged_sum(n.right, n.c1@, n.c0@);
    lemma_elems_unfold(n);
    let al = affine_seq(tree_elems(n.left), n.c1@, n.c0@);
    let ar = affine_seq(tree_elems(n.right), n.c1@, n.c0@);
    let v = n.value@;
    lemma_sum_concat(al + seq![v], ar);
    lemma_sum_concat(al, seq![v]);
    lemma_sum_single(v);
    lemma_sum_reverse(al + seq![v] + ar);
    assert(seq_sum(n.elems()) == seq_sum(al) + v + seq_sum(ar));
    n.value.lemma_in_range();
    lemma_residue_sum3(seq_sum(al), v, seq_sum(ar));
}

/// A subtree that meets the invariants passes the validity check.
#[verifier::rlimit(40)]
pub proof fn lemma_llrb_checked(t: Option<Box<Node>>)
    requires
        tree_llrb(t),
    ensures
        tree_checked(t),
    decreases t,
{
    match t {
        None => {},
        Some(n) => {
            lemma_llrb_checked(n.left);
            lemma_llrb_checked(n.right);
            lemma_tree_len(n.left);
            lemma_tree_len(n.right);
            lemma_node_sum(*n);
        },
    }
}

/// The stored aggregate of a child under the affine tag of its parent.
fn tagged(t: &Option<Box<Node>>, c1: Fp, c0: Fp) -> (r: Fp)
    ensures
        r@ == tagged_sum(*t, c1@, c0@),
{
    match t {
        None => {
            proof {
                lemma_small_mod(0, P as nat);
            }
            Fp::new(0)
        },
        Some(p) => {
            let r = p.sum.mul(c1).add(c0.mul(Fp::new(p.len as u64)));
            proof {
                let m = P as int;
                let n = p.len as int;
                lemma_small_mod(p.len as nat, 0x1_0000_0000_0000_0000);
                vstd::arithmetic::div_mod::lemma_mul_mod_noop_right(c0@, n, m);
                lemma_add_mod_noop(p.sum@ * c1@, c0@ * (n % m), m);
                lemma_add_mod_noop(p.sum@ * c1@, c0@ * n, m);
            }
            r
        },
    }
}

fn is_valid_recurse(x: &Node) -> (ok: bool)
    ensures
        ok == x.checked(),
    decreases *x,
{
    if color(&x.right) == Color::Red {
        return false;
    }
    if color(&x.left) == Color::Red && left_color(&x.left) == Color::Red {
        return false;
    }
    let llen = size(&x.left);
    let rlen = size(&x.right);
    if llen as u128 + rlen as u128 + 1 != x.len as u128 {
        return false;
    }
    let lh: u16 = match &x.left {
        None => 1,
        Some(p) => p.bh as u16 + if p.color == Color::Black {
            1u16
        } else {
            0u16
        },
    };
    let rh: u16 = match &x.right {
        None => 1,
        Some(p) => p.bh as u16 + if p.color == Color::Black {
            1u16
        } else {
            0u16
        },
    };
    if lh != x.bh as u16 || rh != x.bh as u16 {
        return false;
    }
    let lsum = tagged(&x.left, x.c1, x.c0);
    let rsum = tagged(&x.right, x.c1, x.c0);
    let total = lsum.add(x.value).add(rsum);
    proof {
        let m = P as int;
        lemma_add_mod_noop(lsum@ + x.value@, rsum@, m);
        rsum.lemma_in_range();
        lemma_small_mod(rsum@ as nat, P as nat);
    }
    if total.value() != x.sum.value() {
        return false;
    }
    let left_ok = match &x.left {
        Some(l) => is_valid_recurse(l),
        None => true,
    };
    if !left_ok {
        return false;
    }
    match &x.right {
        Some(r) => is_valid_recurse(r),
        None => true,
    }
}

/// Checks the colours, sizes, black heights and aggregates that the nodes of a subtree
/// store against each other.
pub fn is_valid(x: &Option<Box<Node>>) -> (ok: bool)
    ensures
        ok == tree_checked(*x),
        tree_llrb(*x) ==> ok,
{
    proof {
        if tree_llrb(*x) {
            lemma_llrb_checked(*x);
        }
    }
    match x {
        Some(x) => is_valid_recurse(x),
        None => true,
    }
}

/// Like [`is_valid`], but names the failure: a subtree whose stored colours, sizes, black
/// heights or aggregates do not agree is reported as a broken invariant.
pub fn ensure_valid(x: &Option<Box<Node>>) -> (r: Result<(), TreeError>)
    ensures
        r is Ok <==> tree_checked(*x),
        r is Err ==> r == Err::<(), TreeError>(TreeError::InvariantViolation),
        tree_llrb(*x) ==> r is Ok,
{
    if is_valid(x) {
        Ok(())
    } else {
        Err(TreeError::InvariantViolation)
    }
}

impl Node {
    /// The stored aggregate.
    pub closed spec fn spec_sum(self) -> int {
        self.sum@
    }

    /// Whether a reversal is pending.
    pub closed spec fn spec_rev(self) -> bool {
        self.rev
    }

    /// The factor of the pending affine map.
    pub closed spec fn spec_c1(self) -> int {
        self.c1@
    }

    /// The constant of the pending affine map.
    pub closed spec fn spec_c0(self) -> int {
        self.c0@
    }

    /// At a node that meets the invariants, the size is one more than the sizes of the
    /// children and counts the values, the aggregate is the sum of the values with every tag
    /// resolved, the values are those of the children under the pending tags around the
    /// value of the node, both children have the black height that the node stores, the
    /// right child is black, a red node has a black left child, and both children meet the
    /// invariants.
    pub proof fn lemma_shape(self)
        requires
            self.llrb(),
        ensures
            tree_len(Some(Box::new(self))) == 1 + tree_len(self.spec_left()) + tree_len(
                self.spec_right(),
            ),
            tree_len(Some(Box::new(self))) == self.elems().len(),
            self.spec_sum() == residue(seq_sum(self.elems())),
            self.elems() == oriented(
                affine_seq(tree_elems(self.spec_left()), self.spec_c1(), self.spec_c0()) + seq![
                    self.spec_value(),
                ] + affine_seq(tree_elems(self.spec_right()), self.spec_c1(), self.spec_c0()),
                self.spec_rev(),
            ),
            tree_total(self.spec_left()) == tree_bh(Some(Box::new(self))),
            tree_total(self.spec_right()) == tree_bh(Some(Box::new(self))),
            tree_color(self.spec_right()) == Color::Black,
            tree_color(Some(Box::new(self))) == Color::Red ==> tree_color(self.spec_left())
                == Color::Black,
            tree_llrb(self.spec_left()),
            tree_llrb(self.spec_right()),
    {
        reveal(Node::elems);
    }
}

impl Rbtree {
    /// Like [`insert`](Self::insert), but turns a position beyond the end down, and every
    /// position once the sequence holds as many values as a `usize` can count, and leaves
    /// the sequence as it was.
    pub fn try_insert(&mut self, index: usize, value: Fp) -> (r: Result<(), TreeError>)
        requires
            old(self).wf(),
        ensures
            final(self).wf(),
            index <= old(self)@.len() < usize::MAX ==> r is Ok && final(self)@ == inserted(
                old(self)@,
                index as int,
                value@,
            ),
            !(index <= old(self)@.len() < usize::MAX) ==> r == Err::<(), TreeError>(
                TreeError::IndexOutOfRange,
            ) && final(self)@ == old(self)@,
    {
        let n = self.len();
        if index > n || n == usize::MAX {
            return Err(TreeError::IndexOutOfRange);
        }
        self.insert(index, value);
        Ok(())
    }

    /// Like [`remove`](Self::remove), but turns a position that does not exist down and
    /// leaves the sequence as it was.
    pub fn try_remove(&mut self, index: usize) -> (r: Result<Fp, TreeError>)
        requires
            old(self).wf(),
        ensures
            final(self).wf(),
            index < old(self)@.len() ==> r is Ok && r->Ok_0@ == old(self)@[index as int]
                && final(self)@ == removed(old(self)@, index as int),
            index >= old(self)@.len() ==> r == Err::<Fp, TreeError>(TreeError::IndexOutOfRange)
                && final(self)@ == old(self)@,
    {
        if index >= self.len() {
            return Err(TreeError::IndexOutOfRange);
        }
        Ok(self.remove(index))
    }

    /// Like [`reverse`](Self::reverse), but turns a range that is not within the sequence
    /// down and leaves the sequence as it was.
    pub fn try_reverse(&mut self, start: usize, end: usize) -> (r: Result<(), TreeError>)
        requires
            old(self).wf(),
        ensures
            final(self).wf(),
            start <= end <= old(self)@.len() ==> r is Ok && final(self)@ == reversed_range(
                old(self)@,
                start as int,
                end as int,
            ),
            !(start <= end <= old(self)@.len()) ==> r == Err::<(), TreeError>(
                TreeError::IndexOutOfRange,
            ) && final(self)@ == old(self)@,
    {
        if start > end || end > self.len() {
            return Err(TreeError::IndexOutOfRange);
        }
        self.reverse(start, end);
        Ok(())
    }

    /// Like [`affine`](Self::affine), but turns a range that is not within the sequence
    /// down and leaves the sequence as it was.
    pub fn try_affine(&mut self, start: usize, end: usize, c1: Fp, c0: Fp) -> (r: Result<
        (),
        TreeError,
    >)
        requires
            old(self).wf(),
        ensures
            final(self).wf(),
            start <= end <= old(self)@.len() ==> r is Ok && final(self)@ == affine_range(
                old(self)@,
                start as int,
                end as int,
                c1@,
                c0@,
            ),
            !(start <= end <= old(self)@.len()) ==> r == Err::<(), TreeError>(
                TreeError::IndexOutOfRange,
            ) && final(self)@ == old(self)@,
    {
        if start > end || end > self.len() {
            return Err(TreeError::IndexOutOfRange);
        }
        self.affine(start, end, c1, c0);
        Ok(())
    }

    /// Like [`sum`](Self::sum), but turns a range that is not within the sequence down.
    pub fn try_sum(&mut self, start: usize, end: usize) -> (r: Result<Fp, TreeError>)
        requires
            old(self).wf(),
        ensures
            final(self).wf(),
            final(self)@ == old(self)@,
            start <= end <= old(self)@.len() ==> r is Ok && r->Ok_0@ == range_sum(
                old(self)@,
                start as int,
                end as int,
            ),
            !(start <= end <= old(self)@.len()) ==> r == Err::<Fp, TreeError>(
                TreeError::IndexOutOfRange,
            ),
    {
        if start > end || end > self.len() {
            return Err(TreeError::IndexOutOfRange);
        }
        Ok(self.sum(start, end))
    }
}

} // verus!
