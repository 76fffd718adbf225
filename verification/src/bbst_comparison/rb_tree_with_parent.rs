//! A sequence of `i32` values on a red-black tree with positional insertion
//! and removal, whose split and merge walk down once, remember the nodes they
//! passed, and repair the colouring on the way back up without recursion.

use vstd::prelude::*;
use crate::error::TreeError;
use crate::bbst_comparison::test_utils::{
    all_ok, BenchmarkableTree, HasRoot, TreeNode, Validatable,
};
use vstd::arithmetic::power2::{lemma2_to64, lemma_pow2_strictly_increases, lemma_pow2_unfold, pow2};
use crate::model::{
    higher, inserted, joined, lemma_concat_nested, lemma_cut_middle, removed, split_at,
};

verus! {

/// A sequence of `i32` values on a red-black tree.
pub struct RbTreeWithParent {
    root: Option<Box<Node>>,
}

/// The colour of a node.
#[derive(Clone, Copy, Debug, PartialEq, Eq, Structural)]
pub enum Color {
    Red,
    Black,
}

/// One value of the sequence with the size of its subtree, its colour, and the number of
/// black nodes on every way down from it, itself not counted and the empty end counted.
pub struct Node {
    left: Option<Box<Node>>,
    right: Option<Box<Node>>,
    value: i32,
    len: usize,
    bh: u8,
    color: Color,
}

/// A node that the walk down has passed, with the child it went into taken out.
pub struct Step {
    node: Box<Node>,
    went_left: bool,
}

/// The in-order values of a subtree.
pub closed spec fn tree_elems(t: Option<Box<Node>>) -> Seq<i32> {
    match t {
        None => Seq::empty(),
        Some(n) => n.elems(),
    }
}

/// The stored size of a subtree, 0 when empty.
pub closed spec fn tree_len(t: Option<Box<Node>>) -> nat {
    match t {
        None => 0,
        Some(n) => n.len as nat,
    }
}

/// The colour of the root of a subtree; an empty subtree counts as black.
pub closed spec fn tree_color(t: Option<Box<Node>>) -> Color {
    match t {
        None => Color::Black,
        Some(n) => n.color,
    }
}

/// The stored black height of the root, 0 for an empty subtree.
pub closed spec fn tree_bh(t: Option<Box<Node>>) -> nat {
    match t {
        None => 0,
        Some(n) => n.bh as nat,
    }
}

/// The number of black nodes on every way down through the subtree, its root and the empty
/// end counted.
pub closed spec fn tree_total(t: Option<Box<Node>>) -> nat {
    match t {
        None => 1,
        Some(n) => n.total(),
    }
}

/// The red-black invariants hold at every node of the subtree.
pub closed spec fn tree_wf(t: Option<Box<Node>>) -> bool
    decreases t,
{
    match t {
        None => true,
        Some(n) => n.wf(),
    }
}

impl Node {
    /// The values of the subtree in order.
    #[verifier::opaque]
    pub closed spec fn elems(self) -> Seq<i32>
        decreases self,
    {
        let l = match self.left {
            None => Seq::empty(),
            Some(n) => n.elems(),
        };
        let r = match self.right {
            None => Seq::empty(),
            Some(n) => n.elems(),
        };
        l + seq![self.value] + r
    }

    /// The children's values around this node's value.
    pub closed spec fn inner(self) -> Seq<i32> {
        tree_elems(self.left) + seq![self.value] + tree_elems(self.right)
    }

    /// The number of black nodes on every way down through this node.
    pub closed spec fn total(self) -> nat {
        if self.color == Color::Black {
            self.bh as nat + 1
        } else {
            self.bh as nat
        }
    }

    /// Size and black height agree with the children, which agree with each other.
    pub closed spec fn meta_ok(self) -> bool {
        &&& self.len == 1 + tree_len(self.left) + tree_len(self.right)
        &&& self.len == self.elems().len()
        &&& self.bh == tree_total(self.left)
        &&& self.bh == tree_total(self.right)
    }

    /// A red node has no red child.
    pub closed spec fn no_red_red(self) -> bool {
        self.color == Color::Red ==> tree_color(self.left) == Color::Black && tree_color(
            self.right,
        ) == Color::Black
    }

    /// The red-black invariants hold at this node and below.
    pub closed spec fn wf(self) -> bool
        decreases self,
    {
        &&& tree_wf(self.left)
        &&& tree_wf(self.right)
        &&& self.meta_ok()
        &&& self.no_red_red()
    }

    /// The node has no children.
    pub closed spec fn is_single(self) -> bool {
        self.left is None && self.right is None
    }

    /// The value stored at the node.
    pub closed spec fn spec_value(self) -> i32 {
        self.value
    }

    /// The left child.
    pub closed spec fn spec_left(self) -> Option<Box<Node>> {
        self.left
    }

    /// The right child.
    pub closed spec fn spec_right(self) -> Option<Box<Node>> {
        self.right
    }

    /// At a node that meets the red-black invariants, the size is one more than the sizes of
    /// the children and counts the values, both children have the black height that the node
    /// stores, a red node has two black children, and both children meet the invariants.
    pub proof fn lemma_shape(self)
        requires
            self.wf(),
        ensures
            tree_len(Some(Box::new(self))) == 1 + tree_len(self.spec_left()) + tree_len(
                self.spec_right(),
            ),
            tree_len(Some(Box::new(self))) == self.elems().len(),
            self.elems() == tree_elems(self.spec_left()) + seq![self.spec_value()] + tree_elems(
                self.spec_right(),
            ),
            tree_total(self.spec_left()) == tree_bh(Some(Box::new(self))),
            tree_total(self.spec_right()) == tree_bh(Some(Box::new(self))),
            tree_color(Some(Box::new(self))) == Color::Red ==> tree_color(self.spec_left())
                == Color::Black && tree_color(self.spec_right()) == Color::Black,
            tree_wf(self.spec_left()),
            tree_wf(self.spec_right()),
    {
        lemma_elems(self);
    }
}

impl Node {
    /// The node over the given children, with its value and colour kept and its size and
    /// black height computed from theirs.
    pub closed spec fn over(self, l: Option<Box<Node>>, r: Option<Box<Node>>) -> Node {
        Node {
            left: l,
            right: r,
            value: self.value,
            len: (1 + tree_len(l) + tree_len(r)) as usize,
            bh: higher(1, higher(tree_total(l), tree_total(r))) as u8,
            color: self.color,
        }
    }

    /// The node `over` gives holds the value and the colour of the node and the given
    /// children; its size is one more than their sizes, as far as that fits.
    pub proof fn lemma_over(self, l: Option<Box<Node>>, r: Option<Box<Node>>)
        ensures
            self.over(l, r).spec_left() == l,
            self.over(l, r).spec_right() == r,
            self.over(l, r).spec_value() == self.spec_value(),
            tree_color(Some(Box::new(self.over(l, r)))) == tree_color(Some(Box::new(self))),
            tree_len(l) + tree_len(r) < usize::MAX ==> tree_len(Some(Box::new(self.over(l, r))))
                == 1 + tree_len(l) + tree_len(r),
    {
    }
}

impl Node {
    /// The node with the given children and every other field as it is.
    pub closed spec fn with_children(self, l: Option<Box<Node>>, r: Option<Box<Node>>) -> Node {
        Node { left: l, right: r, ..self }
    }

    /// The node in the given colour.
    pub closed spec fn painted(self, c: Color) -> Node {
        Node { color: c, ..self }
    }

    /// The node with its size and black height recomputed from its children.
    pub closed spec fn updated(self) -> Node {
        self.over(self.left, self.right)
    }

    /// The colour of the node.
    pub closed spec fn spec_color(self) -> Color {
        self.color
    }

    /// What the node with other children or in another colour holds, and what a passed node
    /// made of a node and a direction holds.
    pub proof fn lemma_fields(self, l: Option<Box<Node>>, r: Option<Box<Node>>, c: Color)
        ensures
            self.with_children(l, r).spec_left() == l,
            self.with_children(l, r).spec_right() == r,
            self.with_children(l, r).spec_value() == self.spec_value(),
            self.with_children(l, r).spec_color() == self.spec_color(),
            self.painted(c).spec_left() == self.spec_left(),
            self.painted(c).spec_right() == self.spec_right(),
            self.painted(c).spec_value() == self.spec_value(),
            self.painted(c).spec_color() == c,
            self.over(l, r).spec_color() == self.spec_color(),
            self.updated() == self.over(self.spec_left(), self.spec_right()),
            tree_color(Some(Box::new(self))) == self.spec_color(),
            tree_color(None) == Color::Black,
            step_node(step_of(self, true)) == self,
            step_node(step_of(self, false)) == self,
            step_went_left(step_of(self, true)),
            !step_went_left(step_of(self, false)),
            step_other(step_of(self, true)) == self.spec_right(),
            step_other(step_of(self, false)) == self.spec_left(),
    {
    }
}

/// The node that the walk passed.
pub closed spec fn step_node(s: Step) -> Node {
    *s.node
}

/// Whether the walk went on into the left child.
pub closed spec fn step_went_left(s: Step) -> bool {
    s.went_left
}

/// The passed node made of a node and the direction in which the walk went on.
pub closed spec fn step_of(node: Node, went_left: bool) -> Step {
    Step { node: Box::new(node), went_left }
}

/// The passed node over `cur` in its hole and its other child.
pub open spec fn attached(step: Step, cur: Node) -> Node {
    if step_went_left(step) {
        step_node(step).over(Some(Box::new(cur)), step_node(step).spec_right())
    } else {
        step_node(step).over(step_node(step).spec_left(), Some(Box::new(cur)))
    }
}

/// The three nodes after a recolouring: the lower passed node black over `cur`, the upper
/// passed node red over it and over its other child, painted black.
pub open spec fn recolored(step: Step, up: Step, cur: Node) -> Node {
    let low = step_node(step).painted(Color::Black);
    let p = if step_went_left(step) {
        low.over(Some(Box::new(cur)), low.spec_right())
    } else {
        low.over(low.spec_left(), Some(Box::new(cur)))
    };
    let high = step_node(up).painted(Color::Red);
    if step_went_left(up) {
        high.over(Some(Box::new(p)), tree_blackened(high.spec_right()))
    } else {
        high.over(tree_blackened(high.spec_left()), Some(Box::new(p)))
    }
}

/// `y` black over `x` and `z`, both red, which stand over `a`, `b` and over `c`, `d`.
pub open spec fn restructured(
    x: Node,
    y: Node,
    z: Node,
    a: Option<Box<Node>>,
    b: Option<Box<Node>>,
    c: Option<Box<Node>>,
    d: Option<Box<Node>>,
) -> Node {
    y.painted(Color::Black).over(
        Some(Box::new(x.painted(Color::Red).over(a, b))),
        Some(Box::new(z.painted(Color::Red).over(c, d))),
    )
}

/// The three nodes after a restructuring: the middle one of the three in order black on
/// top, the other two red below it, over the four subtrees in order.
pub open spec fn restructured_at(step: Step, up: Step, cur: Node) -> Node {
    let p = step_node(step);
    let pp = step_node(up);
    if step_went_left(up) {
        if step_went_left(step) {
            p.painted(Color::Black).over(
                Some(Box::new(cur)),
                Some(Box::new(pp.painted(Color::Red).over(p.spec_right(), pp.spec_right()))),
            )
        } else {
            restructured(
                p,
                cur,
                pp,
                p.spec_left(),
                cur.spec_left(),
                cur.spec_right(),
                pp.spec_right(),
            )
        }
    } else {
        if step_went_left(step) {
            restructured(
                pp,
                cur,
                p,
                pp.spec_left(),
                cur.spec_left(),
                cur.spec_right(),
                p.spec_right(),
            )
        } else {
            p.painted(Color::Black).over(
                Some(Box::new(pp.painted(Color::Red).over(pp.spec_left(), p.spec_left()))),
                Some(Box::new(cur)),
            )
        }
    }
}

/// The tree that hanging `cur` into the hole of the path and repairing the colours on the
/// way up gives. Once a step has settled the colours, every further passed node only takes
/// what is below it; until then a red `cur` below a red passed node is recoloured together
/// with the node above both where that node's other child is red, and restructured, which
/// settles the colours, where it is black.
#[verifier::opaque]
pub open spec fn repaired(path: Seq<Step>, cur: Node, settled: bool) -> Node
    decreases path.len(),
{
    if path.len() == 0 {
        cur
    } else {
        let step = path.last();
        let rest = path.drop_last();
        if settled || cur.spec_color() == Color::Black || step_node(step).spec_color()
            == Color::Black {
            repaired(rest, attached(step, cur), true)
        } else if rest.len() == 0 {
            cur
        } else {
            let up = rest.last();
            if tree_color(step_other(up)) == Color::Red {
                repaired(rest.drop_last(), recolored(step, up, cur), settled)
            } else {
                repaired(rest.drop_last(), restructured_at(step, up, cur), true)
            }
        }
    }
}

/// The way down the left or the right edge of `t` to the first subtree whose stored black
/// height is not above `h`: the nodes passed, added to `path`, and that subtree.
pub open spec fn edge(t: Option<Box<Node>>, h: nat, leftwards: bool, path: Seq<Step>) -> (
    Seq<Step>,
    Option<Box<Node>>,
)
    decreases t,
{
    match t {
        Some(p) if h < tree_bh(t) => {
            if leftwards {
                edge(
                    p.spec_left(),
                    h,
                    true,
                    path.push(
                        step_of(p.with_children(None, p.spec_right()), true),
                    ),
                )
            } else {
                edge(
                    p.spec_right(),
                    h,
                    false,
                    path.push(
                        step_of(p.with_children(p.spec_left(), None), false),
                    ),
                )
            }
        },
        _ => (path, t),
    }
}

/// The tree that joining `l`, the node `c` and `r` gives: both roots are painted black and
/// `c` red; `c` goes over the lower tree and the first subtree on the facing edge of the
/// higher tree that is not higher than it; the nodes passed on that edge are repaired above
/// it, and the root is painted black.
#[verifier::opaque]
pub open spec fn merged3(l: Option<Box<Node>>, c: Node, r: Option<Box<Node>>) -> Node {
    let l1 = tree_blackened(l);
    let r1 = tree_blackened(r);
    let c1 = c.painted(Color::Red);
    if tree_bh(l1) < tree_bh(r1) {
        let d = edge(r1, tree_bh(l1), true, Seq::empty());
        repaired(d.0, c1.over(l1, d.1), false).painted(Color::Black)
    } else if tree_bh(l1) > tree_bh(r1) {
        let d = edge(l1, tree_bh(r1), false, Seq::empty());
        repaired(d.0, c1.over(d.1, r1), false).painted(Color::Black)
    } else {
        c1.over(l1, r1).painted(Color::Black)
    }
}

/// The number of levels that are full in a tree of `n` nodes built from midpoints: the
/// greatest `k` with `2^k <= n + 1`.
pub open spec fn full_levels_of(n: nat) -> nat
    decreases n,
{
    if n == 0 {
        0
    } else {
        1 + full_levels_of(((n - 1) / 2) as nat)
    }
}

/// `full_levels_of(n)` is the one `k` with `2^k <= n + 1 < 2^(k + 1)`.
pub proof fn lemma_full_levels(n: nat, k: nat)
    requires
        pow2(k) <= n + 1 < pow2(k + 1),
    ensures
        full_levels_of(n) == k,
    decreases n,
{
    lemma2_to64();
    if n == 0 {
        if k > 0 {
            lemma_pow2_unfold(k);
            vstd::arithmetic::power2::lemma_pow2_pos((k - 1) as nat);
        }
    } else {
        lemma_pow2_unfold(k + 1);
        if k == 0 {
            assert(false);
        }
        lemma_pow2_unfold(k);
        lemma_full_levels(((n - 1) / 2) as nat, (k - 1) as nat);
    }
}

/// The tree that the midpoint construction builds from `values[lo..hi]` with `levels` full
/// levels: empty for an empty range, otherwise the value in the middle over the trees of the
/// two halves, black while a full level is left and red below them.
#[verifier::opaque]
pub closed spec fn built(values: Seq<i32>, lo: int, hi: int, levels: nat) -> Option<Box<Node>>
    decreases hi - lo,
{
    if lo >= hi {
        None
    } else {
        let mid = lo + (hi - lo) / 2;
        let below = if levels == 0 {
            0
        } else {
            (levels - 1) as nat
        };
        Some(
            Box::new(
                (Node {
                    left: None,
                    right: None,
                    value: values[mid],
                    len: 0,
                    bh: 0,
                    color: if levels == 0 {
                        Color::Red
                    } else {
                        Color::Black
                    },
                }).over(built(values, lo, mid, below), built(values, mid + 1, hi, below)),
            ),
        )
    }
}

/// The root of the tree built from a range that is not empty holds the value in the middle
/// of the range, over the trees built from the two halves with one level fewer; it is red
/// exactly when no full level is left.
pub proof fn lemma_built(values: Seq<i32>, lo: int, hi: int, levels: nat)
    ensures
        lo >= hi ==> built(values, lo, hi, levels) is None,
        lo < hi ==> built(values, lo, hi, levels) is Some && built(
            values,
            lo,
            hi,
            levels,
        ).unwrap().spec_value() == values[lo + (hi - lo) / 2] && built(
            values,
            lo,
            hi,
            levels,
        ).unwrap().spec_left() == built(
            values,
            lo,
            lo + (hi - lo) / 2,
            if levels == 0 {
                0
            } else {
                (levels - 1) as nat
            },
        ) && built(values, lo, hi, levels).unwrap().spec_right() == built(
            values,
            lo + (hi - lo) / 2 + 1,
            hi,
            if levels == 0 {
                0
            } else {
                (levels - 1) as nat
            },
        ) && (tree_color(built(values, lo, hi, levels)) == Color::Red) == (levels == 0),
{
    reveal(built);
}

/// The red node that holds `value` and nothing below it.
pub closed spec fn single(value: i32) -> Node {
    Node { left: None, right: None, value, len: 1, bh: 1, color: Color::Red }
}

/// The three parts that cutting the subtree at `index` gives: the cut goes down to the node
/// at `index`, which comes out alone; on the way back every node passed joins what is left
/// of the side that the cut went into with its other child.
#[verifier::opaque]
pub open spec fn split3_parts(x: Node, index: nat) -> (
    Option<Box<Node>>,
    Node,
    Option<Box<Node>>,
)
    decreases x,
{
    let c = x.with_children(None, None);
    let llen = tree_len(x.spec_left());
    if index < llen {
        match x.spec_left() {
            Some(l) => {
                let p = split3_parts(*l, index);
                (p.0, p.1, Some(Box::new(merged3(p.2, c, x.spec_right()))))
            },
            None => (None, c.updated(), x.spec_right()),
        }
    } else if index == llen {
        (x.spec_left(), c.updated(), x.spec_right())
    } else {
        match x.spec_right() {
            Some(r) => {
                let p = split3_parts(*r, (index - llen - 1) as nat);
                (Some(Box::new(merged3(x.spec_left(), c, p.0))), p.1, p.2)
            },
            None => (x.spec_left(), c.updated(), None),
        }
    }
}

/// What the passed nodes of a path make of three parts on the way back up: each, from the
/// last to the first, joins the part on the side of its other child with that child.
spec fn lifted(path: Seq<Step>, parts: (Option<Box<Node>>, Node, Option<Box<Node>>)) -> (
    Option<Box<Node>>,
    Node,
    Option<Box<Node>>,
)
    decreases path.len(),
{
    if path.len() == 0 {
        parts
    } else {
        let s = path.last();
        let c = s.node.with_children(None, None);
        lifted(
            path.drop_last(),
            if s.went_left {
                (parts.0, parts.1, Some(Box::new(merged3(parts.2, c, s.node.right))))
            } else {
                (Some(Box::new(merged3(s.node.left, c, parts.0))), parts.1, parts.2)
            },
        )
    }
}

/// The tree that joining `l` and `r` gives: `l` itself where `r` is empty, otherwise the
/// join of `l`, the first node of `r` and the rest of `r`.
#[verifier::opaque]
pub open spec fn merged2(l: Option<Box<Node>>, r: Option<Box<Node>>) -> Option<Box<Node>> {
    match r {
        None => l,
        Some(rn) => {
            let p = split3_parts(*rn, 0);
            Some(Box::new(merged3(l, p.1, p.2)))
        },
    }
}

/// The two parts that cutting the tree before `index` gives: the whole tree and nothing
/// where `index` is its size, otherwise what lies before the node at `index`, and that node
/// joined with what lies after it.
#[verifier::opaque]
pub open spec fn split2_parts(x: Option<Box<Node>>, index: nat) -> (
    Option<Box<Node>>,
    Option<Box<Node>>,
) {
    match x {
        Some(n) if index != tree_len(x) => {
            let p = split3_parts(*n, index);
            (p.0, merged2(Some(Box::new(p.1)), p.2))
        },
        _ => (x, None),
    }
}

/// The single node holds its value, is red and has no children.
pub proof fn lemma_single(value: i32)
    ensures
        single(value).spec_value() == value,
        single(value).is_single(),
        tree_color(Some(Box::new(single(value)))) == Color::Red,
        tree_len(Some(Box::new(single(value)))) == 1,
{
}

/// Going one node further down leaves what the path makes of the parts as it was.
proof fn lemma_lifted_push(path: Seq<Step>, step: Step, x: Node, index: nat)
    requires
        step.node.value == x.value,
        step.node.len == x.len,
        step.node.bh == x.bh,
        step.node.color == x.color,
        step.went_left ==> index < tree_len(x.left) && x.left is Some && step.node.right
            == x.right,
        !step.went_left ==> index > tree_len(x.left) && x.right is Some && step.node.left
            == x.left,
    ensures
        step.went_left ==> lifted(path.push(step), split3_parts(*x.left.unwrap(), index))
            == lifted(path, split3_parts(x, index)),
        !step.went_left ==> lifted(
            path.push(step),
            split3_parts(*x.right.unwrap(), (index - tree_len(x.left) - 1) as nat),
        ) == lifted(path, split3_parts(x, index)),
{
    reveal(split3_parts);
    assert(path.push(step).drop_last() =~= path);
    assert(path.push(step).last() == step);
}

proof fn lemma_elems(n: Node)
    ensures
        n.elems() == n.inner(),
{
    reveal(Node::elems);
}

/// Every way down through the subtree passes `k` black nodes, the empty end counted.
pub open spec fn every_way(t: Option<Box<Node>>, k: nat) -> bool
    decreases t,
{
    match t {
        None => k == 1,
        Some(n) => {
            let own: nat = if n.spec_color() == Color::Black {
                1
            } else {
                0
            };
            k >= own && every_way(n.spec_left(), (k - own) as nat) && every_way(
                n.spec_right(),
                (k - own) as nat,
            )
        },
    }
}

/// In a tree that meets the invariants every way down passes as many black nodes as the
/// root says.
pub proof fn lemma_every_way(t: Option<Box<Node>>)
    requires
        tree_wf(t),
    ensures
        every_way(t, tree_total(t)),
        t matches Some(n) ==> every_way(n.spec_left(), tree_bh(t)) && every_way(
            n.spec_right(),
            tree_bh(t),
        ),
    decreases t,
{
    match t {
        None => {},
        Some(n) => {
            lemma_every_way(n.left);
            lemma_every_way(n.right);
        },
    }
}

/// The empty tree meets the invariants and holds nothing, the stored size of a tree that
/// meets the invariants is the number of its values, and a tree that is not empty meets
/// the invariants exactly when its root does.
pub proof fn lemma_tree_size(t: Option<Box<Node>>)
    ensures
        tree_wf(None::<Box<Node>>),
        tree_elems(None::<Box<Node>>) == Seq::<i32>::empty(),
        tree_len(None::<Box<Node>>) == 0,
        tree_len(t) <= usize::MAX,
        tree_wf(t) ==> tree_len(t) == tree_elems(t).len(),
        t matches Some(n) ==> tree_wf(t) == n.wf(),
{
    if tree_wf(t) {
        lemma_tree_len(t);
    }
}

proof fn lemma_tree_len(t: Option<Box<Node>>)
    requires
        tree_wf(t),
    ensures
        tree_elems(t).len() == tree_len(t),
        tree_total(t) >= 1,
        t matches Some(n) ==> n.meta_ok() && n.no_red_red() && tree_wf(n.left) && tree_wf(n.right),
{
}

/// A red-black subtree with black height `b` holds at least `2^(b - 1) - 1` nodes.
pub proof fn lemma_tree_min_nodes(t: Option<Box<Node>>)
    requires
        tree_wf(t),
    ensures
        tree_total(t) >= 1,
        tree_len(t) + 1 >= pow2((tree_total(t) - 1) as nat),
    decreases t,
{
    lemma2_to64();
    match t {
        None => {},
        Some(n) => {
            lemma_tree_min_nodes(n.left);
            lemma_tree_min_nodes(n.right);
            lemma_pow2_unfold(n.bh as nat);
        },
    }
}

/// A red-black subtree whose size fits in `usize` has black height at most 65.
pub proof fn lemma_tree_bh_bound(t: Option<Box<Node>>)
    requires
        tree_wf(t),
    ensures
        1 <= tree_total(t) <= 65,
        tree_bh(t) <= 65,
{
    lemma_tree_min_nodes(t);
    lemma2_to64();
    if tree_total(t) >= 66 {
        lemma_pow2_unfold(65);
        if tree_total(t) > 66 {
            lemma_pow2_strictly_increases(65, (tree_total(t) - 1) as nat);
        }
        assert(tree_len(t) <= usize::MAX);
        assert(usize::MAX <= u64::MAX);
    }
}

/// What the passed node and its remaining subtree put before the subtree walked into.
pub closed spec fn step_left(s: Step) -> Seq<i32> {
    if s.went_left {
        Seq::empty()
    } else {
        tree_elems(s.node.left) + seq![s.node.value]
    }
}

/// What the passed node and its remaining subtree put after the subtree walked into.
pub closed spec fn step_right(s: Step) -> Seq<i32> {
    if s.went_left {
        seq![s.node.value] + tree_elems(s.node.right)
    } else {
        Seq::empty()
    }
}

/// The passed node holds no child on the side walked into, and a sound subtree on the other.
pub closed spec fn step_wf(s: Step) -> bool {
    if s.went_left {
        s.node.left is None && tree_wf(s.node.right)
    } else {
        s.node.right is None && tree_wf(s.node.left)
    }
}

/// All values that lie before the subtree at the end of the path, outermost first.
pub closed spec fn path_left(path: Seq<Step>) -> Seq<i32>
    decreases path.len(),
{
    if path.len() == 0 {
        Seq::empty()
    } else {
        path_left(path.drop_last()) + step_left(path.last())
    }
}

/// All values that lie after the subtree at the end of the path, innermost first.
pub closed spec fn path_right(path: Seq<Step>) -> Seq<i32>
    decreases path.len(),
{
    if path.len() == 0 {
        Seq::empty()
    } else {
        step_right(path.last()) + path_right(path.drop_last())
    }
}

/// Every step of the path is sound.
pub closed spec fn path_wf(path: Seq<Step>) -> bool {
    forall|i: int| 0 <= i < path.len() ==> step_wf(#[trigger] path[i])
}

/// The whole sequence around a hole: what lies before, what fills the hole, what lies after.
pub closed spec fn plugged(path: Seq<Step>, hole: Seq<i32>) -> Seq<i32> {
    path_left(path) + hole + path_right(path)
}

proof fn lemma_plug_push(path: Seq<Step>, s: Step, hole: Seq<i32>)
    ensures
        plugged(path.push(s), hole) == plugged(path, step_left(s) + hole + step_right(s)),
        path_left(path.push(s)) == path_left(path) + step_left(s),
{
    assert(path.push(s).drop_last() =~= path);
    assert(plugged(path.push(s), hole) =~= plugged(path, step_left(s) + hole + step_right(s)));
}

proof fn lemma_plug_empty(hole: Seq<i32>)
    ensures
        plugged(Seq::<Step>::empty(), hole) == hole,
        path_left(Seq::<Step>::empty()) == Seq::<i32>::empty(),
{
    assert(plugged(Seq::<Step>::empty(), hole) =~= hole);
}

/// The subtree that a passed node still holds.
pub closed spec fn step_other(s: Step) -> Option<Box<Node>> {
    if s.went_left {
        s.node.right
    } else {
        s.node.left
    }
}

/// Every passed node agrees in black height with a subtree of black height `t` in the hole
/// below it, and no red passed node has a red neighbour outside the hole.
pub closed spec fn path_ok(path: Seq<Step>, t: nat) -> bool
    decreases path.len(),
{
    if path.len() == 0 {
        true
    } else {
        let s = path.last();
        &&& step_wf(s)
        &&& s.node.bh == t
        &&& tree_total(step_other(s)) == t
        &&& (s.node.color == Color::Red ==> tree_color(step_other(s)) == Color::Black)
        &&& (s.node.color == Color::Red && path.len() >= 2 ==> path[path.len() - 2].node.color
            == Color::Black)
        &&& path_ok(path.drop_last(), s.node.total())
    }
}

/// The outermost passed node is black.
pub closed spec fn path_top_black(path: Seq<Step>) -> bool {
    path.len() > 0 ==> path[0].node.color == Color::Black
}

/// The length of a plugged sequence is that of its filling and of what lies around it.
proof fn lemma_plug_len(path: Seq<Step>, hole: Seq<i32>)
    ensures
        plugged(path, hole).len() == path_left(path).len() + hole.len() + path_right(path).len(),
{
}

/// A path walked only to the left has nothing before its hole, one walked only to the right
/// nothing after it, so a filling may grow on that side.
proof fn lemma_plug_swap(path: Seq<Step>, l: Seq<i32>, r: Seq<i32>, v: i32, leftwards: bool)
    requires
        forall|i: int| 0 <= i < path.len() ==> (#[trigger] path[i]).went_left == leftwards,
    ensures
        leftwards ==> plugged(path, l + seq![v] + r) == l + seq![v] + plugged(path, r),
        !leftwards ==> plugged(path, l + seq![v] + r) == plugged(path, l) + seq![v] + r,
    decreases path.len(),
{
    if path.len() == 0 {
        lemma_plug_empty(l + seq![v] + r);
        lemma_plug_empty(l);
        lemma_plug_empty(r);
    } else {
        lemma_one_sided(path, leftwards);
        if leftwards {
            assert(plugged(path, l + seq![v] + r) =~= l + seq![v] + plugged(path, r));
        } else {
            assert(plugged(path, l + seq![v] + r) =~= plugged(path, l) + seq![v] + r);
        }
    }
}

/// A path walked only to one side has nothing on the other side of its hole.
proof fn lemma_one_sided(path: Seq<Step>, leftwards: bool)
    requires
        forall|i: int| 0 <= i < path.len() ==> (#[trigger] path[i]).went_left == leftwards,
    ensures
        leftwards ==> path_left(path) == Seq::<i32>::empty(),
        !leftwards ==> path_right(path) == Seq::<i32>::empty(),
    decreases path.len(),
{
    if path.len() > 0 {
        lemma_one_sided(path.drop_last(), leftwards);
        assert(path.last().went_left == leftwards);
        if leftwards {
            assert(path_left(path) =~= Seq::<i32>::empty());
        } else {
            assert(path_right(path) =~= Seq::<i32>::empty());
        }
    }
}

fn size(x: &Option<Box<Node>>) -> (n: usize)
    ensures
        n == tree_len(*x),
{
    match x {
        None => 0,
        Some(n) => n.len,
    }
}

fn bh(x: &Option<Box<Node>>) -> (b: u8)
    ensures
        b == tree_bh(*x),
{
    match x {
        None => 0,
        Some(n) => n.bh,
    }
}

fn color(x: &Option<Box<Node>>) -> (c: Color)
    ensures
        c == tree_color(*x),
{
    match x {
        None => Color::Black,
        Some(n) => n.color,
    }
}

/// The subtree with its root painted black; the empty subtree stays empty.
pub closed spec fn tree_blackened(t: Option<Box<Node>>) -> Option<Box<Node>> {
    match t {
        None => None,
        Some(n) => Some(Box::new(Node { color: Color::Black, ..*n })),
    }
}

/// Painting the root black changes the colour of the root and nothing else, and nothing at
/// all where the root is black.
pub proof fn lemma_blackened(t: Option<Box<Node>>)
    ensures
        tree_color(tree_blackened(t)) == Color::Black,
        tree_color(t) == Color::Black ==> tree_blackened(t) == t,
        tree_elems(tree_blackened(t)) == tree_elems(t),
        tree_len(tree_blackened(t)) == tree_len(t),
        (tree_blackened(t) is None) == (t is None),
        t matches Some(n) ==> tree_blackened(t).unwrap().spec_left() == n.spec_left()
            && tree_blackened(t).unwrap().spec_right() == n.spec_right() && tree_blackened(
            t,
        ).unwrap().spec_value() == n.spec_value(),
{
    match t {
        None => {},
        Some(n) => {
            lemma_elems(*n);
            lemma_elems(*tree_blackened(t).unwrap());
        },
    }
}

/// Paints the root of a subtree black.
fn blacken(t: &mut Option<Box<Node>>)
    requires
        tree_wf(*old(t)),
    ensures
        *final(t) == tree_blackened(*old(t)),
        tree_wf(*final(t)),
        tree_elems(*final(t)) == tree_elems(*old(t)),
        tree_len(*final(t)) == tree_len(*old(t)),
        tree_bh(*final(t)) == tree_bh(*old(t)),
        tree_color(*final(t)) == Color::Black,
        tree_total(*final(t)) == tree_bh(*final(t)) + 1,
{
    match t.as_mut() {
        Some(n) => {
            proof {
                lemma_elems(**n);
            }
            n.color = Color::Black;
            proof {
                lemma_elems(**n);
            }
        },
        None => {},
    }
}

impl Node {
    /// Recomputes size and black height from the children.
    fn update(&mut self)
        requires
            tree_wf(old(self).left),
            tree_wf(old(self).right),
            tree_total(old(self).left) == tree_total(old(self).right),
            tree_len(old(self).left) + tree_len(old(self).right) < usize::MAX,
        ensures
            final(self).left == old(self).left,
            final(self).right == old(self).right,
            final(self).value == old(self).value,
            final(self).color == old(self).color,
            final(self).meta_ok(),
            final(self).elems() == old(self).inner(),
            *final(self) == old(self).over(old(self).left, old(self).right),
    {
        proof {
            lemma_tree_bh_bound(self.left);
            lemma_tree_bh_bound(self.right);
            lemma_tree_len(self.left);
            lemma_tree_len(self.right);
        }
        self.len = 1;
        self.bh = 1;
        match self.left.as_ref() {
            Some(l) => {
                self.len += l.len;
                let t = l.bh + if l.color == Color::Black {
                    1u8
                } else {
                    0u8
                };
                if t > self.bh {
                    self.bh = t;
                }
            },
            None => {},
        }
        match self.right.as_ref() {
            Some(r) => {
                self.len += r.len;
                let t = r.bh + if r.color == Color::Black {
                    1u8
                } else {
                    0u8
                };
                if t > self.bh {
                    self.bh = t;
                }
            },
            None => {},
        }
        proof {
            lemma_elems(*self);
        }
    }

    /// Whether both children have the black height that the node stores and the stored size
    /// is one more than the sizes of the children.
    pub fn validate_balance(&self) -> (ok: bool)
        ensures
            ok == (tree_total(self.spec_left()) == tree_bh(Some(Box::new(*self))) && tree_total(
                self.spec_right(),
            ) == tree_bh(Some(Box::new(*self))) && tree_len(Some(Box::new(*self))) == tree_len(
                self.spec_left(),
            ) + 1 + tree_len(self.spec_right())),
            self.wf() ==> ok,
    {
        let left_bh: u16 = bh(&self.left) as u16 + if color(&self.left) == Color::Black {
            1u16
        } else {
            0u16
        };
        let right_bh: u16 = bh(&self.right) as u16 + if color(&self.right) == Color::Black {
            1u16
        } else {
            0u16
        };
        let llen = size(&self.left);
        let rlen = size(&self.right);
        self.bh as u16 == left_bh && self.bh as u16 == right_bh && llen < usize::MAX && rlen
            <= usize::MAX - 1 - llen && self.len == llen + 1 + rlen
    }
}

/// Hangs four black subtrees of equal black height under three nodes: `y` black on top,
/// `x` and `z` red below it, in the order `a x b y c z d`.
fn restructure(
    mut x: Box<Node>,
    mut y: Box<Node>,
    mut z: Box<Node>,
    a: Option<Box<Node>>,
    b: Option<Box<Node>>,
    c: Option<Box<Node>>,
    d: Option<Box<Node>>,
) -> (top: Box<Node>)
    requires
        tree_wf(a),
        tree_wf(b),
        tree_wf(c),
        tree_wf(d),
        tree_color(a) == Color::Black,
        tree_color(b) == Color::Black,
        tree_color(c) == Color::Black,
        tree_color(d) == Color::Black,
        tree_total(a) == tree_total(b),
        tree_total(b) == tree_total(c),
        tree_total(c) == tree_total(d),
        tree_len(a) + tree_len(b) + tree_len(c) + tree_len(d) + 2 < usize::MAX,
    ensures
        top.wf(),
        tree_color(Some(top)) == Color::Black,
        tree_total(Some(top)) == tree_total(a) + 1,
        top.elems() == tree_elems(a) + seq![x.spec_value()] + tree_elems(b) + seq![
            y.spec_value(),
        ] + tree_elems(c) + seq![z.spec_value()] + tree_elems(d),
        *top == restructured(*x, *y, *z, a, b, c, d),
{
    proof {
        lemma_tree_len(a);
        lemma_tree_len(b);
        lemma_tree_len(c);
        lemma_tree_len(d);
    }
    let ghost (xv, yv, zv) = (x.spec_value(), y.spec_value(), z.spec_value());
    x.left = a;
    x.right = b;
    x.color = Color::Red;
    x.update();
    assert(x.wf());
    z.left = c;
    z.right = d;
    z.color = Color::Red;
    z.update();
    assert(z.wf());
    proof {
        lemma_tree_len(Some(x));
        lemma_tree_len(Some(z));
    }
    y.left = Some(x);
    y.right = Some(z);
    y.color = Color::Black;
    y.update();
    assert(y.wf());
    proof {
        lemma_concat_nested(tree_elems(a), xv, tree_elems(b), yv, tree_elems(c), zv, tree_elems(d));
    }
    y
}

/// Hangs `cur` into the hole of the passed node and recomputes the node.
fn attach(step: Step, cur: Box<Node>) -> (p: Box<Node>)
    requires
        step_wf(step),
        cur.wf(),
        tree_total(Some(cur)) == tree_total(step_other(step)),
        tree_len(step_other(step)) + tree_len(Some(cur)) < usize::MAX,
    ensures
        p.meta_ok(),
        tree_wf(p.spec_left()),
        tree_wf(p.spec_right()),
        p.elems() == step_left(step) + cur.elems() + step_right(step),
        tree_color(Some(p)) == tree_color(Some(step.node)),
        tree_bh(Some(p)) == tree_total(Some(cur)),
        step.went_left ==> p.spec_left() == Some(cur) && p.spec_right() == step_other(step),
        !step.went_left ==> p.spec_right() == Some(cur) && p.spec_left() == step_other(step),
        *p == attached(step, *cur),
{
    let went_left = step.went_left;
    let mut p = step.node;
    if went_left {
        p.left = Some(cur);
    } else {
        p.right = Some(cur);
    }
    p.update();
    proof {
        assert(p.elems() =~= step_left(step) + cur.elems() + step_right(step));
    }
    p
}

/// Joins `l`, the single node `c` and `r` into one red-black tree with a black root, in that
/// order.
#[verifier::rlimit(40)]
pub fn merge3(l: Option<Box<Node>>, mut c: Box<Node>, r: Option<Box<Node>>) -> (z: Box<Node>)
    requires
        tree_wf(l),
        tree_wf(r),
        c.is_single(),
        tree_len(l) + tree_len(r) < usize::MAX,
    ensures
        z.wf(),
        tree_color(Some(z)) == Color::Black,
        z.elems() == tree_elems(l) + seq![c.spec_value()] + tree_elems(r),
        tree_len(Some(z)) == tree_len(l) + 1 + tree_len(r),
        tree_bh(l) == tree_bh(r) ==> z.spec_left() == tree_blackened(l) && z.spec_right()
            == tree_blackened(r) && z.spec_value() == c.spec_value(),
        *z == merged3(l, *c, r),
{
    let ghost goal = merged3(l, *c, r);
    let ghost c_in = *c;
    let ghost el = tree_elems(l);
    let ghost er = tree_elems(r);
    let ghost v = c.spec_value();
    let mut l = l;
    let mut r = r;
    c.color = Color::Red;
    blacken(&mut l);
    blacken(&mut r);
    let ghost bl0 = tree_bh(l);
    let ghost br0 = tree_bh(r);
    let ghost l1 = l;
    let ghost r1 = r;
    proof {
        reveal(merged3);
        reveal(repaired);
        lemma_tree_len(l);
        lemma_tree_len(r);
        lemma_tree_bh_bound(l);
        lemma_tree_bh_bound(r);
        lemma_plug_empty(tree_elems(r));
        lemma_plug_empty(tree_elems(l));
    }
    let mut path: Vec<Step> = Vec::new();
    let bl = bh(&l);
    let br = bh(&r);
    if bl < br {
        while bh(&l) < bh(&r)
            invariant
                tree_wf(l),
                tree_wf(r),
                tree_elems(l) == el,
                tree_len(l) + tree_len(r) < usize::MAX,
                tree_total(l) == tree_bh(l) + 1,
                tree_color(l) == Color::Black,
                tree_bh(l) <= tree_bh(r),
                path_ok(path@, tree_total(r)),
                path_top_black(path@),
                path@.len() == 0 ==> tree_color(r) == Color::Black,
                path@.len() > 0 ==> (path@.last().node.color == Color::Red ==> tree_color(r)
                    == Color::Black),
                path@.len() > 0 ==> tree_bh(l) < path@.last().node.bh,
                path@.len() == 0 ==> tree_bh(l) < tree_bh(r),
                plugged(path@, tree_elems(r)) == er,
                forall|i: int| 0 <= i < path@.len() ==> (#[trigger] path@[i]).went_left,
                l == l1,
                edge(r, bl0, true, path@) == edge(r1, bl0, true, Seq::empty()),
                tree_bh(l) == bl0,
            decreases tree_len(r),
        {
            let mut p = r.unwrap();
            let ghost here = p.elems();
            proof {
                lemma_tree_len(p.left);
                lemma_tree_len(p.right);
                lemma_elems(*p);
            }
            r = p.left.take();
            let step = Step { node: p, went_left: true };
            proof {
                lemma_plug_push(path@, step, tree_elems(r));
                assert(step_left(step) + tree_elems(r) + step_right(step) =~= here);
                assert(path@.push(step).drop_last() =~= path@);
            }
            path.push(step);
        }
    } else if bl > br {
        while bh(&l) > bh(&r)
            invariant
                tree_wf(l),
                tree_wf(r),
                tree_elems(r) == er,
                tree_len(l) + tree_len(r) < usize::MAX,
                tree_total(r) == tree_bh(r) + 1,
                tree_color(r) == Color::Black,
                tree_bh(r) <= tree_bh(l),
                path_ok(path@, tree_total(l)),
                path_top_black(path@),
                path@.len() == 0 ==> tree_color(l) == Color::Black,
                path@.len() > 0 ==> (path@.last().node.color == Color::Red ==> tree_color(l)
                    == Color::Black),
                path@.len() > 0 ==> tree_bh(r) < path@.last().node.bh,
                path@.len() == 0 ==> tree_bh(r) < tree_bh(l),
                plugged(path@, tree_elems(l)) == el,
                forall|i: int| 0 <= i < path@.len() ==> !(#[trigger] path@[i]).went_left,
                r == r1,
                edge(l, br0, false, path@) == edge(l1, br0, false, Seq::empty()),
                tree_bh(r) == br0,
            decreases tree_len(l),
        {
            let mut p = l.unwrap();
            let ghost here = p.elems();
            proof {
                lemma_tree_len(p.left);
                lemma_tree_len(p.right);
                lemma_elems(*p);
            }
            l = p.right.take();
            let step = Step { node: p, went_left: false };
            proof {
                lemma_plug_push(path@, step, tree_elems(l));
                assert(step_left(step) + tree_elems(l) + step_right(step) =~= here);
                assert(path@.push(step).drop_last() =~= path@);
            }
            path.push(step);
        }
    }
    let ghost below_l = tree_elems(l);
    let ghost below_r = tree_elems(r);
    proof {
        lemma_tree_len(l);
        lemma_tree_len(r);
        lemma_plug_len(path@, tree_elems(l));
        lemma_plug_len(path@, tree_elems(r));
    }
    c.left = l;
    c.right = r;
    c.update();
    proof {
        lemma_plug_swap(path@, below_l, below_r, v, bl0 < br0);
        lemma_plug_len(path@, c.elems());
    }
    let mut root = repair(path, c);
    proof {
        lemma_elems(*root);
    }
    root.color = Color::Black;
    proof {
        lemma_elems(*root);
    }
    root
}

/// Rebuilds the tree above the red node `cur`, recolouring and restructuring where a red
/// node would get a red child.
#[verifier::rlimit(40)]
fn repair(path: Vec<Step>, cur: Box<Node>) -> (z: Box<Node>)
    requires
        cur.wf(),
        path_ok(path@, tree_total(Some(cur))),
        path_top_black(path@),
        plugged(path@, cur.elems()).len() <= usize::MAX,
    ensures
        z.wf(),
        z.elems() == plugged(path@, cur.elems()),
        path@.len() == 0 ==> z == cur,
        *z == repaired(path@, *cur, false),
{
    let ghost goal = repaired(path@, *cur, false);
    let ghost whole = plugged(path@, cur.elems());
    let ghost first = cur;
    let ghost steps = path@.len();
    let mut path = path;
    let mut cur = cur;
    let mut settled = false;
    while path.len() > 0
        invariant
            cur.wf(),
            path_ok(path@, tree_total(Some(cur))),
            path_top_black(path@),
            plugged(path@, cur.elems()) == whole,
            whole.len() <= usize::MAX,
            settled && path@.len() > 0 && path@.last().node.color == Color::Red ==> tree_color(
                Some(cur),
            ) == Color::Black,
            steps == 0 ==> cur == first,
            path@.len() <= steps,
            repaired(path@, *cur, settled) == goal,
        decreases path.len(),
    {
        let ghost before = path@;
        let ghost filling = cur.elems();
        let step = path.pop().unwrap();
        proof {
            reveal(repaired);
            assert(before =~= path@.push(step));
            assert(before.drop_last() =~= path@);
            assert(before.last() == step);
            lemma_plug_push(path@, step, filling);
            lemma_tree_len(Some(cur));
            lemma_tree_len(step.node.left);
            lemma_tree_len(step.node.right);
            lemma_plug_len(path@, step_left(step) + filling + step_right(step));
        }
        if settled || cur.color == Color::Black || step.node.color == Color::Black {
            let p = attach(step, cur);
            settled = true;
            cur = p;
        } else {
            // A red node below a red node: the node above both is black.
            let ghost above = path@;
            let ghost mid = step_left(step) + filling + step_right(step);
            proof {
                assert(path_ok(above, step.node.total()));
                assert(above.len() > 0) by {
                    assert(before[0].node.color == Color::Black);
                }
            }
            let up = path.pop().unwrap();
            proof {
                assert(above =~= path@.push(up));
                assert(above.drop_last() =~= path@);
                assert(above.last() == up);
                assert(step_wf(up));
                lemma_plug_push(path@, up, mid);
                lemma_tree_len(up.node.left);
                lemma_tree_len(up.node.right);
                lemma_plug_len(path@, step_left(up) + mid + step_right(up));
            }
            let uncle_red = if up.went_left {
                color(&up.node.right) == Color::Red
            } else {
                color(&up.node.left) == Color::Red
            };
            if uncle_red {
                cur = recolor(step, up, cur);
            } else {
                cur = restructure_at(step, up, cur);
                settled = true;
            }
        }
    }
    proof {
        reveal(repaired);
        assert(path@ =~= Seq::<Step>::empty());
        lemma_plug_empty(cur.elems());
    }
    cur
}

/// What must hold of a red node `cur` below the red passed node `step` below the black
/// passed node `up` for the repair to act on the three.
pub closed spec fn red_below_red(step: Step, up: Step, cur: Box<Node>) -> bool {
    &&& cur.wf()
    &&& tree_color(Some(cur)) == Color::Red
    &&& step_wf(step)
    &&& step_wf(up)
    &&& step.node.color == Color::Red
    &&& up.node.color == Color::Black
    &&& tree_color(step_other(step)) == Color::Black
    &&& tree_total(step_other(step)) == tree_total(Some(cur))
    &&& tree_total(step_other(up)) == tree_total(Some(cur))
    &&& tree_len(Some(cur)) + tree_len(step_other(step)) + tree_len(step_other(up)) + 2
        <= usize::MAX
}

/// The values of the three nodes and their subtrees in order.
pub closed spec fn three_elems(step: Step, up: Step, cur: Box<Node>) -> Seq<i32> {
    step_left(up) + (step_left(step) + cur.elems() + step_right(step)) + step_right(up)
}

/// A red node under a red node with a red uncle: the two below the top turn black and the
/// top turns red.
#[verifier::rlimit(40)]
fn recolor(step: Step, up: Step, cur: Box<Node>) -> (z: Box<Node>)
    requires
        red_below_red(step, up, cur),
        tree_color(step_other(up)) == Color::Red,
    ensures
        z.wf(),
        tree_color(Some(z)) == Color::Red,
        tree_total(Some(z)) == tree_total(Some(cur)) + 1,
        z.elems() == three_elems(step, up, cur),
        *z == recolored(step, up, *cur),
{
    let mut step = step;
    let mut up = up;
    proof {
        lemma_tree_len(Some(cur));
        lemma_tree_len(step.node.left);
        lemma_tree_len(step.node.right);
        lemma_tree_len(up.node.left);
        lemma_tree_len(up.node.right);
    }
    step.node.color = Color::Black;
    if up.went_left {
        blacken(&mut up.node.right);
    } else {
        blacken(&mut up.node.left);
    }
    up.node.color = Color::Red;
    let p = attach(step, cur);
    assert(p.wf());
    proof {
        lemma_tree_len(Some(p));
    }
    let pp = attach(up, p);
    assert(pp.wf());
    pp
}

proof fn lemma_three_ll(ce: Seq<i32>, pv: i32, pr: Seq<i32>, ppv: i32, u: Seq<i32>)
    ensures
        Seq::<i32>::empty() + (Seq::<i32>::empty() + ce + (seq![pv] + pr)) + (seq![ppv] + u) == ce
            + seq![pv] + pr + seq![ppv] + u,
{
    assert(Seq::<i32>::empty() + (Seq::<i32>::empty() + ce + (seq![pv] + pr)) + (seq![ppv] + u)
        =~= ce + seq![pv] + pr + seq![ppv] + u);
}

proof fn lemma_three_lr(
    pl: Seq<i32>,
    pv: i32,
    b: Seq<i32>,
    cv: i32,
    c: Seq<i32>,
    ppv: i32,
    u: Seq<i32>,
)
    ensures
        Seq::<i32>::empty() + ((pl + seq![pv]) + (b + seq![cv] + c) + Seq::<i32>::empty()) + (
        seq![ppv] + u) == pl + seq![pv] + b + seq![cv] + c + seq![ppv] + u,
{
    assert(Seq::<i32>::empty() + ((pl + seq![pv]) + (b + seq![cv] + c) + Seq::<i32>::empty()) + (
    seq![ppv] + u) =~= pl + seq![pv] + b + seq![cv] + c + seq![ppv] + u);
}

proof fn lemma_three_rl(
    u: Seq<i32>,
    ppv: i32,
    b: Seq<i32>,
    cv: i32,
    c: Seq<i32>,
    pv: i32,
    pr: Seq<i32>,
)
    ensures
        (u + seq![ppv]) + (Seq::<i32>::empty() + (b + seq![cv] + c) + (seq![pv] + pr))
            + Seq::<i32>::empty() == u + seq![ppv] + b + seq![cv] + c + seq![pv] + pr,
{
    assert((u + seq![ppv]) + (Seq::<i32>::empty() + (b + seq![cv] + c) + (seq![pv] + pr))
        + Seq::<i32>::empty() =~= u + seq![ppv] + b + seq![cv] + c + seq![pv] + pr);
}

proof fn lemma_three_rr(u: Seq<i32>, ppv: i32, pl: Seq<i32>, pv: i32, ce: Seq<i32>)
    ensures
        (u + seq![ppv]) + ((pl + seq![pv]) + ce + Seq::<i32>::empty()) + Seq::<i32>::empty() == u
            + seq![ppv] + pl + seq![pv] + ce,
{
    assert((u + seq![ppv]) + ((pl + seq![pv]) + ce + Seq::<i32>::empty()) + Seq::<i32>::empty()
        =~= u + seq![ppv] + pl + seq![pv] + ce);
}

/// A red node under a red node with a black uncle: the middle one of the three in order
/// goes on top, black, with the other two red below it.
#[verifier::rlimit(40)]
fn restructure_at(step: Step, up: Step, cur: Box<Node>) -> (z: Box<Node>)
    requires
        red_below_red(step, up, cur),
        tree_color(step_other(up)) == Color::Black,
    ensures
        z.wf(),
        tree_color(Some(z)) == Color::Black,
        tree_total(Some(z)) == tree_total(Some(cur)) + 1,
        z.elems() == three_elems(step, up, cur),
        *z == restructured_at(step, up, *cur),
{
    let ghost ce = cur.elems();
    let ghost cv = cur.spec_value();
    let mut cur = cur;
    let Step { node: mut p, went_left: low_left } = step;
    let Step { node: mut pp, went_left: high_left } = up;
    let ghost pv = p.spec_value();
    let ghost ppv = pp.spec_value();
    proof {
        lemma_elems(*cur);
        lemma_tree_len(Some(cur));
        lemma_tree_len(cur.left);
        lemma_tree_len(cur.right);
        lemma_tree_len(p.left);
        lemma_tree_len(p.right);
        lemma_tree_len(pp.left);
        lemma_tree_len(pp.right);
    }
    if high_left {
        let d = pp.right.take();
        if low_left {
            let c3 = p.right.take();
            proof {
                lemma_three_ll(ce, pv, tree_elems(c3), ppv, tree_elems(d));
            }
            restructure_left(cur, p, pp, c3, d)
        } else {
            let a = p.left.take();
            let b = cur.left.take();
            let c3 = cur.right.take();
            proof {
                lemma_three_lr(
                    tree_elems(a),
                    pv,
                    tree_elems(b),
                    cv,
                    tree_elems(c3),
                    ppv,
                    tree_elems(d),
                );
            }
            restructure(p, cur, pp, a, b, c3, d)
        }
    } else {
        let a = pp.left.take();
        if low_left {
            let d = p.right.take();
            let b = cur.left.take();
            let c3 = cur.right.take();
            proof {
                lemma_three_rl(
                    tree_elems(a),
                    ppv,
                    tree_elems(b),
                    cv,
                    tree_elems(c3),
                    pv,
                    tree_elems(d),
                );
            }
            restructure(pp, cur, p, a, b, c3, d)
        } else {
            let b = p.left.take();
            proof {
                lemma_three_rr(tree_elems(a), ppv, tree_elems(b), pv, ce);
            }
            restructure_right(pp, p, cur, a, b)
        }
    }
}

/// Puts the black node `y` on top of the red subtree `x` to its left and of the node `z`,
/// made red, over `c` and `d` to its right.
fn restructure_left(
    x: Box<Node>,
    mut y: Box<Node>,
    mut z: Box<Node>,
    c: Option<Box<Node>>,
    d: Option<Box<Node>>,
) -> (top: Box<Node>)
    requires
        x.wf(),
        tree_color(Some(x)) == Color::Red,
        tree_wf(c),
        tree_wf(d),
        tree_color(c) == Color::Black,
        tree_color(d) == Color::Black,
        tree_total(Some(x)) == tree_total(c),
        tree_total(c) == tree_total(d),
        tree_len(Some(x)) + tree_len(c) + tree_len(d) + 1 < usize::MAX,
    ensures
        top.wf(),
        tree_color(Some(top)) == Color::Black,
        tree_total(Some(top)) == tree_total(c) + 1,
        top.elems() == x.elems() + seq![y.spec_value()] + tree_elems(c) + seq![z.spec_value()]
            + tree_elems(d),
        *top == y.painted(Color::Black).over(
            Some(x),
            Some(Box::new(z.painted(Color::Red).over(c, d))),
        ),
{
    proof {
        lemma_tree_len(Some(x));
        lemma_tree_len(c);
        lemma_tree_len(d);
    }
    let ghost (yv, zv) = (y.spec_value(), z.spec_value());
    z.left = c;
    z.right = d;
    z.color = Color::Red;
    z.update();
    assert(z.wf());
    proof {
        lemma_tree_len(Some(z));
    }
    y.left = Some(x);
    y.right = Some(z);
    y.color = Color::Black;
    y.update();
    assert(y.wf());
    proof {
        assert(y.elems() =~= x.elems() + seq![yv] + tree_elems(c) + seq![zv] + tree_elems(d));
    }
    y
}

/// Puts the black node `y` on top of the node `x`, made red, over `a` and `b` to its left
/// and of the red subtree `z` to its right.
fn restructure_right(
    mut x: Box<Node>,
    mut y: Box<Node>,
    z: Box<Node>,
    a: Option<Box<Node>>,
    b: Option<Box<Node>>,
) -> (top: Box<Node>)
    requires
        z.wf(),
        tree_color(Some(z)) == Color::Red,
        tree_wf(a),
        tree_wf(b),
        tree_color(a) == Color::Black,
        tree_color(b) == Color::Black,
        tree_total(Some(z)) == tree_total(a),
        tree_total(a) == tree_total(b),
        tree_len(Some(z)) + tree_len(a) + tree_len(b) + 1 < usize::MAX,
    ensures
        top.wf(),
        tree_color(Some(top)) == Color::Black,
        tree_total(Some(top)) == tree_total(a) + 1,
        top.elems() == tree_elems(a) + seq![x.spec_value()] + tree_elems(b) + seq![
            y.spec_value(),
        ] + z.elems(),
        *top == y.painted(Color::Black).over(
            Some(Box::new(x.painted(Color::Red).over(a, b))),
            Some(z),
        ),
{
    proof {
        lemma_tree_len(Some(z));
        lemma_tree_len(a);
        lemma_tree_len(b);
    }
    let ghost (xv, yv) = (x.spec_value(), y.spec_value());
    x.left = a;
    x.right = b;
    x.color = Color::Red;
    x.update();
    assert(x.wf());
    proof {
        lemma_tree_len(Some(x));
    }
    y.left = Some(x);
    y.right = Some(z);
    y.color = Color::Black;
    y.update();
    assert(y.wf());
    proof {
        assert(y.elems() =~= tree_elems(a) + seq![xv] + tree_elems(b) + seq![yv] + z.elems());
    }
    y
}

/// Splits off the node at `index`, returning what lies before it, the node, and what lies after.
#[verifier::rlimit(40)]
pub fn split3(x: Box<Node>, index: usize) -> (res: (
    Option<Box<Node>>,
    Box<Node>,
    Option<Box<Node>>,
))
    requires
        x.wf(),
        index < x.elems().len(),
    ensures
        tree_wf(res.0),
        tree_wf(res.2),
        res.1.wf(),
        res.1.is_single(),
        res.1.spec_value() == x.elems()[index as int],
        tree_elems(res.0) == x.elems().subrange(0, index as int),
        tree_elems(res.2) == x.elems().subrange(index + 1, x.elems().len() as int),
        tree_len(res.0) == index,
        tree_len(res.0) + 1 + tree_len(res.2) == x.elems().len(),
        tree_len(res.0) + tree_len(res.2) < usize::MAX,
        (res.0, *res.1, res.2) == split3_parts(*x, index as nat),
{
    let ghost whole = x.elems();
    let ghost target = index;
    let ghost goal = split3_parts(*x, index as nat);
    let mut path: Vec<Step> = Vec::new();
    let mut x = x;
    let mut index = index;
    proof {
        lemma_plug_empty(x.elems());
        lemma_tree_len(Some(x));
    }
    loop
        invariant
            x.wf(),
            index < x.elems().len(),
            path_wf(path@),
            plugged(path@, x.elems()) == whole,
            path_left(path@).len() + index == target,
            lifted(path@, split3_parts(*x, index as nat)) == goal,
        ensures
            x.wf(),
            path_wf(path@),
            plugged(path@, x.elems()) == whole,
            path_left(path@).len() + tree_len(x.left) == target,
            lifted(path@, (x.left, x.over(None, None), x.right)) == goal,
        decreases x.elems().len(),
    {
        let ghost here_node = *x;
        proof {
            lemma_tree_len(x.left);
            lemma_tree_len(x.right);
            lemma_elems(*x);
        }
        let llen = size(&x.left);
        let ghost before = path@;
        let ghost here = x.elems();
        if index < llen {
            let child = x.left.take().unwrap();
            let step = Step { node: x, went_left: true };
            proof {
                lemma_lifted_push(before, step, here_node, index as nat);
                lemma_plug_push(before, step, child.elems());
                assert(step_left(step) + child.elems() + step_right(step) =~= here);
            }
            path.push(step);
            x = child;
        } else if index == llen {
            proof {
                reveal(split3_parts);
            }
            break ;
        } else {
            let child = x.right.take().unwrap();
            let step = Step { node: x, went_left: false };
            proof {
                lemma_lifted_push(before, step, here_node, index as nat);
                lemma_plug_push(before, step, child.elems());
                assert(step_left(step) + child.elems() + step_right(step) =~= here);
            }
            path.push(step);
            x = child;
            index -= llen + 1;
        }
    }
    proof {
        lemma_elems(*x);
        lemma_tree_len(x.left);
        lemma_tree_len(x.right);
    }
    while path.len() > 0
        invariant
            tree_wf(x.left),
            tree_wf(x.right),
            path_wf(path@),
            plugged(path@, x.inner()) == whole,
            path_left(path@).len() + tree_len(x.left) == target,
            whole.len() <= usize::MAX,
            lifted(path@, (x.left, x.over(None, None), x.right)) == goal,
        decreases path.len(),
    {
        let ghost before = path@;
        let ghost hole = x.inner();
        let step = path.pop().unwrap();
        proof {
            assert(before =~= path@.push(step));
            assert(before.drop_last() =~= path@);
            assert(before.last() == step);
            lemma_plug_push(path@, step, hole);
            assert(step_wf(before[before.len() - 1]));
            lemma_tree_len(x.left);
            lemma_tree_len(x.right);
            lemma_tree_len(step.node.left);
            lemma_tree_len(step.node.right);
            lemma_plug_len(path@, step_left(step) + hole + step_right(step));
        }
        let went_left = step.went_left;
        let mut p = step.node;
        if went_left {
            let pr = p.right.take();
            let xr = x.right.take();
            x.right = Some(merge3(xr, p, pr));
        } else {
            let pl = p.left.take();
            let xl = x.left.take();
            x.left = Some(merge3(pl, p, xl));
        }
        proof {
            assert(x.inner() =~= step_left(step) + hole + step_right(step));
            lemma_tree_len(x.left);
        }
    }
    proof {
        lemma_plug_empty(x.inner());
        assert(path@ =~= Seq::<Step>::empty());
        lemma_tree_len(x.left);
        lemma_tree_len(x.right);
        lemma_cut_middle(tree_elems(x.left), x.spec_value(), tree_elems(x.right));
    }
    let l = x.left.take();
    let r = x.right.take();
    x.update();
    (l, x, r)
}

/// Concatenates two red-black trees.
pub fn merge2(l: Option<Box<Node>>, r: Option<Box<Node>>) -> (z: Option<Box<Node>>)
    requires
        tree_wf(l),
        tree_wf(r),
        tree_len(l) + tree_len(r) <= usize::MAX,
    ensures
        tree_wf(z),
        tree_elems(z) == joined((tree_elems(l), tree_elems(r))),
        tree_len(z) == tree_len(l) + tree_len(r),
        r is None ==> z == l,
        z == merged2(l, r),
{
    proof {
        reveal(merged2);
        lemma_tree_len(l);
        lemma_tree_len(r);
    }
    match r {
        None => {
            assert(tree_elems(l) + tree_elems(r) =~= tree_elems(l));
            l
        },
        Some(r) => {
            let ghost e = r.elems();
            let (_, c, r) = split3(r, 0);
            proof {
                lemma_tree_len(r);
            }
            let z = merge3(l, c, r);
            proof {
                assert(z.elems() =~= tree_elems(l) + e);
            }
            Some(z)
        },
    }
}

/// Splits a red-black tree into its first `index` values and the rest.
pub fn split2(x: Option<Box<Node>>, index: usize) -> (res: (
    Option<Box<Node>>,
    Option<Box<Node>>,
))
    requires
        tree_wf(x),
        index <= tree_elems(x).len(),
    ensures
        tree_wf(res.0),
        tree_wf(res.1),
        (tree_elems(res.0), tree_elems(res.1)) == split_at(tree_elems(x), index as int),
        tree_len(res.0) == index,
        tree_len(res.0) + tree_len(res.1) == tree_len(x),
        tree_len(res.0) + tree_len(res.1) <= usize::MAX,
        index == tree_len(x) ==> res.0 == x && res.1 is None,
        res == split2_parts(x, index as nat),
{
    proof {
        reveal(split2_parts);
        lemma_tree_len(x);
    }
    if index == size(&x) {
        proof {
            let e = tree_elems(x);
            assert(e.subrange(0, e.len() as int) =~= e);
            assert(e.subrange(e.len() as int, e.len() as int) =~= Seq::<i32>::empty());
        }
        return (x, None);
    }
    let ghost e = tree_elems(x);
    let (l, c, r) = split3(x.unwrap(), index);
    proof {
        lemma_tree_len(r);
        lemma_elems(*c);
        assert(c.elems() =~= seq![c.spec_value()]);
    }
    let z = merge2(Some(c), r);
    proof {
        assert(tree_elems(z) =~= e.subrange(index as int, e.len() as int));
    }
    (l, z)
}

/// Builds a red-black tree from `values[lo..hi]`, with the midpoint at the root, `levels`
/// black nodes on every way down, and red nodes only on the level below them.
fn from_iter_recurse(values: &Vec<i32>, lo: usize, hi: usize, levels: u8) -> (t: Option<
    Box<Node>,
>)
    requires
        lo <= hi <= values.len(),
        levels <= 64,
        pow2(levels as nat) <= (hi - lo) + 1 <= pow2((levels + 1) as nat),
    ensures
        tree_wf(t),
        tree_elems(t) == values@.subrange(lo as int, hi as int),
        tree_total(t) == levels + 1,
        levels > 0 ==> tree_color(t) == Color::Black,
        t == built(values@, lo as int, hi as int, levels as nat),
    decreases hi - lo,
{
    let n = hi - lo;
    proof {
        reveal(built);
        lemma2_to64();
        lemma_pow2_unfold((levels + 1) as nat);
        if levels > 0 {
            lemma_pow2_unfold(levels as nat);
        }
    }
    if n == 0 {
        assert(values@.subrange(lo as int, hi as int) =~= Seq::<i32>::empty());
        proof {
            if levels > 0 {
                vstd::arithmetic::power2::lemma_pow2_pos((levels - 1) as nat);
            }
        }
        return None;
    }
    let mid = lo + n / 2;
    let below = if levels == 0 {
        0
    } else {
        levels - 1
    };
    let left = from_iter_recurse(values, lo, mid, below);
    let right = from_iter_recurse(values, mid + 1, hi, below);
    let mut c = Box::new(
        Node {
            left,
            right,
            value: values[mid],
            bh: 0,
            len: 0,
            color: if levels == 0 {
                Color::Red
            } else {
                Color::Black
            },
        },
    );
    proof {
        lemma_tree_len(c.left);
        lemma_tree_len(c.right);
    }
    c.update();
    proof {
        assert(c.elems() =~= values@.subrange(lo as int, hi as int));
    }
    Some(c)
}

/// The number of full levels of a tree of `n` nodes built from midpoints.
fn full_levels(n: usize) -> (levels: u8)
    ensures
        levels <= 64,
        pow2(levels as nat) <= n + 1 < pow2((levels + 1) as nat),
        levels == full_levels_of(n as nat),
{
    let m: u128 = n as u128 + 1;
    let mut levels: u8 = 0;
    let mut p: u128 = 1;
    proof {
        lemma2_to64();
    }
    while 2 * p <= m
        invariant
            p == pow2(levels as nat),
            1 <= p <= m,
            m == n + 1,
            levels <= 64,
            m <= 0x1_0000_0000_0000_0000,
        decreases m - p,
    {
        proof {
            lemma_pow2_unfold((levels + 1) as nat);
            if levels >= 64 {
                lemma2_to64();
            }
        }
        p = 2 * p;
        levels += 1;
    }
    proof {
        lemma_pow2_unfold((levels + 1) as nat);
        lemma_full_levels(n as nat, levels as nat);
    }
    levels
}

impl View for RbTreeWithParent {
    type V = Seq<i32>;

    /// The values of the sequence in order.
    closed spec fn view(&self) -> Seq<i32> {
        tree_elems(self.root)
    }
}

impl Default for RbTreeWithParent {
    fn default() -> (t: Self)
        ensures
            t.wf(),
            t@ == Seq::<i32>::empty(),
    {
        Self::new()
    }
}

impl RbTreeWithParent {
    /// Size, black height and colour invariants hold at every node.
    pub closed spec fn wf(&self) -> bool {
        tree_wf(self.root)
    }

    /// The empty sequence.
    pub fn new() -> (t: Self)
        ensures
            t.wf(),
            t@ == Seq::<i32>::empty(),
    {
        Self { root: None }
    }

    /// The number of values.
    pub fn len(&self) -> (n: usize)
        requires
            self.wf(),
        ensures
            n == self@.len(),
    {
        proof {
            lemma_tree_len(self.root);
        }
        size(&self.root)
    }

    /// Whether the sequence holds no value.
    pub fn is_empty(&self) -> (b: bool)
        requires
            self.wf(),
        ensures
            b == (self@.len() == 0),
    {
        self.len() == 0
    }

    /// Places `value` at position `index`, moving what was there and after it one step back.
    pub fn insert(&mut self, index: usize, value: i32)
        requires
            old(self).wf(),
            index <= old(self)@.len(),
            old(self)@.len() < usize::MAX,
        ensures
            final(self).wf(),
            final(self)@ == inserted(old(self)@, index as int, value),
            final(self).spec_root() == Some(
                Box::new(
                    merged3(
                        split2_parts(old(self).spec_root(), index as nat).0,
                        single(value),
                        split2_parts(old(self).spec_root(), index as nat).1,
                    ),
                ),
            ),
    {
        proof {
            lemma_tree_len(self.root);
        }
        let c = Box::new(
            Node { left: None, right: None, value, len: 1, bh: 1, color: Color::Red },
        );
        let (l, r) = split2(self.root.take(), index);
        proof {
            lemma_tree_len(l);
            lemma_tree_len(r);
        }
        self.root = Some(merge3(l, c, r));
    }

    /// Takes out the value at position `index` and returns it.
    pub fn remove(&mut self, index: usize) -> (value: i32)
        requires
            old(self).wf(),
            index < old(self)@.len(),
        ensures
            final(self).wf(),
            final(self)@ == removed(old(self)@, index as int),
            value == old(self)@[index as int],
            old(self).spec_root() matches Some(n) && final(self).spec_root() == merged2(
                split3_parts(*n, index as nat).0,
                split3_parts(*n, index as nat).2,
            ),
    {
        proof {
            lemma_tree_len(self.root);
        }
        let (l, c, r) = split3(self.root.take().unwrap(), index);
        proof {
            lemma_tree_len(l);
            lemma_tree_len(r);
        }
        self.root = merge2(l, r);
        c.value
    }

    /// The tree that holds the sequence.
    pub closed spec fn spec_root(self) -> Option<Box<Node>> {
        self.root
    }

    /// The sequence is what its tree holds in order, and it meets its invariants exactly when
    /// its tree does.
    pub proof fn lemma_spec_root(&self)
        ensures
            self@ == tree_elems(self.spec_root()),
            self.wf() == tree_wf(self.spec_root()),
    {
    }

    /// Gives up the sequence for the tree that holds it.
    pub fn into_root(self) -> (r: Option<Box<Node>>)
        ensures
            tree_elems(r) == self@,
            tree_wf(r) == self.wf(),
            r == self.spec_root(),
    {
        self.root
    }

    /// The sequence held by a tree that meets the invariants.
    pub fn from_root(root: Option<Box<Node>>) -> (t: Self)
        requires
            tree_wf(root),
        ensures
            t.wf(),
            t@ == tree_elems(root),
            t.spec_root() == root,
    {
        Self { root }
    }

    /// The sequence holding `values` in order, built in linear time with the midpoint of
    /// every range at the root of its subtree.
    pub fn from_iter(values: Vec<i32>) -> (t: Self)
        ensures
            t.wf(),
            t@ == values@,
            t.spec_root() == built(
                values@,
                0,
                values@.len() as int,
                full_levels_of(values@.len()),
            ),
    {
        let levels = full_levels(values.len());
        let root = from_iter_recurse(&values, 0, values.len(), levels);
        proof {
            assert(values@.subrange(0, values.len() as int) =~= values@);
        }
        Self { root }
    }
}

impl Node {
    /// What the balance check of a node accepts, at this node and below: both children have
    /// the black height that the node stores, and the stored size is one more than the sizes
    /// of the children.
    pub closed spec fn checks_ok(self) -> bool
        decreases self,
    {
        &&& match self.left {
            None => true,
            Some(n) => n.checks_ok(),
        }
        &&& match self.right {
            None => true,
            Some(n) => n.checks_ok(),
        }
        &&& self.bh == tree_total(self.left)
        &&& self.bh == tree_total(self.right)
        &&& self.len == tree_len(self.left) + 1 + tree_len(self.right)
    }

    /// The number of nodes on the longest way down from this node.
    pub closed spec fn spec_depth(self) -> nat
        decreases self,
    {
        let l = match self.left {
            None => 0nat,
            Some(n) => n.spec_depth(),
        };
        let r = match self.right {
            None => 0nat,
            Some(n) => n.spec_depth(),
        };
        if l >= r {
            l + 1
        } else {
            r + 1
        }
    }
}

/// A subtree that meets the red-black invariants passes the balance check at every node.
pub proof fn lemma_wf_checks_ok(t: Option<Box<Node>>)
    requires
        tree_wf(t),
    ensures
        t matches Some(n) ==> n.checks_ok(),
    decreases t,
{
    match t {
        None => {},
        Some(n) => {
            lemma_wf_checks_ok(n.left);
            lemma_wf_checks_ok(n.right);
        },
    }
}

impl TreeNode for Node {
    open spec fn subtree_values(&self) -> Seq<i32> {
        self.elems()
    }

    closed spec fn left_child(&self) -> Option<Self> {
        match self.left {
            Some(n) => Some(*n),
            None => None,
        }
    }

    closed spec fn right_child(&self) -> Option<Self> {
        match self.right {
            Some(n) => Some(*n),
            None => None,
        }
    }

    open spec fn stored_value(&self) -> i32 {
        self.spec_value()
    }

    open spec fn depth(&self) -> nat {
        self.spec_depth()
    }

    proof fn lemma_children(&self) {
        lemma_elems(*self);
    }

    fn left(&self) -> (l: Option<&Self>) {
        match &self.left {
            Some(n) => Some(&**n),
            None => None,
        }
    }

    fn right(&self) -> (r: Option<&Self>) {
        match &self.right {
            Some(n) => Some(&**n),
            None => None,
        }
    }

    fn value(&self) -> (v: i32) {
        self.value
    }
}

impl Validatable for Node {
    open spec fn balance_ok(&self) -> bool {
        tree_total(self.spec_left()) == tree_bh(Some(Box::new(*self))) && tree_total(
            self.spec_right(),
        ) == tree_bh(Some(Box::new(*self))) && tree_len(Some(Box::new(*self))) == tree_len(
            self.spec_left(),
        ) + 1 + tree_len(self.spec_right())
    }

    open spec fn all_balance_ok(&self) -> bool {
        self.checks_ok()
    }

    proof fn lemma_all_balance(&self) {
    }

    fn validate_balance(&self) -> (ok: bool) {
        Node::validate_balance(self)
    }
}

impl HasRoot for RbTreeWithParent {
    type Node = Node;

    open spec fn values(&self) -> Seq<i32> {
        self@
    }

    closed spec fn root_node(&self) -> Option<Node> {
        match self.root {
            Some(n) => Some(*n),
            None => None,
        }
    }

    proof fn lemma_root(&self) {
    }

    fn root(&self) -> (r: Option<&Node>) {
        match &self.root {
            Some(n) => Some(&**n),
            None => None,
        }
    }
}

impl RbTreeWithParent {
    /// A tree that meets its invariants passes the balance check at every node.
    pub proof fn lemma_wf_validates(&self)
        requires
            self.wf(),
        ensures
            all_ok(self.root_node()),
    {
        lemma_wf_checks_ok(self.root);
    }
}

impl RbTreeWithParent {
    /// The stored black height of the root, 0 when empty.
    pub closed spec fn spec_black_height(&self) -> nat {
        tree_bh(self.root)
    }

    /// The black height of the tree: the number of black nodes on every way down from the
    /// root, the root not counted and the empty end counted; 0 when empty.
    pub fn black_height(&self) -> (h: u8)
        requires
            self.wf(),
        ensures
            h == self.spec_black_height(),
            self.spec_root() is None ==> h == 0,
            self.spec_root() matches Some(n) ==> every_way(n.spec_left(), h as nat) && every_way(
                n.spec_right(),
                h as nat,
            ),
            h <= 65,
            pow2(h as nat) <= 2 * (self@.len() + 1),
    {
        proof {
            lemma_every_way(self.root);
            lemma_tree_bh_bound(self.root);
            lemma_tree_min_nodes(self.root);
            lemma_tree_len(self.root);
            if self.root is Some {
                lemma_pow2_unfold(tree_bh(self.root));
                if tree_color(self.root) == Color::Red {
                    lemma_pow2_unfold(tree_bh(self.root));
                    if tree_bh(self.root) > 0 {
                        lemma_pow2_strictly_increases(
                            (tree_bh(self.root) - 1) as nat,
                            tree_bh(self.root),
                        );
                    }
                }
            } else {
                lemma2_to64();
            }
        }
        bh(&self.root)
    }
}

impl BenchmarkableTree for RbTreeWithParent {
    open spec fn seq(&self) -> Seq<i32> {
        self@
    }

    open spec fn sound(&self) -> bool {
        self.wf()
    }

    open spec fn reported_height(&self) -> nat {
        self.spec_black_height()
    }

    fn from_iter(values: Vec<i32>) -> (t: Self) {
        RbTreeWithParent::from_iter(values)
    }

    fn len(&self) -> (n: usize) {
        RbTreeWithParent::len(self)
    }

    fn height(&self) -> (h: u8) {
        self.black_height()
    }

    fn insert(&mut self, index: usize, value: i32) {
        RbTreeWithParent::insert(self, index, value)
    }

    fn remove(&mut self, index: usize) -> (value: i32) {
        RbTreeWithParent::remove(self, index)
    }
}

impl RbTreeWithParent {
    /// Like [`insert`](Self::insert), but turns a position beyond the end down, and every
    /// position once the sequence holds as many values as a `usize` can count, and leaves
    /// the sequence as it was.
    pub fn try_insert(&mut self, index: usize, value: i32) -> (r: Result<(), TreeError>)
        requires
            old(self).wf(),
        ensures
            final(self).wf(),
            index <= old(self)@.len() < usize::MAX ==> r is Ok && final(self)@ == inserted(
                old(self)@,
                index as int,
                value,
            ),
            !(index <= old(self)@.len() < usize::MAX) ==> r == Err::<(), TreeError>(
                TreeError::IndexOutOfRange,
            ) && final(self)@ == old(self)@,
    {
        let n = self.len();
        if index > n || n == usize::MAX {
            return Err(TreeError::IndexOutOfRange);
        }
        self.insert(index, value);
        Ok(())
    }

    /// Like [`remove`](Self::remove), but turns a position that does not exist down and
    /// leaves the sequence as it was.
    pub fn try_remove(&mut self, index: usize) -> (r: Result<i32, TreeError>)
        requires
            old(self).wf(),
        ensures
            final(self).wf(),
            index < old(self)@.len() ==> r is Ok && r->Ok_0 == old(self)@[index as int]
                && final(self)@ == removed(old(self)@, index as int),
            index >= old(self)@.len() ==> r == Err::<i32, TreeError>(TreeError::IndexOutOfRange)
                && final(self)@ == old(self)@,
    {
        if index >= self.len() {
            return Err(TreeError::IndexOutOfRange);
        }
        Ok(self.remove(index))
    }
}

} // verus!
