//! A set of `i64` keys on a left-leaning red-black tree.
//!
//! Red nodes are always left children, no red node has a red child, and every
//! way down from a node passes the same number of black nodes. Insertion and
//! removal walk down recursively and repair the colours on the way back up.

use vstd::prelude::*;

verus! {

/// The colour of a node.
#[derive(Clone, Copy, Debug, PartialEq, Eq, Structural)]
pub enum Color {
    Red,
    Black,
}

/// One key of the set.
pub struct Node {
    left: Option<Box<Node>>,
    right: Option<Box<Node>>,
    key: i64,
    color: Color,
}

/// A set of `i64` keys.
pub struct Rbtree {
    root: Option<Box<Node>>,
}

/// The keys are in strictly increasing order.
pub open spec fn sorted(s: Seq<i64>) -> bool {
    forall|i: int, j: int| 0 <= i < j < s.len() ==> s[i] < s[j]
}

/// The sequence with `key` put in its place, unless it is there already.
pub open spec fn with_key(s: Seq<i64>, key: i64) -> Seq<i64>
    decreases s.len(),
{
    if s.len() == 0 {
        seq![key]
    } else if key < s[0] {
        seq![key] + s
    } else if key == s[0] {
        s
    } else {
        seq![s[0]] + with_key(s.drop_first(), key)
    }
}

/// The sequence without its first entry that equals `key`, if there is one.
pub open spec fn without_key(s: Seq<i64>, key: i64) -> Seq<i64>
    decreases s.len(),
{
    if s.len() == 0 {
        s
    } else if s[0] == key {
        s.drop_first()
    } else {
        seq![s[0]] + without_key(s.drop_first(), key)
    }
}

/// What lies above a bound stays above it when a key above the bound is put in its place.
pub proof fn lemma_with_key_above(s: Seq<i64>, key: i64, lo: i64)
    requires
        lo < key,
        forall|i: int| 0 <= i < s.len() ==> lo < s[i],
    ensures
        forall|j: int| 0 <= j < with_key(s, key).len() ==> lo < #[trigger] with_key(s, key)[j],
    decreases s.len(),
{
    let r = with_key(s, key);
    if s.len() > 0 && key > s[0] {
        let t = s.drop_first();
        assert forall|i: int| 0 <= i < t.len() implies lo < t[i] by {
            assert(lo < s[i + 1]);
        }
        lemma_with_key_above(t, key, lo);
        let rt = with_key(t, key);
        assert forall|j: int| 0 <= j < r.len() implies lo < #[trigger] r[j] by {
            if j == 0 {
                assert(r[0] == s[0]);
            } else {
                assert(r[j] == rt[j - 1]);
            }
        }
    } else {
        assert forall|j: int| 0 <= j < r.len() implies lo < #[trigger] r[j] by {
            if s.len() == 0 {
                assert(r[0] == key);
            } else if key < s[0] {
                if j == 0 {
                    assert(r[0] == key);
                } else {
                    assert(r[j] == s[j - 1]);
                }
            } else {
                assert(r[j] == s[j]);
            }
        }
    }
}

/// What lies above a bound stays above it when a key is taken out.
pub proof fn lemma_without_key_above(s: Seq<i64>, key: i64, lo: i64)
    requires
        forall|i: int| 0 <= i < s.len() ==> lo < s[i],
    ensures
        forall|j: int|
            0 <= j < without_key(s, key).len() ==> lo < #[trigger] without_key(s, key)[j],
    decreases s.len(),
{
    let r = without_key(s, key);
    if s.len() > 0 {
        let t = s.drop_first();
        assert forall|i: int| 0 <= i < t.len() implies lo < t[i] by {
            assert(lo < s[i + 1]);
        }
        if s[0] != key {
            lemma_without_key_above(t, key, lo);
            let rt = without_key(t, key);
            assert forall|j: int| 0 <= j < r.len() implies lo < #[trigger] r[j] by {
                if j == 0 {
                    assert(r[0] == s[0]);
                } else {
                    assert(r[j] == rt[j - 1]);
                }
            }
        } else {
            assert forall|j: int| 0 <= j < r.len() implies lo < #[trigger] r[j] by {
                assert(r[j] == t[j]);
            }
        }
    }
}

/// The rest of a sorted sequence is sorted and lies above its first entry.
pub proof fn lemma_sorted_rest(s: Seq<i64>)
    requires
        sorted(s),
        s.len() > 0,
    ensures
        sorted(s.drop_first()),
        forall|i: int| 0 <= i < s.drop_first().len() ==> s[0] < s.drop_first()[i],
{
    let t = s.drop_first();
    assert forall|i: int, j: int| 0 <= i < j < t.len() implies t[i] < t[j] by {
        assert(s[i + 1] < s[j + 1]);
    }
    assert forall|i: int| 0 <= i < t.len() implies s[0] < t[i] by {
        assert(s[0] < s[i + 1]);
    }
}

/// A sorted sequence stays sorted when a key is put in its place.
pub proof fn lemma_with_key_sorted(s: Seq<i64>, key: i64)
    requires
        sorted(s),
    ensures
        sorted(with_key(s, key)),
    decreases s.len(),
{
    let r = with_key(s, key);
    if s.len() == 0 {
    } else if key < s[0] {
        assert forall|i: int, j: int| 0 <= i < j < r.len() implies r[i] < r[j] by {
            if i == 0 {
                assert(s[0] <= s[j - 1]) by {
                    if j - 1 > 0 {
                        assert(s[0] < s[j - 1]);
                    }
                }
            } else {
                assert(s[i - 1] < s[j - 1]);
            }
        }
    } else if key == s[0] {
    } else {
        let t = s.drop_first();
        lemma_sorted_rest(s);
        lemma_with_key_sorted(t, key);
        lemma_with_key_above(t, key, s[0]);
        let rt = with_key(t, key);
        assert forall|i: int, j: int| 0 <= i < j < r.len() implies r[i] < r[j] by {
            if i == 0 {
                assert(r[j] == rt[j - 1]);
            } else {
                assert(rt[i - 1] < rt[j - 1]);
            }
        }
    }
}

/// A sorted sequence stays sorted when a key is taken out.
pub proof fn lemma_without_key_sorted(s: Seq<i64>, key: i64)
    requires
        sorted(s),
    ensures
        sorted(without_key(s, key)),
    decreases s.len(),
{
    let r = without_key(s, key);
    if s.len() == 0 {
    } else if s[0] == key {
        lemma_sorted_rest(s);
    } else {
        let t = s.drop_first();
        lemma_sorted_rest(s);
        lemma_without_key_sorted(t, key);
        lemma_without_key_above(t, key, s[0]);
        let rt = without_key(t, key);
        assert forall|i: int, j: int| 0 <= i < j < r.len() implies r[i] < r[j] by {
            if i == 0 {
                assert(r[j] == rt[j - 1]);
            } else {
                assert(rt[i - 1] < rt[j - 1]);
            }
        }
    }
}

/// After a key has been put in its place, taking it out again gives back a sorted sequence
/// that did not hold it.
pub proof fn lemma_with_then_without(s: Seq<i64>, key: i64)
    requires
        sorted(s),
        forall|i: int| 0 <= i < s.len() ==> s[i] != key,
    ensures
        without_key(with_key(s, key), key) == s,
    decreases s.len(),
{
    if s.len() == 0 {
        assert(seq![key].drop_first() =~= s);
    } else if key < s[0] {
        assert((seq![key] + s).drop_first() =~= s);
    } else {
        let t = s.drop_first();
        lemma_sorted_rest(s);
        assert forall|i: int| 0 <= i < t.len() implies t[i] != key by {
            assert(s[i + 1] != key);
        }
        lemma_with_then_without(t, key);
        let r = with_key(s, key);
        assert(r.drop_first() =~= with_key(t, key));
        assert(without_key(r, key) =~= s);
    }
}

/// The parts of a sorted sequence around one of its keys are sorted, and lie below and
/// above that key.
pub proof fn lemma_sorted_parts(l: Seq<i64>, k: i64, r: Seq<i64>)
    requires
        sorted(l + seq![k] + r),
    ensures
        sorted(l),
        sorted(r),
        forall|i: int| 0 <= i < l.len() ==> l[i] < k,
        forall|i: int| 0 <= i < r.len() ==> k < r[i],
{
    let s = l + seq![k] + r;
    assert forall|i: int, j: int| 0 <= i < j < l.len() implies l[i] < l[j] by {
        assert(s[i] < s[j]);
    }
    assert forall|i: int, j: int| 0 <= i < j < r.len() implies r[i] < r[j] by {
        assert(s[l.len() + 1 + i] < s[l.len() + 1 + j]);
    }
    assert forall|i: int| 0 <= i < l.len() implies l[i] < k by {
        assert(s[i] < s[l.len() as int]);
    }
    assert forall|i: int| 0 <= i < r.len() implies k < r[i] by {
        assert(s[l.len() as int] < s[l.len() + 1 + i]);
    }
}

/// Putting a key that lies below `k` in its place only touches the part below `k`.
pub proof fn lemma_with_key_left(l: Seq<i64>, k: i64, r: Seq<i64>, key: i64)
    requires
        key < k,
    ensures
        with_key(l + seq![k] + r, key) == with_key(l, key) + seq![k] + r,
    decreases l.len(),
{
    let s = l + seq![k] + r;
    if l.len() == 0 {
        assert(s =~= seq![k] + r);
        assert(with_key(s, key) =~= seq![key] + seq![k] + r);
    } else {
        assert(s[0] == l[0]);
        if key < l[0] {
            assert(with_key(s, key) =~= with_key(l, key) + seq![k] + r);
        } else if key == l[0] {
        } else {
            assert(s.drop_first() =~= l.drop_first() + seq![k] + r);
            lemma_with_key_left(l.drop_first(), k, r, key);
            assert(with_key(s, key) =~= with_key(l, key) + seq![k] + r);
        }
    }
}

/// Putting a key that lies above `k` in its place only touches the part above `k`.
pub proof fn lemma_with_key_right(l: Seq<i64>, k: i64, r: Seq<i64>, key: i64)
    requires
        key > k,
        forall|i: int| 0 <= i < l.len() ==> l[i] < k,
    ensures
        with_key(l + seq![k] + r, key) == l + seq![k] + with_key(r, key),
    decreases l.len(),
{
    let s = l + seq![k] + r;
    if l.len() == 0 {
        assert(s =~= seq![k] + r);
        assert(s.drop_first() =~= r);
        assert(with_key(s, key) =~= l + seq![k] + with_key(r, key));
    } else {
        assert(s[0] == l[0]);
        assert(s.drop_first() =~= l.drop_first() + seq![k] + r);
        assert forall|i: int| 0 <= i < l.drop_first().len() implies l.drop_first()[i] < k by {
            assert(l[i + 1] < k);
        }
        lemma_with_key_right(l.drop_first(), k, r, key);
        assert(with_key(s, key) =~= l + seq![k] + with_key(r, key));
    }
}

/// Putting a key in place that is there already changes nothing.
pub proof fn lemma_with_key_present(l: Seq<i64>, k: i64, r: Seq<i64>)
    requires
        forall|i: int| 0 <= i < l.len() ==> l[i] < k,
    ensures
        with_key(l + seq![k] + r, k) == l + seq![k] + r,
    decreases l.len(),
{
    let s = l + seq![k] + r;
    if l.len() > 0 {
        assert(s[0] == l[0]);
        assert(s.drop_first() =~= l.drop_first() + seq![k] + r);
        assert forall|i: int| 0 <= i < l.drop_first().len() implies l.drop_first()[i] < k by {
            assert(l[i + 1] < k);
        }
        lemma_with_key_present(l.drop_first(), k, r);
        assert(with_key(s, k) =~= s);
    }
}

/// Taking out a key that lies below `k` only touches the part below `k`.
pub proof fn lemma_without_key_left(l: Seq<i64>, k: i64, r: Seq<i64>, key: i64)
    requires
        key < k,
        forall|i: int| 0 <= i < r.len() ==> k < r[i],
    ensures
        without_key(l + seq![k] + r, key) == without_key(l, key) + seq![k] + r,
    decreases l.len(),
{
    let s = l + seq![k] + r;
    if l.len() == 0 {
        assert(s =~= seq![k] + r);
        assert(s.drop_first() =~= r);
        lemma_without_absent(r, key);
        assert(without_key(s, key) =~= without_key(l, key) + seq![k] + r);
    } else {
        assert(s[0] == l[0]);
        assert(s.drop_first() =~= l.drop_first() + seq![k] + r);
        if l[0] == key {
            assert(without_key(s, key) =~= without_key(l, key) + seq![k] + r);
        } else {
            lemma_without_key_left(l.drop_first(), k, r, key);
            assert(without_key(s, key) =~= without_key(l, key) + seq![k] + r);
        }
    }
}

/// Taking out a key that lies above `k` only touches the part above `k`.
pub proof fn lemma_without_key_right(l: Seq<i64>, k: i64, r: Seq<i64>, key: i64)
    requires
        key > k,
        forall|i: int| 0 <= i < l.len() ==> l[i] < k,
    ensures
        without_key(l + seq![k] + r, key) == l + seq![k] + without_key(r, key),
    decreases l.len(),
{
    let s = l + seq![k] + r;
    if l.len() == 0 {
        assert(s =~= seq![k] + r);
        assert(s.drop_first() =~= r);
        assert(without_key(s, key) =~= l + seq![k] + without_key(r, key));
    } else {
        assert(s[0] == l[0]);
        assert(s.drop_first() =~= l.drop_first() + seq![k] + r);
        assert forall|i: int| 0 <= i < l.drop_first().len() implies l.drop_first()[i] < k by {
            assert(l[i + 1] < k);
        }
        lemma_without_key_right(l.drop_first(), k, r, key);
        assert(without_key(s, key) =~= l + seq![k] + without_key(r, key));
    }
}

/// Taking out the key `k` itself leaves the parts around it.
pub proof fn lemma_without_key_here(l: Seq<i64>, k: i64, r: Seq<i64>)
    requires
        forall|i: int| 0 <= i < l.len() ==> l[i] < k,
    ensures
        without_key(l + seq![k] + r, k) == l + r,
    decreases l.len(),
{
    let s = l + seq![k] + r;
    if l.len() == 0 {
        assert(s =~= seq![k] + r);
        assert(s.drop_first() =~= r);
        assert(without_key(s, k) =~= l + r);
    } else {
        assert(s[0] == l[0]);
        assert(s.drop_first() =~= l.drop_first() + seq![k] + r);
        assert forall|i: int| 0 <= i < l.drop_first().len() implies l.drop_first()[i] < k by {
            assert(l[i + 1] < k);
        }
        lemma_without_key_here(l.drop_first(), k, r);
        assert(without_key(s, k) =~= l + r);
    }
}

/// Taking out a key that is not there changes nothing.
pub proof fn lemma_without_absent(s: Seq<i64>, key: i64)
    requires
        forall|i: int| 0 <= i < s.len() ==> s[i] != key,
    ensures
        without_key(s, key) == s,
    decreases s.len(),
{
    if s.len() > 0 {
        assert forall|i: int| 0 <= i < s.drop_first().len() implies s.drop_first()[i]
            != key by {
            assert(s[i + 1] != key);
        }
        lemma_without_absent(s.drop_first(), key);
        assert(without_key(s, key) =~= s);
    }
}

/// The in-order keys of a subtree.
pub closed spec fn tree_elems(t: Option<Box<Node>>) -> Seq<i64> {
    match t {
        None => Seq::empty(),
        Some(n) => n.elems(),
    }
}

/// The colour of the root of a subtree; an empty subtree counts as black.
pub closed spec fn tree_color(t: Option<Box<Node>>) -> Color {
    match t {
        None => Color::Black,
        Some(n) => n.color,
    }
}

/// The colour of the left child of the root; black where there is none.
pub closed spec fn tree_left_color(t: Option<Box<Node>>) -> Color {
    match t {
        None => Color::Black,
        Some(n) => tree_color(n.left),
    }
}

/// The number of black nodes on the leftmost way down through the subtree, the empty end
/// counted.
pub closed spec fn tree_total(t: Option<Box<Node>>) -> nat
    decreases t,
{
    match t {
        None => 1,
        Some(n) => tree_total(n.left) + (if n.color == Color::Black {
            1nat
        } else {
            0nat
        }),
    }
}

/// The left-leaning red-black invariants hold at every node of the subtree.
pub closed spec fn tree_llrb(t: Option<Box<Node>>) -> bool
    decreases t,
{
    match t {
        None => true,
        Some(n) => n.llrb(),
    }
}

/// The subtree meets the invariants below its root and has no red right child at the root;
/// its root may be red with a red left child.
pub closed spec fn tree_almost(t: Option<Box<Node>>) -> bool {
    match t {
        None => true,
        Some(n) => n.node_ok() && tree_color(n.right) == Color::Black,
    }
}

impl Node {
    /// The keys of the subtree in order.
    #[verifier::opaque]
    pub closed spec fn elems(self) -> Seq<i64>
        decreases self,
    {
        let l = match self.left {
            None => Seq::empty(),
            Some(n) => n.elems(),
        };
        let r = match self.right {
            None => Seq::empty(),
            Some(n) => n.elems(),
        };
        l + seq![self.key] + r
    }

    /// The children's keys around this node's key.
    pub closed spec fn inner(self) -> Seq<i64> {
        tree_elems(self.left) + seq![self.key] + tree_elems(self.right)
    }

    /// Both children meet the invariants and have the same black height; nothing is said of
    /// the colours around this node.
    pub closed spec fn node_ok(self) -> bool {
        &&& tree_llrb(self.left)
        &&& tree_llrb(self.right)
        &&& tree_total(self.left) == tree_total(self.right)
    }

    /// The left-leaning red-black invariants hold at this node and below: no red right
    /// child, no red child of a red node, equal black heights.
    pub closed spec fn llrb(self) -> bool
        decreases self,
    {
        &&& tree_llrb(self.left)
        &&& tree_llrb(self.right)
        &&& tree_total(self.left) == tree_total(self.right)
        &&& tree_color(self.right) == Color::Black
        &&& (self.color == Color::Red ==> tree_color(self.left) == Color::Black)
    }

    /// The key stored at the node.
    pub closed spec fn spec_key(self) -> i64 {
        self.key
    }

    /// The left child.
    pub closed spec fn spec_left(self) -> Option<Box<Node>> {
        self.left
    }

    /// The right child.
    pub closed spec fn spec_right(self) -> Option<Box<Node>> {
        self.right
    }

    /// At a node that meets the invariants, the keys are those of the left child, the key of
    /// the node and those of the right child, both children have the same black height, the
    /// right child is black, a red node has a black left child, and both children meet the
    /// invariants.
    pub proof fn lemma_shape(self)
        requires
            self.llrb(),
        ensures
            self.elems() == tree_elems(self.spec_left()) + seq![self.spec_key()] + tree_elems(
                self.spec_right(),
            ),
            tree_total(self.spec_left()) == tree_total(self.spec_right()),
            tree_color(self.spec_right()) == Color::Black,
            tree_color(Some(Box::new(self))) == Color::Red ==> tree_color(self.spec_left())
                == Color::Black,
            tree_llrb(self.spec_left()),
            tree_llrb(self.spec_right()),
    {
        lemma_elems(self);
    }
}

/// The empty tree meets the invariants, holds nothing and counts as black.
pub proof fn lemma_empty_tree()
    ensures
        tree_llrb(None::<Box<Node>>),
        tree_elems(None::<Box<Node>>) == Seq::<i64>::empty(),
        tree_color(None::<Box<Node>>) == Color::Black,
        sorted(Seq::<i64>::empty()),
{
}

proof fn lemma_elems(n: Node)
    ensures
        n.elems() == n.inner(),
{
    reveal(Node::elems);
}

proof fn lemma_tree(t: Option<Box<Node>>)
    requires
        tree_llrb(t),
    ensures
        tree_total(t) >= 1,
        tree_almost(t),
        t matches Some(n) ==> n.node_ok() && n.llrb() && tree_color(n.right) == Color::Black && (
        n.color == Color::Red ==> tree_color(n.left) == Color::Black) && tree_total(t)
            == tree_total(n.left) + (if n.color == Color::Black {
            1nat
        } else {
            0nat
        }),
        t is None ==> tree_total(t) == 1 && tree_color(t) == Color::Black,
        tree_total(t) == 1 && tree_color(t) == Color::Black ==> t is None,
    decreases t,
{
    match t {
        None => {},
        Some(n) => {
            lemma_tree(n.left);
        },
    }
}

/// The black height of a node is that of its left child, one more for a black node.
proof fn lemma_total(n: Box<Node>)
    ensures
        tree_total(Some(n)) == tree_total(n.left) + (if n.color == Color::Black {
            1nat
        } else {
            0nat
        }),
{
}

impl Node {
    /// The node with the given children, its key and colour kept.
    pub closed spec fn with_children(self, l: Option<Box<Node>>, r: Option<Box<Node>>) -> Node {
        Node { left: l, right: r, ..self }
    }

    /// The node in the given colour.
    pub closed spec fn painted(self, c: Color) -> Node {
        Node { color: c, ..self }
    }

    /// The node with the given key in the place of its own.
    pub closed spec fn with_key(self, key: i64) -> Node {
        Node { key, ..self }
    }

    /// The colour of the node.
    pub closed spec fn spec_color(self) -> Color {
        self.color
    }

    /// The black node with two red children made a red node with two black children.
    pub open spec fn four_split(self) -> Node {
        self.painted(Color::Red).with_children(
            tree_painted(self.spec_left(), Color::Black),
            tree_painted(self.spec_right(), Color::Black),
        )
    }

    /// The node with two black children made a black node with two red children.
    pub open spec fn two_joined(self) -> Node {
        self.painted(Color::Black).with_children(
            tree_painted(self.spec_left(), Color::Red),
            tree_painted(self.spec_right(), Color::Red),
        )
    }

    /// What the node with other children, another colour or another key holds.
    pub proof fn lemma_fields(self, l: Option<Box<Node>>, r: Option<Box<Node>>, c: Color, k: i64)
        ensures
            self.with_children(l, r).spec_left() == l,
            self.with_children(l, r).spec_right() == r,
            self.with_children(l, r).spec_key() == self.spec_key(),
            self.with_children(l, r).spec_color() == self.spec_color(),
            self.painted(c).spec_left() == self.spec_left(),
            self.painted(c).spec_right() == self.spec_right(),
            self.painted(c).spec_key() == self.spec_key(),
            self.painted(c).spec_color() == c,
            self.with_key(k).spec_left() == self.spec_left(),
            self.with_key(k).spec_right() == self.spec_right(),
            self.with_key(k).spec_key() == k,
            self.with_key(k).spec_color() == self.spec_color(),
            single(k).spec_key() == k,
            single(k).spec_left() is None,
            single(k).spec_right() is None,
            single(k).spec_color() == Color::Red,
            tree_color(Some(Box::new(self))) == self.spec_color(),
            tree_color(None) == Color::Black,
            tree_left_color(Some(Box::new(self))) == tree_color(self.spec_left()),
            tree_left_color(None) == Color::Black,
    {
    }
}

/// The subtree with its root in the given colour; the empty subtree stays empty.
pub open spec fn tree_painted(t: Option<Box<Node>>, c: Color) -> Option<Box<Node>> {
    match t {
        None => None,
        Some(n) => Some(Box::new(n.painted(c))),
    }
}

/// The red node that holds `key` and nothing below it.
pub closed spec fn single(key: i64) -> Node {
    Node { left: None, right: None, key, color: Color::Red }
}

/// The subtree after its left child has been lifted above its root: the child takes the
/// colour of the root, which turns red.
pub open spec fn rotated_right(x: Node) -> Node {
    match x.spec_left() {
        Some(y) => y.painted(x.spec_color()).with_children(
            y.spec_left(),
            Some(Box::new(x.painted(Color::Red).with_children(y.spec_right(), x.spec_right()))),
        ),
        None => x,
    }
}

/// The subtree after its right child has been lifted above its root: the child takes the
/// colour of the root, which turns red.
pub open spec fn rotated_left(x: Node) -> Node {
    match x.spec_right() {
        Some(y) => y.painted(x.spec_color()).with_children(
            Some(Box::new(x.painted(Color::Red).with_children(x.spec_left(), y.spec_left()))),
            y.spec_right(),
        ),
        None => x,
    }
}

/// The subtree after the colour rule has acted on its root: a red right child is lifted
/// above the root; then a red left child with a red left child of its own is lifted above
/// the root; then two red children pass their colour up.
#[verifier::opaque]
pub open spec fn fixed(x: Node) -> Node {
    let x1 = if tree_color(x.spec_right()) == Color::Red {
        rotated_left(x)
    } else {
        x
    };
    let x2 = if tree_color(x1.spec_left()) == Color::Red && tree_left_color(x1.spec_left())
        == Color::Red {
        rotated_right(x1)
    } else {
        x1
    };
    if tree_color(x2.spec_left()) == Color::Red && tree_color(x2.spec_right()) == Color::Red {
        x2.four_split()
    } else {
        x2
    }
}

/// The subtree with `key` put in: a new red node where the search for `key` ends on an
/// empty subtree, the subtree itself where it ends on a node, and on the way back the
/// colour rule at every node passed.
#[verifier::opaque]
pub open spec fn put(x: Option<Box<Node>>, key: i64) -> Node
    decreases x,
{
    match x {
        None => single(key),
        Some(n) => {
            if key < n.spec_key() {
                fixed(n.with_children(Some(Box::new(put(n.spec_left(), key))), n.spec_right()))
            } else if key == n.spec_key() {
                *n
            } else {
                fixed(n.with_children(n.spec_left(), Some(Box::new(put(n.spec_right(), key)))))
            }
        },
    }
}

/// The node after its left child has been made red for a walk into it: both children turn
/// red under the node, now black; where the right child then has a red left child, that
/// grandchild is lifted above the right child and above the node, and the colours pass up
/// again.
#[verifier::opaque]
pub open spec fn moved_red_left(x: Node) -> Node {
    let x2 = x.two_joined();
    match x2.spec_right() {
        Some(r) if tree_left_color(x2.spec_right()) == Color::Red => rotated_left(
            x2.with_children(x2.spec_left(), Some(Box::new(rotated_right(*r)))),
        ).four_split(),
        _ => x2,
    }
}

/// The node after its right child has been made red for a walk into it: both children turn
/// red under the node, now black; where the left child then has a red left child, the left
/// child is lifted above the node, and the colours pass up again.
#[verifier::opaque]
pub open spec fn moved_red_right(x: Node) -> Node {
    let x2 = x.two_joined();
    if tree_left_color(x2.spec_left()) == Color::Red {
        rotated_right(x2).four_split()
    } else {
        x2
    }
}

/// What is left of the subtree without the node of its least key, and that node. The left
/// child of a node holds fewer keys than the node; where it does not, nothing is taken.
#[verifier::opaque]
pub open spec fn without_min(x: Node) -> (Option<Box<Node>>, Node)
    decreases x.elems().len(),
{
    if x.spec_left() is None {
        (None, x)
    } else {
        let x1 = if tree_color(x.spec_left()) == Color::Black && tree_left_color(x.spec_left())
            == Color::Black {
            moved_red_left(x)
        } else {
            x
        };
        match x1.spec_left() {
            Some(l) if l.elems().len() < x.elems().len() => {
                let q = without_min(*l);
                (Some(Box::new(fixed(x1.with_children(q.0, x1.spec_right())))), q.1)
            },
            _ => (None, x),
        }
    }
}

/// What is left of the subtree without `key`. On the way to a key below that of the node,
/// a left child that is a black node with a black left child is made red first; on the way
/// to any other key a red left child is lifted above the node, and a right child that is
/// a black node with a black left child is made red; a node that holds `key` and has a
/// right child takes the least key of that child, whose node leaves instead; on the way
/// back the colour rule acts at every node passed. A child of a node holds fewer keys than
/// the node; where it does not, nothing is taken.
#[verifier::opaque]
pub open spec fn taken(x: Node, key: i64) -> Option<Box<Node>>
    decreases x.elems().len(),
{
    if key < x.spec_key() {
        if x.spec_left() is None {
            Some(Box::new(x))
        } else {
            let x1 = if tree_color(x.spec_left()) == Color::Black && tree_left_color(x.spec_left())
                == Color::Black {
                moved_red_left(x)
            } else {
                x
            };
            match x1.spec_left() {
                Some(l) if l.elems().len() < x.elems().len() => Some(
                    Box::new(fixed(x1.with_children(taken(*l, key), x1.spec_right()))),
                ),
                _ => Some(Box::new(x)),
            }
        }
    } else {
        let x1 = if tree_color(x.spec_left()) == Color::Red {
            rotated_right(x)
        } else {
            x
        };
        match x1.spec_right() {
            None => if key == x1.spec_key() {
                None
            } else {
                Some(Box::new(x1))
            },
            Some(_) => {
                let x2 = if tree_color(x1.spec_right()) == Color::Black && tree_left_color(
                    x1.spec_right(),
                ) == Color::Black {
                    moved_red_right(x1)
                } else {
                    x1
                };
                match x2.spec_right() {
                    Some(r) if r.elems().len() < x.elems().len() => {
                        if x2.spec_key() == key {
                            let q = without_min(*r);
                            Some(
                                Box::new(
                                    fixed(
                                        x2.with_key(q.1.spec_key()).with_children(
                                            x2.spec_left(),
                                            q.0,
                                        ),
                                    ),
                                ),
                            )
                        } else {
                            Some(Box::new(fixed(x2.with_children(x2.spec_left(), taken(*r, key)))))
                        }
                    },
                    _ => Some(Box::new(x)),
                }
            },
        }
    }
}

/// The tree with `key` put in and its root painted black.
pub open spec fn grown(x: Option<Box<Node>>, key: i64) -> Option<Box<Node>> {
    Some(Box::new(put(x, key).painted(Color::Black)))
}

/// The tree with `key` taken out: a root with a black left child turns red for the walk,
/// and the root of what is left is painted black.
pub open spec fn shrunk(x: Option<Box<Node>>, key: i64) -> Option<Box<Node>> {
    match x {
        None => None,
        Some(n) => tree_painted(
            taken(
                if tree_color(n.spec_left()) == Color::Black {
                    n.painted(Color::Red)
                } else {
                    *n
                },
                key,
            ),
            Color::Black,
        ),
    }
}

fn color(x: &Option<Box<Node>>) -> (c: Color)
    ensures
        c == tree_color(*x),
{
    match x {
        None => Color::Black,
        Some(n) => n.color,
    }
}

fn left_color(x: &Option<Box<Node>>) -> (c: Color)
    ensures
        c == tree_left_color(*x),
{
    match x {
        None => Color::Black,
        Some(n) => color(&n.left),
    }
}

/// Paints the root of a subtree in the given colour; nothing else changes.
fn paint(t: &mut Option<Box<Node>>, c: Color)
    requires
        *old(t) is Some,
    ensures
        *final(t) is Some,
        final(t).unwrap().color == c,
        final(t).unwrap().key == old(t).unwrap().key,
        final(t).unwrap().left == old(t).unwrap().left,
        final(t).unwrap().right == old(t).unwrap().right,
        tree_elems(*final(t)) == tree_elems(*old(t)),
        tree_color(*final(t)) == c,
        tree_total(*final(t)) == tree_total(old(t).unwrap().left) + (if c == Color::Black {
            1nat
        } else {
            0nat
        }),
        old(t).unwrap().node_ok() ==> final(t).unwrap().node_ok(),
        *final(t) == tree_painted(*old(t), c),
{
    match t.as_mut() {
        Some(n) => {
            proof {
                reveal(Node::elems);
            }
            n.color = c;
        },
        None => {},
    }
}

/// Makes the left child the root of the subtree, keeping the order of the keys; the new
/// root takes the colour of the old one, which turns red.
#[verifier::rlimit(40)]
fn rotate_right(mut x: Box<Node>) -> (z: Box<Node>)
    requires
        x.left is Some,
    ensures
        z.elems() == x.inner(),
        z.color == x.color,
        z.key == x.left.unwrap().key,
        z.left == x.left.unwrap().left,
        z.right is Some,
        z.right.unwrap().color == Color::Red,
        z.right.unwrap().key == x.key,
        z.right.unwrap().left == x.left.unwrap().right,
        z.right.unwrap().right == x.right,
        *z == rotated_right(*x),
{
    let mut y = x.left.take().unwrap();
    proof {
        lemma_elems(*y);
    }
    let ghost (yl, yk, yr) = (tree_elems(y.left), y.key, tree_elems(y.right));
    let ghost (xk, xr) = (x.key, tree_elems(x.right));
    x.left = y.right.take();
    y.color = x.color;
    x.color = Color::Red;
    proof {
        lemma_elems(*x);
    }
    y.right = Some(x);
    proof {
        lemma_elems(*y);
        crate::model::lemma_concat_shift(yl, yk, yr, xk, xr);
    }
    y
}

/// Makes the right child the root of the subtree, keeping the order of the keys; the new
/// root takes the colour of the old one, which turns red.
#[verifier::rlimit(40)]
fn rotate_left(mut x: Box<Node>) -> (z: Box<Node>)
    requires
        x.right is Some,
    ensures
        z.elems() == x.inner(),
        z.color == x.color,
        z.key == x.right.unwrap().key,
        z.right == x.right.unwrap().right,
        z.left is Some,
        z.left.unwrap().color == Color::Red,
        z.left.unwrap().key == x.key,
        z.left.unwrap().left == x.left,
        z.left.unwrap().right == x.right.unwrap().left,
        *z == rotated_left(*x),
{
    let mut y = x.right.take().unwrap();
    proof {
        lemma_elems(*y);
    }
    let ghost (yl, yk, yr) = (tree_elems(y.left), y.key, tree_elems(y.right));
    let ghost (xl, xk) = (tree_elems(x.left), x.key);
    x.right = y.left.take();
    y.color = x.color;
    x.color = Color::Red;
    proof {
        lemma_elems(*x);
    }
    y.left = Some(x);
    proof {
        lemma_elems(*y);
        crate::model::lemma_concat_shift(xl, xk, yl, yk, yr);
    }
    y
}

/// Turns a black node with two red children into a red node with two black children.
fn split_four_node(x: &mut Box<Node>)
    requires
        old(x).left is Some,
        old(x).right is Some,
    ensures
        final(x).color == Color::Red,
        final(x).key == old(x).key,
        final(x).elems() == old(x).elems(),
        final(x).inner() == old(x).inner(),
        final(x).left is Some,
        final(x).right is Some,
        tree_color(final(x).left) == Color::Black,
        tree_color(final(x).right) == Color::Black,
        final(x).left.unwrap().key == old(x).left.unwrap().key,
        final(x).left.unwrap().left == old(x).left.unwrap().left,
        final(x).left.unwrap().right == old(x).left.unwrap().right,
        final(x).right.unwrap().key == old(x).right.unwrap().key,
        final(x).right.unwrap().left == old(x).right.unwrap().left,
        final(x).right.unwrap().right == old(x).right.unwrap().right,
        tree_elems(final(x).left) == tree_elems(old(x).left),
        tree_elems(final(x).right) == tree_elems(old(x).right),
        **final(x) == old(x).four_split(),
{
    proof {
        lemma_elems(**x);
    }
    x.color = Color::Red;
    paint(&mut x.left, Color::Black);
    paint(&mut x.right, Color::Black);
    proof {
        lemma_elems(**x);
    }
}

/// Turns a node with two black children into a black node with two red children.
fn join_two_nodes(x: &mut Box<Node>)
    requires
        old(x).left is Some,
        old(x).right is Some,
    ensures
        final(x).color == Color::Black,
        final(x).key == old(x).key,
        final(x).elems() == old(x).elems(),
        final(x).inner() == old(x).inner(),
        final(x).left is Some,
        final(x).right is Some,
        tree_color(final(x).left) == Color::Red,
        tree_color(final(x).right) == Color::Red,
        final(x).left.unwrap().key == old(x).left.unwrap().key,
        final(x).left.unwrap().left == old(x).left.unwrap().left,
        final(x).left.unwrap().right == old(x).left.unwrap().right,
        final(x).right.unwrap().key == old(x).right.unwrap().key,
        final(x).right.unwrap().left == old(x).right.unwrap().left,
        final(x).right.unwrap().right == old(x).right.unwrap().right,
        tree_elems(final(x).left) == tree_elems(old(x).left),
        tree_elems(final(x).right) == tree_elems(old(x).right),
        **final(x) == old(x).two_joined(),
{
    proof {
        lemma_elems(**x);
    }
    x.color = Color::Black;
    paint(&mut x.left, Color::Red);
    paint(&mut x.right, Color::Red);
    proof {
        lemma_elems(**x);
    }
}

/// Restores the colour invariants at `x` after one child has been rebuilt: a red right
/// child is lifted above `x`, a red left child with a red left child of its own is lifted
/// above `x`, and two red children pass their colour up.
#[verifier::rlimit(40)]
fn fixup(mut x: Box<Node>) -> (z: Box<Node>)
    requires
        tree_almost(x.left),
        tree_llrb(x.right),
        tree_total(x.left) == tree_total(x.right),
        !tree_llrb(x.left) ==> x.color == Color::Black && tree_color(x.right) == Color::Black,
        x.color == Color::Red ==> !(tree_color(x.left) == Color::Red && tree_color(x.right)
            == Color::Red),
    ensures
        z.node_ok(),
        tree_color(z.right) == Color::Black,
        z.elems() == x.inner(),
        tree_total(Some(z)) == tree_total(Some(x)),
        x.color == Color::Black ==> z.llrb(),
        x.color == Color::Red ==> z.color == Color::Red,
        x.color == Color::Black && tree_color(x.right) == Color::Black && tree_llrb(x.left)
            ==> z.color == Color::Black,
        x.color == Color::Black && tree_color(x.left) == Color::Black ==> z.color
            == Color::Black,
        tree_color(x.left) == Color::Black && tree_color(x.right) == Color::Black ==> z.llrb()
            && z.color == x.color,
        tree_color(x.right) == Color::Black && (tree_color(x.left) == Color::Black
            || tree_left_color(x.left) == Color::Black) ==> z == x,
        *z == fixed(*x),
{
    proof {
        reveal(fixed);
    }
    let ghost x0 = *x;
    proof {
        lemma_elems(x0);
        lemma_tree(x.right);
        lemma_total(x);
        if tree_llrb(x.left) {
            lemma_tree(x.left);
        }
        if x.left is Some {
            lemma_total(x.left.unwrap());
            lemma_tree(x.left.unwrap().left);
            lemma_tree(x.left.unwrap().right);
        }
    }
    if color(&x.right) == Color::Red {
        proof {
            lemma_tree(x.right.unwrap().left);
            lemma_tree(x.right.unwrap().right);
            lemma_total(x.right.unwrap());
        }
        x = rotate_left(x);
        proof {
            lemma_elems(*x);
            lemma_total(x);
            lemma_total(x.left.unwrap());
            lemma_tree(x.right);
            assert(x.left.unwrap().node_ok());
        }
    }
    if color(&x.left) == Color::Red && left_color(&x.left) == Color::Red {
        proof {
            lemma_tree(x.left.unwrap().left);
            lemma_tree(x.left.unwrap().right);
            lemma_total(x.left.unwrap());
            lemma_total(x.left.unwrap().left.unwrap());
        }
        x = rotate_right(x);
        proof {
            lemma_elems(*x);
            lemma_total(x);
            lemma_total(x.right.unwrap());
            lemma_total(x.left.unwrap());
            lemma_tree(x.left);
            assert(x.right.unwrap().node_ok());
        }
    }
    if color(&x.left) == Color::Red && color(&x.right) == Color::Red {
        proof {
            lemma_total(x.left.unwrap());
            lemma_total(x.right.unwrap());
        }
        split_four_node(&mut x);
        proof {
            lemma_total(x);
            lemma_total(x.left.unwrap());
            lemma_total(x.right.unwrap());
            assert(x.left.unwrap().llrb());
            assert(x.right.unwrap().llrb());
        }
    }
    proof {
        lemma_total(x);
        if x0.color == Color::Black || (tree_color(x0.left) == Color::Black && tree_color(
            x0.right,
        ) == Color::Black) {
            assert(tree_llrb(x.left));
            assert(tree_llrb(x.right));
            assert(tree_total(x.left) == tree_total(x.right));
            assert(tree_color(x.right) == Color::Black);
            assert(x.color == Color::Red ==> tree_color(x.left) == Color::Black);
        }
    }
    x
}

/// Puts `key` into the subtree. The result may have a red root, and below a red root a red
/// left child.
#[verifier::rlimit(40)]
fn insert_recurse(x: Option<Box<Node>>, key: i64) -> (z: Box<Node>)
    requires
        tree_llrb(x),
        sorted(tree_elems(x)),
    ensures
        z.node_ok(),
        tree_color(z.right) == Color::Black,
        z.elems() == with_key(tree_elems(x), key),
        tree_total(Some(z)) == tree_total(x),
        tree_color(x) == Color::Black ==> z.llrb(),
        tree_color(x) == Color::Red ==> z.color == Color::Red,
        *z == put(x, key),
    decreases x,
{
    proof {
        reveal(put);
    }
    match x {
        None => {
            let z = Box::new(Node { left: None, right: None, key, color: Color::Red });
            proof {
                lemma_elems(*z);
                assert(z.inner() =~= seq![key]);
                assert(with_key(Seq::<i64>::empty(), key) =~= seq![key]);
                lemma_total(z);
            }
            z
        },
        Some(mut x) => {
            let ghost x0 = *x;
            let ghost (le, k, re) = (tree_elems(x.left), x.key, tree_elems(x.right));
            proof {
                lemma_elems(x0);
                lemma_tree(Some(x));
                lemma_tree(x.left);
                lemma_tree(x.right);
                lemma_sorted_parts(le, k, re);
                lemma_total(x);
            }
            if key < x.key {
                let t = insert_recurse(x.left.take(), key);
                proof {
                    lemma_with_key_left(le, k, re, key);
                }
                x.left = Some(t);
            } else if key == x.key {
                proof {
                    lemma_with_key_present(le, k, re);
                }
                return x;
            } else {
                let t = insert_recurse(x.right.take(), key);
                proof {
                    lemma_with_key_right(le, k, re, key);
                }
                x.right = Some(t);
            }
            proof {
                lemma_total(x);
            }
            fixup(x)
        },
    }
}

/// Puts `key` into the tree and paints the root black.
fn insert(x: Option<Box<Node>>, key: i64) -> (z: Option<Box<Node>>)
    requires
        tree_llrb(x),
        sorted(tree_elems(x)),
    ensures
        tree_llrb(z),
        tree_color(z) == Color::Black,
        tree_elems(z) == with_key(tree_elems(x), key),
        z == grown(x, key),
{
    let t = insert_recurse(x, key);
    let mut z = Some(t);
    paint(&mut z, Color::Black);
    proof {
        assert(z.unwrap().llrb());
    }
    z
}

/// A red node whose subtree meets the invariants: both its children are black.
pub closed spec fn red_node(x: Node) -> bool {
    x.color == Color::Red && x.llrb()
}

/// A black node with a red left child whose subtree meets the invariants.
pub closed spec fn three_node(x: Node) -> bool {
    x.color == Color::Black && x.llrb() && tree_color(x.left) == Color::Red
}

/// A black node with a black left child and a red right child, sound below the node.
pub closed spec fn leaning_right(x: Node) -> bool {
    x.color == Color::Black && x.node_ok() && tree_color(x.left) == Color::Black && tree_color(
        x.right,
    ) == Color::Red
}

/// What a removal needs of the node it stands on: a red node somewhere to give away, and
/// where that is a red right child, a key that is not below the node.
pub closed spec fn enterable(x: Node, key: i64) -> bool {
    &&& sorted(x.elems())
    &&& (red_node(x) || three_node(x) || (leaning_right(x) && key >= x.key))
}

/// The key of a node is greater than the key of its left child and less than that of its
/// right child.
proof fn lemma_child_keys(x: Node)
    requires
        sorted(x.inner()),
    ensures
        x.left matches Some(l) ==> l.key < x.key,
        x.right matches Some(r) ==> x.key < r.key,
{
    let s = x.inner();
    match x.left {
        Some(l) => {
            lemma_elems(*l);
            let i = tree_elems(l.left).len() as int;
            assert(s[i] == l.key);
            assert(s[tree_elems(x.left).len() as int] == x.key);
        },
        None => {},
    }
    match x.right {
        Some(r) => {
            lemma_elems(*r);
            let i = (tree_elems(x.left).len() + 1 + tree_elems(r.left).len()) as int;
            assert(s[i] == r.key);
            assert(s[tree_elems(x.left).len() as int] == x.key);
        },
        None => {},
    }
}

/// Makes the left child of the red node `x` red when it is a black node with a black left
/// child, taking a red node over from the right where the right child has one to give.
#[verifier::rlimit(40)]
fn move_red_left(mut x: Box<Node>) -> (z: Box<Node>)
    requires
        red_node(*x),
        sorted(x.elems()),
        x.left is Some,
        tree_left_color(x.left) == Color::Black,
    ensures
        z.elems() == x.elems(),
        tree_total(Some(z)) == tree_total(Some(x)),
        x.key <= z.key,
        z.left is Some,
        tree_llrb(z.right),
        tree_total(z.left) == tree_total(z.right),
        (z.color == Color::Black && tree_color(z.right) == Color::Red && red_node(
            *z.left.unwrap(),
        ) && z.key == x.key) || (z.color == Color::Red && tree_color(z.right) == Color::Black
            && three_node(*z.left.unwrap())),
        *z == moved_red_left(*x),
{
    proof {
        reveal(moved_red_left);
    }
    let ghost x0 = *x;
    proof {
        lemma_elems(x0);
        lemma_tree(Some(x));
        lemma_tree(x.left);
        lemma_tree(x.right);
        lemma_total(x);
        lemma_total(x.left.unwrap());
        lemma_tree(x.left.unwrap().left);
        lemma_tree(x.left.unwrap().right);
        lemma_child_keys(x0);
    }
    join_two_nodes(&mut x);
    proof {
        lemma_elems(*x);
        lemma_total(x);
        lemma_total(x.left.unwrap());
        lemma_total(x.right.unwrap());
        lemma_tree(x.right.unwrap().left);
        lemma_tree(x.right.unwrap().right);
        assert(x.left.unwrap().llrb());
    }
    if left_color(&x.right) == Color::Red {
        let r = x.right.take().unwrap();
        proof {
            lemma_elems(*r);
            lemma_total(r);
            lemma_total(r.left.unwrap());
            lemma_tree(r.left.unwrap().left);
            lemma_tree(r.left.unwrap().right);
            lemma_elems(*r.left.unwrap());
            let re = r.elems();
            lemma_sorted_parts(tree_elems(x0.left), x0.key, re);
            let at = tree_elems(r.left.unwrap().left).len() as int;
            assert(re[at] == r.left.unwrap().key);
            assert(x0.key < r.left.unwrap().key);
        }
        let r2 = rotate_right(r);
        proof {
            lemma_elems(*r2);
            lemma_total(r2);
            lemma_total(r2.right.unwrap());
        }
        x.right = Some(r2);
        proof {
            lemma_elems(*x);
        }
        x = rotate_left(x);
        proof {
            lemma_elems(*x);
            lemma_total(x);
            lemma_total(x.left.unwrap());
            lemma_total(x.right.unwrap());
        }
        split_four_node(&mut x);
        proof {
            lemma_elems(*x);
            lemma_total(x);
            lemma_total(x.left.unwrap());
            lemma_total(x.right.unwrap());
            assert(x.left.unwrap().llrb());
            assert(x.right.unwrap().llrb());
        }
    } else {
        proof {
            assert(x.right.unwrap().llrb());
        }
    }
    x
}

/// Makes the right child of the red node `x` red when it is a black node with a black left
/// child, taking a red node over from the left where the left child has one to give.
#[verifier::rlimit(40)]
fn move_red_right(mut x: Box<Node>) -> (z: Box<Node>)
    requires
        red_node(*x),
        sorted(x.elems()),
        x.right is Some,
        tree_left_color(x.right) == Color::Black,
    ensures
        z.elems() == x.elems(),
        tree_total(Some(z)) == tree_total(Some(x)),
        z.left is Some,
        z.right is Some,
        tree_llrb(z.left),
        tree_total(z.left) == tree_total(z.right),
        (z.color == Color::Black && tree_color(z.left) == Color::Red && red_node(
            *z.right.unwrap(),
        ) && z.key == x.key) || (z.color == Color::Red && tree_color(z.left) == Color::Black
            && leaning_right(*z.right.unwrap()) && z.right.unwrap().key == x.key && z.key
            < x.key),
        *z == moved_red_right(*x),
{
    proof {
        reveal(moved_red_right);
    }
    let ghost x0 = *x;
    proof {
        lemma_elems(x0);
        lemma_tree(Some(x));
        lemma_tree(x.left);
        lemma_tree(x.right);
        lemma_total(x);
        lemma_total(x.right.unwrap());
        lemma_tree(x.right.unwrap().left);
        lemma_tree(x.right.unwrap().right);
        lemma_child_keys(x0);
    }
    join_two_nodes(&mut x);
    proof {
        lemma_elems(*x);
        lemma_total(x);
        lemma_total(x.left.unwrap());
        lemma_total(x.right.unwrap());
        lemma_tree(x.left.unwrap().left);
        lemma_tree(x.left.unwrap().right);
        assert(x.right.unwrap().llrb());
    }
    if left_color(&x.left) == Color::Red {
        proof {
            lemma_total(x.left.unwrap().left.unwrap());
        }
        x = rotate_right(x);
        proof {
            lemma_elems(*x);
            lemma_total(x);
            lemma_total(x.left.unwrap());
            lemma_total(x.right.unwrap());
        }
        split_four_node(&mut x);
        proof {
            lemma_elems(*x);
            lemma_total(x);
            lemma_total(x.left.unwrap());
            lemma_total(x.right.unwrap());
            assert(x.left.unwrap().llrb());
            assert(x.right.unwrap().node_ok());
        }
    } else {
        proof {
            assert(x.left.unwrap().llrb());
        }
    }
    x
}

/// Takes the node with the least key out of the subtree.
#[verifier::rlimit(40)]
fn remove_min(mut x: Box<Node>) -> (res: (Option<Box<Node>>, Box<Node>))
    requires
        red_node(*x) || three_node(*x),
        sorted(x.elems()),
    ensures
        tree_llrb(res.0),
        tree_total(res.0) == tree_total(Some(x)),
        x.elems() == seq![res.1.key] + tree_elems(res.0),
        x.color == Color::Black ==> tree_color(res.0) == Color::Black,
        (res.0, *res.1) == without_min(*x),
    decreases x.elems().len(),
{
    proof {
        reveal(without_min);
    }
    let ghost x0 = *x;
    proof {
        lemma_elems(x0);
        lemma_tree(Some(x));
        lemma_tree(x.left);
        lemma_tree(x.right);
        lemma_total(x);
    }
    if x.left.is_none() {
        proof {
            assert(x0.inner() =~= seq![x.key] + tree_elems(None));
        }
        return (None, x);
    }
    if color(&x.left) == Color::Black && left_color(&x.left) == Color::Black {
        x = move_red_left(x);
    }
    let ghost x1 = *x;
    let ghost (le, k, re) = (tree_elems(x.left), x.key, tree_elems(x.right));
    proof {
        lemma_elems(x1);
        lemma_sorted_parts(le, k, re);
        lemma_tree(x.left);
        lemma_total(x);
    }
    let l = x.left.take().unwrap();
    let (l2, removed) = remove_min(l);
    x.left = l2;
    proof {
        lemma_total(x);
        assert(x0.elems() =~= seq![removed.key] + (tree_elems(l2) + seq![k] + re));
    }
    (Some(fixup(x)), removed)
}

/// Takes `key` out of the left subtree of `x`, which lies below the key of `x`.
#[verifier::rlimit(40)]
fn remove_left(mut x: Box<Node>, key: i64) -> (t: Option<Box<Node>>)
    requires
        enterable(*x, key),
        key < x.key,
    ensures
        tree_llrb(t),
        tree_total(t) == tree_total(Some(x)),
        tree_elems(t) == without_key(x.elems(), key),
        x.color == Color::Black ==> tree_color(t) == Color::Black,
        t == taken(*x, key),
    decreases x.elems().len(), 0int,
{
    proof {
        reveal(taken);
    }
    let ghost x0 = *x;
    proof {
        lemma_elems(x0);
        lemma_tree(Some(x));
        lemma_tree(x.left);
        lemma_tree(x.right);
        lemma_total(x);
        lemma_sorted_parts(tree_elems(x.left), x.key, tree_elems(x.right));
    }
    if x.left.is_none() {
        proof {
            lemma_without_key_left(Seq::empty(), x.key, tree_elems(x.right), key);
            assert(without_key(Seq::<i64>::empty(), key) =~= Seq::<i64>::empty());
        }
        return Some(x);
    }
    if color(&x.left) == Color::Black && left_color(&x.left) == Color::Black {
        x = move_red_left(x);
    }
    let ghost x1 = *x;
    let ghost (le, k, re) = (tree_elems(x.left), x.key, tree_elems(x.right));
    proof {
        lemma_elems(x1);
        lemma_sorted_parts(le, k, re);
        lemma_without_key_left(le, k, re, key);
        lemma_tree(x.left);
        lemma_total(x);
    }
    let l = x.left.take().unwrap();
    let l2 = remove_recurse(l, key);
    x.left = l2;
    proof {
        lemma_total(x);
    }
    Some(fixup(x))
}

/// Takes `key` out of `x` or of its right subtree; `key` does not lie below the key of `x`.
#[verifier::rlimit(40)]
fn remove_right(mut x: Box<Node>, key: i64) -> (t: Option<Box<Node>>)
    requires
        enterable(*x, key),
        key >= x.key,
    ensures
        tree_llrb(t),
        tree_total(t) == tree_total(Some(x)),
        tree_elems(t) == without_key(x.elems(), key),
        x.color == Color::Black ==> tree_color(t) == Color::Black,
        t == taken(*x, key),
    decreases x.elems().len(), 0int,
{
    proof {
        reveal(taken);
    }
    let ghost x0 = *x;
    proof {
        lemma_elems(x0);
        if red_node(x0) || three_node(x0) {
            lemma_tree(Some(x));
        }
        assert(x.node_ok());
        lemma_tree(x.left);
        lemma_tree(x.right);
        lemma_total(x);
        lemma_child_keys(x0);
    }
    if color(&x.left) == Color::Red {
        proof {
            lemma_total(x.left.unwrap());
            lemma_tree(x.left.unwrap().left);
            lemma_tree(x.left.unwrap().right);
        }
        x = rotate_right(x);
        proof {
            lemma_elems(*x);
            lemma_total(x);
            lemma_total(x.right.unwrap());
            assert(x.right.unwrap().llrb());
        }
    }
    let ghost x1 = *x;
    proof {
        lemma_elems(x1);
        lemma_sorted_parts(tree_elems(x.left), x.key, tree_elems(x.right));
        lemma_tree(x.right);
    }
    if x.right.is_none() {
        proof {
            let le = tree_elems(x.left);
            assert(x.left is None);
            if key == x.key {
                lemma_without_key_here(le, x.key, Seq::empty());
                assert(le + Seq::<i64>::empty() =~= Seq::<i64>::empty());
            } else {
                lemma_without_key_right(le, x.key, Seq::empty(), key);
                assert(without_key(Seq::<i64>::empty(), key) =~= Seq::<i64>::empty());
            }
        }
        return if key == x.key {
            None
        } else {
            Some(x)
        };
    }
    if color(&x.right) == Color::Black && left_color(&x.right) == Color::Black {
        x = move_red_right(x);
    }
    let ghost x2 = *x;
    let ghost (le, k, re) = (tree_elems(x.left), x.key, tree_elems(x.right));
    proof {
        lemma_elems(x2);
        lemma_sorted_parts(le, k, re);
        lemma_tree(x.left);
        if tree_llrb(x.right) {
            lemma_tree(x.right);
        }
        lemma_total(x);
    }
    if x.key == key {
        let r = x.right.take().unwrap();
        let (r2, removed) = remove_min(r);
        x.right = r2;
        x.key = removed.key;
        proof {
            lemma_without_key_here(le, k, re);
            lemma_total(x);
            lemma_elems(*x);
            assert(x.inner() =~= le + re);
        }
    } else {
        let r = x.right.take().unwrap();
        proof {
            lemma_without_key_right(le, k, re, key);
        }
        let r2 = remove_recurse(r, key);
        x.right = r2;
        proof {
            lemma_total(x);
        }
    }
    Some(fixup(x))
}

/// Takes `key` out of the subtree below `x`, if it is there.
fn remove_recurse(x: Box<Node>, key: i64) -> (t: Option<Box<Node>>)
    requires
        enterable(*x, key),
    ensures
        tree_llrb(t),
        tree_total(t) == tree_total(Some(x)),
        tree_elems(t) == without_key(x.elems(), key),
        x.color == Color::Black ==> tree_color(t) == Color::Black,
        t == taken(*x, key),
    decreases x.elems().len(), 1int,
{
    proof {
        reveal(taken);
    }
    if key < x.key {
        remove_left(x, key)
    } else {
        remove_right(x, key)
    }
}

/// Takes `key` out of the tree, if it is there, and paints the root black.
fn remove(x: Option<Box<Node>>, key: i64) -> (z: Option<Box<Node>>)
    requires
        tree_llrb(x),
        tree_color(x) == Color::Black,
        sorted(tree_elems(x)),
    ensures
        tree_llrb(z),
        tree_color(z) == Color::Black,
        tree_elems(z) == without_key(tree_elems(x), key),
        z == shrunk(x, key),
{
    match x {
        None => {
            assert(without_key(Seq::<i64>::empty(), key) =~= Seq::<i64>::empty());
            None
        },
        Some(mut x) => {
            proof {
                lemma_tree(Some(x));
                lemma_tree(x.left);
                lemma_elems(*x);
            }
            if color(&x.left) == Color::Black {
                x.color = Color::Red;
            }
            proof {
                lemma_elems(*x);
            }
            let mut t = remove_recurse(x, key);
            if t.is_some() {
                proof {
                    lemma_tree(t);
                }
                paint(&mut t, Color::Black);
                proof {
                    assert(t.unwrap().llrb());
                }
            }
            t
        },
    }
}

impl View for Rbtree {
    type V = Seq<i64>;

    /// The keys of the set in increasing order.
    closed spec fn view(&self) -> Seq<i64> {
        tree_elems(self.root)
    }
}

impl Default for Rbtree {
    fn default() -> (t: Self)
        ensures
            t.wf(),
            t@ == Seq::<i64>::empty(),
    {
        Self { root: None }
    }
}

impl Rbtree {
    /// The keys are in order, the colour invariants hold at every node, and the root is
    /// black.
    pub closed spec fn wf(&self) -> bool {
        tree_llrb(self.root) && tree_color(self.root) == Color::Black && sorted(
            tree_elems(self.root),
        )
    }

    /// The tree that holds the set.
    pub closed spec fn spec_root(self) -> Option<Box<Node>> {
        self.root
    }

    /// The set is what its tree holds in order, and it meets its invariants exactly when its
    /// tree does, has a black root and holds its keys in increasing order.
    pub proof fn lemma_spec_root(&self)
        ensures
            self@ == tree_elems(self.spec_root()),
            self.wf() == (tree_llrb(self.spec_root()) && tree_color(self.spec_root()) == Color::Black && sorted(
                tree_elems(self.spec_root()),
            )),
    {
    }

    /// The keys of a set are in strictly increasing order.
    pub proof fn lemma_sorted(&self)
        requires
            self.wf(),
        ensures
            sorted(self@),
    {
    }

    /// Puts `key` into the set; nothing changes where it is there already.
    pub fn insert(&mut self, key: i64)
        requires
            old(self).wf(),
        ensures
            final(self).wf(),
            final(self)@ == with_key(old(self)@, key),
            final(self).spec_root() == grown(old(self).spec_root(), key),
    {
        proof {
            lemma_with_key_sorted(self@, key);
        }
        self.root = insert(self.root.take(), key);
    }

    /// Takes `key` out of the set; nothing changes where it is not there.
    pub fn remove(&mut self, key: i64)
        requires
            old(self).wf(),
        ensures
            final(self).wf(),
            final(self)@ == without_key(old(self)@, key),
            final(self).spec_root() == shrunk(old(self).spec_root(), key),
    {
        proof {
            lemma_without_key_sorted(self@, key);
        }
        self.root = remove(self.root.take(), key);
    }

    /// The root of the tree.
    pub fn root(&self) -> (r: &Option<Box<Node>>)
        ensures
            tree_elems(*r) == self@,
            self.wf() ==> tree_llrb(*r) && tree_color(*r) == Color::Black,
            *r == self.spec_root(),
    {
        &self.root
    }
}

fn collect_recurse(x: &Option<Box<Node>>, out: &mut Vec<i64>)
    ensures
        final(out)@ == old(out)@ + tree_elems(*x),
    decreases *x,
{
    match x {
        None => {
            assert(out@ + Seq::<i64>::empty() =~= out@);
        },
        Some(x) => {
            let ghost before = out@;
            proof {
                lemma_elems(**x);
            }
            collect_recurse(&x.left, out);
            out.push(x.key);
            collect_recurse(&x.right, out);
            assert(out@ =~= before + x.elems());
        },
    }
}

/// The keys of a subtree in order.
pub fn collect(x: &Option<Box<Node>>) -> (out: Vec<i64>)
    ensures
        out@ == tree_elems(*x),
{
    let mut out = Vec::new();
    collect_recurse(x, &mut out);
    assert(Seq::<i64>::empty() + tree_elems(*x) =~= tree_elems(*x));
    out
}

/// What the validity check computes for a subtree: its black height, the empty end not
/// counted, where no red node has a red right child, the two children of every node have
/// the same black height, and the black heights fit in 64 bits.
pub closed spec fn checked_height(t: Option<Box<Node>>) -> Option<nat>
    decreases t,
{
    match t {
        None => Some(0nat),
        Some(n) => if n.color == Color::Red && tree_color(n.right) == Color::Red {
            None
        } else {
            match (checked_height(n.left), checked_height(n.right)) {
                (Some(l), Some(r)) => if l != r {
                    None
                } else if n.color == Color::Red {
                    Some(l)
                } else if l < u64::MAX {
                    Some(l + 1)
                } else {
                    None
                },
                _ => None,
            }
        },
    }
}

/// A subtree that meets the invariants and whose black height fits in 64 bits passes the
/// validity check, with its black height.
pub proof fn lemma_llrb_checked(t: Option<Box<Node>>)
    requires
        tree_llrb(t),
        tree_total(t) - 1 <= u64::MAX,
    ensures
        checked_height(t) == Some((tree_total(t) - 1) as nat),
    decreases t,
{
    match t {
        None => {},
        Some(n) => {
            lemma_tree(t);
            lemma_tree(n.left);
            lemma_tree(n.right);
            lemma_llrb_checked(n.left);
            lemma_llrb_checked(n.right);
        },
    }
}

fn is_valid_recurse(x: &Option<Box<Node>>) -> (h: Option<u64>)
    ensures
        match checked_height(*x) {
            Some(n) => h == Some(n as u64) && n <= u64::MAX,
            None => h is None,
        },
    decreases *x,
{
    match x {
        None => Some(0),
        Some(root) => {
            if root.color == Color::Red && color(&root.right) == Color::Red {
                return None;
            }
            let lbh = match is_valid_recurse(&root.left) {
                Some(v) => v,
                None => {
                    return None;
                },
            };
            let rbh = match is_valid_recurse(&root.right) {
                Some(v) => v,
                None => {
                    return None;
                },
            };
            if lbh != rbh {
                return None;
            }
            match root.color {
                Color::Black => if lbh < u64::MAX {
                    Some(lbh + 1)
                } else {
                    None
                },
                Color::Red => Some(lbh),
            }
        },
    }
}

/// Whether the root is black, no red node has a red right child, and the two children of
/// every node have the same black height, which fits in 64 bits.
pub fn is_valid(x: &Option<Box<Node>>) -> (ok: bool)
    ensures
        ok == (tree_color(*x) == Color::Black && checked_height(*x) is Some),
        tree_llrb(*x) && tree_color(*x) == Color::Black && tree_total(*x) - 1 <= u64::MAX ==> ok,
{
    proof {
        if tree_llrb(*x) && tree_total(*x) - 1 <= u64::MAX {
            lemma_llrb_checked(*x);
        }
    }
    color(x) == Color::Black && is_valid_recurse(x).is_some()
}

} // verus!
