//! The mathematical model of a sequence of residues: the operations that the
//! trees implement, stated on `Seq<int>`, and the algebra that relates them.

use vstd::prelude::*;
use vstd::arithmetic::div_mod::{
    lemma_add_mod_noop, lemma_mul_mod_noop_left, lemma_mul_mod_noop_right, lemma_small_mod,
    lemma_mod_twice,
};
use crate::fp::{residue, P};

verus! {

/// The residues that the sequences hold.
type Fp = crate::fp::Fp<P>;

/// The integer values of a sequence of residues.
pub open spec fn fp_values(s: Seq<Fp>) -> Seq<int> {
    Seq::new(s.len(), |i: int| s[i]@)
}

/// The height of the tree that midpoint construction builds from `n` values.
pub open spec fn perfect_height(n: nat) -> nat
    decreases n,
{
    if n == 0 {
        0
    } else {
        1 + perfect_height(n / 2)
    }
}

/// One more value raises the height of a midpoint-built tree by at most one, and never lowers it.
pub proof fn lemma_perfect_height_step(n: nat)
    ensures
        perfect_height(n) <= perfect_height(n + 1) <= perfect_height(n) + 1,
    decreases n,
{
    if n == 0 {
        assert(perfect_height(1) == 1 + perfect_height(0));
    } else {
        lemma_perfect_height_step(n / 2);
        assert((n + 1) / 2 == n / 2 || (n + 1) / 2 == n / 2 + 1);
    }
}

/// Every entry is a canonical residue.
pub open spec fn canonical(s: Seq<int>) -> bool {
    forall|i: int| 0 <= i < s.len() ==> 0 <= #[trigger] s[i] < P
}

/// The image of one value under `v -> c1 * v + c0`, reduced.
pub open spec fn affine_value(v: int, c1: int, c0: int) -> int {
    residue(c1 * v + c0)
}

/// The image of every entry under `v -> c1 * v + c0`.
pub open spec fn affine_seq(s: Seq<int>, c1: int, c0: int) -> Seq<int> {
    Seq::new(s.len(), |i: int| affine_value(s[i], c1, c0))
}

/// The sequence read forwards, or backwards when `rev` is set.
pub open spec fn oriented(s: Seq<int>, rev: bool) -> Seq<int> {
    if rev {
        s.reverse()
    } else {
        s
    }
}

/// The plain (unreduced) sum of the entries.
pub open spec fn seq_sum(s: Seq<int>) -> int
    decreases s.len(),
{
    if s.len() == 0 {
        0
    } else {
        seq_sum(s.drop_last()) + s.last()
    }
}

/// The sequence with `value` placed at `index`.
pub open spec fn inserted<T>(s: Seq<T>, index: int, value: T) -> Seq<T> {
    s.subrange(0, index) + seq![value] + s.subrange(index, s.len() as int)
}

/// The sequence without the entry at `index`.
pub open spec fn removed<T>(s: Seq<T>, index: int) -> Seq<T> {
    s.subrange(0, index) + s.subrange(index + 1, s.len() as int)
}

/// The sequence with the half-open range `start..end` reversed.
pub open spec fn reversed_range<T>(s: Seq<T>, start: int, end: int) -> Seq<T> {
    s.subrange(0, start) + s.subrange(start, end).reverse() + s.subrange(end, s.len() as int)
}

/// The sequence with `v -> c1 * v + c0` applied on the half-open range `start..end`.
pub open spec fn affine_range(s: Seq<int>, start: int, end: int, c1: int, c0: int) -> Seq<int> {
    s.subrange(0, start) + affine_seq(s.subrange(start, end), c1, c0) + s.subrange(
        end,
        s.len() as int,
    )
}

/// The reduced sum over the half-open range `start..end`.
pub open spec fn range_sum(s: Seq<int>, start: int, end: int) -> int {
    residue(seq_sum(s.subrange(start, end)))
}

/// The two pieces that a split at `index` produces.
pub open spec fn split_at<T>(s: Seq<T>, index: int) -> (Seq<T>, Seq<T>) {
    (s.subrange(0, index), s.subrange(index, s.len() as int))
}

/// The concatenation that a merge of two pieces produces.
pub open spec fn joined<T>(pieces: (Seq<T>, Seq<T>)) -> Seq<T> {
    pieces.0 + pieces.1
}

pub proof fn lemma_affine_value_residue(v: int, c1: int, c0: int)
    ensures
        affine_value(residue(v), c1, c0) == affine_value(v, c1, c0),
        0 <= affine_value(v, c1, c0) < P,
{
    let m = P as int;
    lemma_mul_mod_noop_right(c1, v, m);
    lemma_add_mod_noop(c1 * (v % m), c0, m);
    lemma_add_mod_noop(c1 * v, c0, m);
}

/// Applying `(d1, d0)` and then `(c1, c0)` to a value is applying the composed map once.
pub proof fn lemma_affine_value_compose(v: int, d1: int, d0: int, c1: int, c0: int)
    ensures
        affine_value(affine_value(v, d1, d0), c1, c0) == affine_value(
            v,
            residue(c1 * d1),
            residue(c1 * d0 + c0),
        ),
{
    let m = P as int;
    lemma_affine_value_residue(d1 * v + d0, c1, c0);
    assert(c1 * (d1 * v + d0) + c0 == (c1 * d1) * v + (c1 * d0 + c0)) by (nonlinear_arith);
    lemma_mul_mod_noop_left(c1 * d1, v, m);
    lemma_add_mod_noop(((c1 * d1) % m) * v, (c1 * d0 + c0) % m, m);
    lemma_add_mod_noop((c1 * d1) * v, c1 * d0 + c0, m);
    lemma_mod_twice(c1 * d0 + c0, m);
}

pub proof fn lemma_affine_seq_compose(s: Seq<int>, d1: int, d0: int, c1: int, c0: int)
    ensures
        affine_seq(affine_seq(s, d1, d0), c1, c0) == affine_seq(
            s,
            residue(c1 * d1),
            residue(c1 * d0 + c0),
        ),
{
    assert forall|i: int| 0 <= i < s.len() implies affine_value(
        #[trigger] affine_seq(s, d1, d0)[i],
        c1,
        c0,
    ) == affine_value(s[i], residue(c1 * d1), residue(c1 * d0 + c0)) by {
        lemma_affine_value_compose(s[i], d1, d0, c1, c0);
    }
    assert(affine_seq(affine_seq(s, d1, d0), c1, c0) =~= affine_seq(
        s,
        residue(c1 * d1),
        residue(c1 * d0 + c0),
    ));
}

pub proof fn lemma_affine_seq_identity(s: Seq<int>)
    requires
        canonical(s),
    ensures
        affine_seq(s, 1, 0) == s,
{
    assert forall|i: int| 0 <= i < s.len() implies affine_value(#[trigger] s[i], 1, 0)
        == s[i] by {
        lemma_small_mod(s[i] as nat, P as nat);
    }
    assert(affine_seq(s, 1, 0) =~= s);
}

pub proof fn lemma_affine_seq_canonical(s: Seq<int>, c1: int, c0: int)
    ensures
        canonical(affine_seq(s, c1, c0)),
{
    assert forall|i: int| 0 <= i < s.len() implies 0 <= #[trigger] affine_seq(s, c1, c0)[i]
        < P by {
        lemma_affine_value_residue(s[i], c1, c0);
    }
}

pub proof fn lemma_affine_seq_concat(a: Seq<int>, b: Seq<int>, c1: int, c0: int)
    ensures
        affine_seq(a + b, c1, c0) == affine_seq(a, c1, c0) + affine_seq(b, c1, c0),
{
    assert(affine_seq(a + b, c1, c0) =~= affine_seq(a, c1, c0) + affine_seq(b, c1, c0));
}

pub proof fn lemma_affine_seq_reverse(s: Seq<int>, c1: int, c0: int)
    ensures
        affine_seq(s.reverse(), c1, c0) == affine_seq(s, c1, c0).reverse(),
{
    assert(affine_seq(s.reverse(), c1, c0) =~= affine_seq(s, c1, c0).reverse());
}

pub proof fn lemma_reverse_concat<T>(a: Seq<T>, b: Seq<T>)
    ensures
        (a + b).reverse() == b.reverse() + a.reverse(),
{
    assert((a + b).reverse() =~= b.reverse() + a.reverse());
}

pub proof fn lemma_reverse_twice<T>(s: Seq<T>)
    ensures
        s.reverse().reverse() == s,
{
    assert(s.reverse().reverse() =~= s);
}

pub proof fn lemma_sum_concat(a: Seq<int>, b: Seq<int>)
    ensures
        seq_sum(a + b) == seq_sum(a) + seq_sum(b),
    decreases b.len(),
{
    if b.len() == 0 {
        assert(a + b =~= a);
    } else {
        assert((a + b).drop_last() =~= a + b.drop_last());
        lemma_sum_concat(a, b.drop_last());
    }
}

pub proof fn lemma_sum_single(v: int)
    ensures
        seq_sum(seq![v]) == v,
{
    assert(seq![v].drop_last() =~= Seq::<int>::empty());
    assert(seq_sum(Seq::<int>::empty()) == 0);
}

pub proof fn lemma_sum_reverse(s: Seq<int>)
    ensures
        seq_sum(s.reverse()) == seq_sum(s),
    decreases s.len(),
{
    if s.len() > 0 {
        let head = seq![s.last()];
        assert(s.reverse() =~= head + s.drop_last().reverse());
        lemma_sum_concat(head, s.drop_last().reverse());
        lemma_sum_single(s.last());
        lemma_sum_reverse(s.drop_last());
    }
}

/// The sum of the images is the image of the sum, with the constant counted once per entry.
pub proof fn lemma_sum_affine(s: Seq<int>, c1: int, c0: int)
    ensures
        residue(seq_sum(affine_seq(s, c1, c0))) == residue(c1 * seq_sum(s) + c0 * s.len()),
    decreases s.len(),
{
    let m = P as int;
    let t = affine_seq(s, c1, c0);
    if s.len() == 0 {
        assert(c1 * 0 + c0 * 0 == 0) by (nonlinear_arith);
    } else {
        let s0 = s.drop_last();
        assert(t.drop_last() =~= affine_seq(s0, c1, c0));
        lemma_sum_affine(s0, c1, c0);
        let a = seq_sum(t.drop_last());
        let x = c1 * seq_sum(s0) + c0 * s0.len();
        let y = c1 * s.last() + c0;
        assert(t.last() == y % m);
        lemma_add_mod_noop(a, y % m, m);
        lemma_mod_twice(y, m);
        lemma_add_mod_noop(x, y, m);
        assert(x + y == c1 * seq_sum(s) + c0 * s.len()) by (nonlinear_arith)
            requires
                x == c1 * seq_sum(s0) + c0 * s0.len(),
                y == c1 * s.last() + c0,
                seq_sum(s) == seq_sum(s0) + s.last(),
                s.len() == s0.len() + 1,
        ;
    }
}

/// Cutting `l + [v] + r` at a position inside `l`.
pub proof fn lemma_cut_left<T>(l: Seq<T>, v: T, r: Seq<T>, index: int)
    requires
        0 <= index < l.len(),
    ensures
        (l + seq![v] + r).subrange(0, index) == l.subrange(0, index),
        (l + seq![v] + r)[index] == l[index],
        (l + seq![v] + r).subrange(index + 1, (l + seq![v] + r).len() as int) == l.subrange(
            index + 1,
            l.len() as int,
        ) + seq![v] + r,
{
    let e = l + seq![v] + r;
    assert(e.subrange(0, index) =~= l.subrange(0, index));
    assert(e.subrange(index + 1, e.len() as int) =~= l.subrange(index + 1, l.len() as int)
        + seq![v] + r);
}

/// Cutting `l + [v] + r` exactly at `v`.
pub proof fn lemma_cut_middle<T>(l: Seq<T>, v: T, r: Seq<T>)
    ensures
        (l + seq![v] + r).subrange(0, l.len() as int) == l,
        (l + seq![v] + r)[l.len() as int] == v,
        (l + seq![v] + r).subrange(l.len() as int + 1, (l + seq![v] + r).len() as int) == r,
{
    let e = l + seq![v] + r;
    assert(e.subrange(0, l.len() as int) =~= l);
    assert(e.subrange(l.len() as int + 1, e.len() as int) =~= r);
}

/// Cutting `l + [v] + r` at a position inside `r`.
pub proof fn lemma_cut_right<T>(l: Seq<T>, v: T, r: Seq<T>, index: int)
    requires
        l.len() < index < l.len() + 1 + r.len(),
    ensures
        (l + seq![v] + r).subrange(0, index) == l + seq![v] + r.subrange(
            0,
            index - 1 - l.len(),
        ),
        (l + seq![v] + r)[index] == r[index - 1 - l.len()],
        (l + seq![v] + r).subrange(index + 1, (l + seq![v] + r).len() as int) == r.subrange(
            index - l.len(),
            r.len() as int,
        ),
{
    let e = l + seq![v] + r;
    assert(e.subrange(0, index) =~= l + seq![v] + r.subrange(0, index - 1 - l.len()));
    assert(e.subrange(index + 1, e.len() as int) =~= r.subrange(
        index - l.len(),
        r.len() as int,
    ));
}

/// Splitting a sequence at any valid position and joining the pieces gives the sequence back.
pub proof fn lemma_split_join_round_trip<T>(s: Seq<T>, index: int)
    requires
        0 <= index <= s.len(),
    ensures
        joined(split_at(s, index)) == s,
{
    assert(s.subrange(0, index) + s.subrange(index, s.len() as int) =~= s);
}

/// Reversing the same range twice restores the sequence.
pub proof fn lemma_reverse_range_twice<T>(s: Seq<T>, start: int, end: int)
    requires
        0 <= start <= end <= s.len(),
    ensures
        reversed_range(reversed_range(s, start, end), start, end) == s,
{
    let t = reversed_range(s, start, end);
    assert(t.subrange(0, start) =~= s.subrange(0, start));
    assert(t.subrange(start, end) =~= s.subrange(start, end).reverse());
    assert(t.subrange(end, t.len() as int) =~= s.subrange(end, s.len() as int));
    lemma_reverse_twice(s.subrange(start, end));
    assert(reversed_range(t, start, end) =~= s);
}

/// Two affine maps applied in turn to a range act as their composition applied once:
/// first `(m1, a1)`, then `(m2, a2)`, is `(m2 * m1, m2 * a1 + a2)`.
pub proof fn lemma_affine_range_compose(
    s: Seq<int>,
    start: int,
    end: int,
    m1: int,
    a1: int,
    m2: int,
    a2: int,
)
    requires
        0 <= start <= end <= s.len(),
    ensures
        affine_range(affine_range(s, start, end, m1, a1), start, end, m2, a2) == affine_range(
            s,
            start,
            end,
            residue(m2 * m1),
            residue(m2 * a1 + a2),
        ),
{
    let t = affine_range(s, start, end, m1, a1);
    assert(t.subrange(0, start) =~= s.subrange(0, start));
    assert(t.subrange(start, end) =~= affine_seq(s.subrange(start, end), m1, a1));
    assert(t.subrange(end, t.len() as int) =~= s.subrange(end, s.len() as int));
    lemma_affine_seq_compose(s.subrange(start, end), m1, a1, m2, a2);
}

/// Inserting a value and then removing it at the same position restores the sequence.
pub proof fn lemma_insert_then_remove<T>(s: Seq<T>, index: int, value: T)
    requires
        0 <= index <= s.len(),
    ensures
        removed(inserted(s, index, value), index) == s,
        inserted(s, index, value).len() == s.len() + 1,
        inserted(s, index, value)[index] == value,
{
    assert(removed(inserted(s, index, value), index) =~= s);
}

/// The larger of two heights.
pub open spec fn higher(a: nat, b: nat) -> nat {
    if a >= b {
        a
    } else {
        b
    }
}

/// The least number of nodes in a height-balanced tree of height `h`.
pub open spec fn min_nodes(h: nat) -> nat
    decreases h,
{
    if h == 0 {
        0
    } else if h == 1 {
        1
    } else {
        1 + min_nodes((h - 1) as nat) + min_nodes((h - 2) as nat)
    }
}

/// A higher tree needs at least as many nodes.
pub proof fn lemma_min_nodes_monotone(a: nat, b: nat)
    requires
        a <= b,
    ensures
        min_nodes(a) <= min_nodes(b),
    decreases b,
{
    if a < b {
        lemma_min_nodes_monotone(a, (b - 1) as nat);
    }
}

/// The least number of nodes at least doubles every two levels.
pub proof fn lemma_min_nodes_growth(k: nat)
    ensures
        min_nodes(2 * k + 2) + 1 >= 3 * vstd::arithmetic::power2::pow2(k),
    decreases k,
{
    vstd::arithmetic::power2::lemma2_to64();
    if k == 0 {
        assert(min_nodes(2) == 2) by {
            assert(min_nodes(1) == 1);
            assert(min_nodes(0) == 0);
        }
    } else {
        lemma_min_nodes_growth((k - 1) as nat);
        vstd::arithmetic::power2::lemma_pow2_unfold(k);
        lemma_min_nodes_monotone((2 * k) as nat, (2 * k + 1) as nat);
    }
}

/// No height-balanced tree of height 128 or more has a size that fits in 64 bits.
pub proof fn lemma_min_nodes_limit(h: nat)
    requires
        h >= 128,
    ensures
        min_nodes(h) > u64::MAX,
{
    lemma_min_nodes_monotone(128, h);
    lemma_min_nodes_growth(63);
    vstd::arithmetic::power2::lemma2_to64_rest();
}

/// Two values with the three sequences around them can be grouped from either side.
pub proof fn lemma_concat_shift<T>(a: Seq<T>, v: T, b: Seq<T>, w: T, c: Seq<T>)
    ensures
        (a + seq![v] + b) + seq![w] + c == a + seq![v] + (b + seq![w] + c),
{
    assert((a + seq![v] + b) + seq![w] + c =~= a + seq![v] + (b + seq![w] + c));
}

/// Reading two nested groups of three is reading the seven pieces in order.
pub proof fn lemma_concat_nested<T>(
    a: Seq<T>,
    x: T,
    b: Seq<T>,
    y: T,
    c: Seq<T>,
    z: T,
    d: Seq<T>,
)
    ensures
        (a + seq![x] + b) + seq![y] + (c + seq![z] + d) == a + seq![x] + b + seq![y] + c + seq![
            z,
        ] + d,
{
    assert((a + seq![x] + b) + seq![y] + (c + seq![z] + d) =~= a + seq![x] + b + seq![y] + c
        + seq![z] + d);
}

/// Cutting a sequence at `end` and its front at `start` isolates the range between them.
pub proof fn lemma_isolate<T>(s: Seq<T>, start: int, end: int)
    requires
        0 <= start <= end <= s.len(),
    ensures
        split_at(split_at(s, end).0, start).0 == s.subrange(0, start),
        split_at(split_at(s, end).0, start).1 == s.subrange(start, end),
        split_at(s, end).1 == s.subrange(end, s.len() as int),
        s.subrange(0, start) + s.subrange(start, end) + s.subrange(end, s.len() as int) == s,
{
    let front = s.subrange(0, end);
    assert(front.subrange(0, start) =~= s.subrange(0, start));
    assert(front.subrange(start, front.len() as int) =~= s.subrange(start, end));
    assert(s.subrange(0, start) + s.subrange(start, end) + s.subrange(end, s.len() as int) =~= s);
}

} // verus!
