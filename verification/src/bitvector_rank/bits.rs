//! The model of a bit sequence and of the bits of a machine word.

use vstd::prelude::*;

verus! {

/// The number of set bits in the sequence.
pub open spec fn count_true(s: Seq<bool>) -> nat
    decreases s.len(),
{
    if s.len() == 0 {
        0
    } else {
        count_true(s.drop_last()) + if s.last() {
            1nat
        } else {
            0nat
        }
    }
}

/// The number of set bits before position `index`.
pub open spec fn rank_of(bits: Seq<bool>, index: int) -> nat {
    count_true(bits.subrange(0, index))
}

/// Whether bit `i` of `w` is set, counting from the least significant bit.
pub open spec fn bit(w: u64, i: nat) -> bool {
    (w >> (i as u64)) & 1 == 1
}

/// The number of set bits of `w` among its `k` least significant bits.
pub open spec fn ones_below(w: u64, k: nat) -> nat
    decreases k,
{
    if k == 0 {
        0
    } else {
        ones_below(w, (k - 1) as nat) + if bit(w, (k - 1) as nat) {
            1nat
        } else {
            0nat
        }
    }
}

/// The word holding the bits of `w` below position `b` and zeros from there on.
pub open spec fn low_bits(w: u64, b: nat) -> u64 {
    w & (((1u64 << (b as u64)) - 1) as u64)
}

/// `u64::count_ones`: the number of ones in the binary representation of the word.
#[verifier::external_body]
pub(crate) fn count_ones(w: u64) -> (r: u32)
    ensures
        r == ones_below(w, 64),
{
    w.count_ones()
}

pub proof fn lemma_ones_below_bound(w: u64, k: nat)
    ensures
        ones_below(w, k) <= k,
    decreases k,
{
    if k > 0 {
        lemma_ones_below_bound(w, (k - 1) as nat);
    }
}

pub proof fn lemma_count_true_bound(s: Seq<bool>)
    ensures
        count_true(s) <= s.len(),
    decreases s.len(),
{
    if s.len() > 0 {
        lemma_count_true_bound(s.drop_last());
    }
}

/// Counting over a longer prefix counts at least as much.
pub proof fn lemma_rank_monotone(s: Seq<bool>, i: int, j: int)
    requires
        0 <= i <= j <= s.len(),
    ensures
        rank_of(s, i) <= rank_of(s, j),
    decreases j - i,
{
    if i < j {
        assert(s.subrange(0, j).drop_last() =~= s.subrange(0, j - 1));
        lemma_rank_monotone(s, i, j - 1);
    }
}

/// Masking a word to its `b` lowest bits keeps exactly the set bits below `b`.
pub proof fn lemma_low_bits(w: u64, b: nat, k: nat)
    requires
        b < 64,
        k <= 64,
    ensures
        ones_below(low_bits(w, b), k) == ones_below(w, if k <= b {
            k
        } else {
            b
        }),
    decreases k,
{
    if k > 0 {
        lemma_low_bits(w, b, (k - 1) as nat);
        let i = (k - 1) as u64;
        let bb = b as u64;
        assert((((w & (((1u64 << bb) - 1) as u64)) >> i) & 1 == 1) == (i < bb && ((w >> i) & 1
            == 1))) by (bit_vector)
            requires
                i < 64,
                bb < 64,
        ;
    }
}

/// The mask for the `b` lowest bits can be computed without underflow.
pub proof fn lemma_mask_computable(b: u64)
    requires
        b < 64,
    ensures
        (1u64 << b) >= 1,
{
    assert((1u64 << b) >= 1) by (bit_vector)
        requires
            b < 64,
    ;
}

/// Setting bit `k` of a word whose bits from `k` on are clear.
pub proof fn lemma_set_bit(w: u64, k: u64, v: bool, i: u64)
    requires
        k < 64,
        i < 64,
        w >> k == 0,
    ensures
        bit(
            w | ((if v {
                1u64
            } else {
                0u64
            }) << k),
            i as nat,
        ) == (if i == k {
            v
        } else {
            bit(w, i as nat)
        }),
        k < 63 ==> (w | ((if v {
            1u64
        } else {
            0u64
        }) << k)) >> ((k + 1) as u64) == 0,
{
    let x = if v {
        1u64
    } else {
        0u64
    };
    assert((((w | (x << k)) >> i) & 1 == 1) == (if i == k {
        x == 1
    } else {
        (w >> i) & 1 == 1
    })) by (bit_vector)
        requires
            k < 64,
            i < 64,
            w >> k == 0,
            x == 0 || x == 1,
    ;
    if k < 63 {
        let k1 = (k + 1) as u64;
        assert((w | (x << k)) >> k1 == 0) by (bit_vector)
            requires
                k < 63,
                k1 == k + 1,
                w >> k == 0,
                x == 0 || x == 1,
        ;
    }
}

/// The set bits of a word below `b` are the set entries of the stretch of the sequence that
/// the word holds.
pub proof fn lemma_rank_extend(s: Seq<bool>, base: int, w: u64, b: nat)
    requires
        0 <= base,
        b <= 64,
        base + b <= s.len(),
        forall|j: nat| j < b ==> s[base + j] == bit(w, j),
    ensures
        rank_of(s, base + b) == rank_of(s, base) + ones_below(w, b),
    decreases b,
{
    if b > 0 {
        let b1 = (b - 1) as nat;
        lemma_rank_extend(s, base, w, b1);
        assert(s.subrange(0, base + b).drop_last() =~= s.subrange(0, base + b1));
        assert(s.subrange(0, base + b).last() == s[base + b1]);
    }
}

/// The 8-bit field number `j` of a packed word.
pub open spec fn field8(p: u64, j: nat) -> u64 {
    (p >> ((8 * j) as u64)) & 255
}

/// The 9-bit field number `j` of a packed word.
pub open spec fn field9(p: u64, j: nat) -> u64 {
    (p >> ((9 * j) as u64)) & 511
}

/// Writing 8-bit field `k` of a word that is clear from that field on.
pub proof fn lemma_pack8(p: u64, s: u64, k: nat, j: nat)
    requires
        j <= k <= 6,
        s < 256,
        p >> ((8 * k) as u64) == 0,
    ensures
        field8(p | (s << ((8 * k) as u64)), j) == (if j == k {
            s
        } else {
            field8(p, j)
        }),
        (p | (s << ((8 * k) as u64))) >> ((8 * (k + 1)) as u64) == 0,
{
    let sk = (8 * k) as u64;
    let sj = (8 * j) as u64;
    let sn = (8 * (k + 1)) as u64;
    assert(((p | (s << sk)) >> sj) & 255 == (if sj == sk {
        s
    } else {
        (p >> sj) & 255
    })) by (bit_vector)
        requires
            sk <= 48,
            s < 256,
            p >> sk == 0,
            sj == sk || sj + 8 <= sk,
    ;
    assert((p | (s << sk)) >> sn == 0) by (bit_vector)
        requires
            sk <= 48,
            sn == sk + 8,
            s < 256,
            p >> sk == 0,
    ;
}

/// Writing 9-bit field `k` of a word that is clear from that field on.
pub proof fn lemma_pack9(p: u64, s: u64, k: nat, j: nat)
    requires
        j <= k <= 6,
        s < 512,
        p >> ((9 * k) as u64) == 0,
    ensures
        field9(p | (s << ((9 * k) as u64)), j) == (if j == k {
            s
        } else {
            field9(p, j)
        }),
        (p | (s << ((9 * k) as u64))) >> ((9 * (k + 1)) as u64) == 0,
{
    let sk = (9 * k) as u64;
    let sj = (9 * j) as u64;
    let sn = (9 * (k + 1)) as u64;
    assert(((p | (s << sk)) >> sj) & 511 == (if sj == sk {
        s
    } else {
        (p >> sj) & 511
    })) by (bit_vector)
        requires
            sk <= 54,
            s < 512,
            p >> sk == 0,
            sj == sk || sj + 9 <= sk,
    ;
    assert((p | (s << sk)) >> sn == 0) by (bit_vector)
        requires
            sk <= 54,
            sn == sk + 9,
            s < 512,
            p >> sk == 0,
    ;
}

/// Every field of the zero word is zero, and the zero word is clear from every bit on.
pub proof fn lemma_zero_word(sh: u64)
    requires
        sh < 64,
    ensures
        0u64 >> sh == 0,
        (0u64 >> sh) & 255 == 0,
        (0u64 >> sh) & 511 == 0,
{
    assert(0u64 >> sh == 0 && (0u64 >> sh) & 255 == 0 && (0u64 >> sh) & 511 == 0)
        by (bit_vector)
        requires
            sh < 64,
    ;
}

/// The bits of a completed word are the entries of the stretch of the sequence it holds,
/// so its number of ones is the gain in rank over that stretch.
pub proof fn lemma_word_rank(s: Seq<bool>, base: int, w: u64)
    requires
        0 <= base,
        base + 64 <= s.len(),
        forall|j: nat| j < 64 ==> s[base + j] == bit(w, j),
    ensures
        rank_of(s, base + 64) == rank_of(s, base) + ones_below(w, 64),
        ones_below(w, 64) <= 64,
        rank_of(s, base + 64) <= s.len(),
{
    lemma_rank_extend(s, base, w, 64);
    lemma_ones_below_bound(w, 64);
    lemma_count_true_bound(s.subrange(0, base + 64));
}

} // verus!
