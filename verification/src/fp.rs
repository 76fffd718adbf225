//! Arithmetic modulo a modulus that is part of the type, and the prime that the
//! sequences work with.

use vstd::prelude::*;
use vstd::std_specs::cmp::PartialEqSpecImpl;
use vstd::arithmetic::div_mod::{
    lemma_add_mod_noop, lemma_mod_sub_multiples_vanish, lemma_mod_twice, lemma_mul_mod_noop,
    lemma_small_mod,
};

verus! {

/// The modulus of the sequences: a prime below 2^30, so that a product of two residues
/// fits in `u64`.
pub const P: u64 = 998_244_353;

/// A residue modulo `M`, kept in canonical form `0 <= value < M`.
#[derive(Clone, Copy, Eq, Debug, Hash)]
pub struct Fp<const M: u64> {
    value: u64,
}

impl<const M: u64> PartialEq for Fp<M> {
    fn eq(&self, other: &Self) -> (r: bool) {
        self.value == other.value
    }
}

impl<const M: u64> PartialEqSpecImpl for Fp<M> {
    open spec fn obeys_eq_spec() -> bool {
        true
    }

    open spec fn eq_spec(&self, other: &Self) -> bool {
        *self == *other
    }
}

impl<const M: u64> View for Fp<M> {
    type V = int;

    closed spec fn view(&self) -> int {
        (self.value as int) % (M as int)
    }
}

/// The canonical residue of an integer modulo [`P`].
pub open spec fn residue(x: int) -> int {
    x % (P as int)
}

impl<const M: u64> Fp<M> {
    #[verifier::type_invariant]
    spec fn canonical(self) -> bool {
        self.value < M
    }

    /// The residue of `value`.
    pub closed spec fn spec_new(value: u64) -> Fp<M> {
        Fp { value: value % M }
    }

    /// The modular sum of two residues.
    pub closed spec fn spec_add(self, rhs: Fp<M>) -> Fp<M> {
        Fp { value: ((self.value + rhs.value) % (M as int)) as u64 }
    }

    /// The modular product of two residues.
    pub closed spec fn spec_mul(self, rhs: Fp<M>) -> Fp<M> {
        Fp { value: ((self.value * rhs.value) % (M as int)) as u64 }
    }

    /// The views of the sum, the product and the residue are the residues of the sum and
    /// the product of the views and of the number.
    pub proof fn lemma_spec_ops(a: Fp<M>, b: Fp<M>, v: u64)
        requires
            M > 0,
        ensures
            a.spec_add(b)@ == (a@ + b@) % (M as int),
            a.spec_mul(b)@ == (a@ * b@) % (M as int),
            Fp::<M>::spec_new(v)@ == (v as int) % (M as int),
    {
        let m = M as int;
        lemma_add_mod_noop(a.value as int, b.value as int, m);
        lemma_mul_mod_noop(a.value as int, b.value as int, m);
        lemma_mod_twice(a.value + b.value, m);
        lemma_mod_twice(a.value * b.value, m);
        lemma_mod_twice(v as int, m);
        vstd::arithmetic::div_mod::lemma_mod_bound(a.value + b.value, m);
        vstd::arithmetic::div_mod::lemma_mod_bound(a.value * b.value, m);
    }

    /// Reduces `value` modulo `M`.
    pub fn new(value: u64) -> (r: Self)
        requires
            M > 0,
        ensures
            r@ == (value as int) % (M as int),
            r == Fp::<M>::spec_new(value),
    {
        proof {
            lemma_mod_twice(value as int, M as int);
        }
        Fp { value: value % M }
    }

    /// The canonical representative, in `0..M`.
    pub fn value(self) -> (v: u64)
        ensures
            v as int == self@,
            v < M,
    {
        proof {
            use_type_invariant(&self);
            lemma_small_mod(self.value as nat, M as nat);
        }
        self.value
    }

    /// Modular sum.
    pub fn add(self, rhs: Fp<M>) -> (r: Fp<M>)
        requires
            M <= 0x8000_0000_0000_0000,
        ensures
            r@ == (self@ + rhs@) % (M as int),
            r == self.spec_add(rhs),
    {
        proof {
            use_type_invariant(&self);
            use_type_invariant(&rhs);
            let m = M as int;
            let s = self.value + rhs.value;
            lemma_small_mod(self.value as nat, M as nat);
            lemma_small_mod(rhs.value as nat, M as nat);
            if s >= m {
                lemma_mod_sub_multiples_vanish(s, m);
                lemma_small_mod((s - m) as nat, M as nat);
            } else {
                lemma_small_mod(s as nat, M as nat);
            }
        }
        let s: u64 = self.value + rhs.value;
        if s >= M {
            Fp { value: s - M }
        } else {
            Fp { value: s }
        }
    }

    /// Modular sum in place.
    pub fn add_assign(&mut self, rhs: Fp<M>)
        requires
            M <= 0x8000_0000_0000_0000,
        ensures
            final(self)@ == (old(self)@ + rhs@) % (M as int),
            *final(self) == old(self).spec_add(rhs),
    {
        let r = self.add(rhs);
        *self = r;
    }

    /// Modular product.
    pub fn mul(self, rhs: Fp<M>) -> (r: Fp<M>)
        requires
            M <= 0x1_0000_0000,
        ensures
            r@ == (self@ * rhs@) % (M as int),
            r == self.spec_mul(rhs),
    {
        proof {
            use_type_invariant(&self);
            use_type_invariant(&rhs);
            let m = M as int;
            assert(self.value * rhs.value < 0x1_0000_0000 * 0x1_0000_0000) by (nonlinear_arith)
                requires
                    self.value < 0x1_0000_0000,
                    rhs.value < 0x1_0000_0000,
            ;
            lemma_small_mod(self.value as nat, M as nat);
            lemma_small_mod(rhs.value as nat, M as nat);
            lemma_mod_twice(self.value * rhs.value, m);
            vstd::arithmetic::div_mod::lemma_mod_bound(self.value * rhs.value, m);
        }
        Fp { value: self.value * rhs.value % M }
    }

    /// The view of every value lies in `0..M`.
    pub broadcast proof fn lemma_in_range(self)
        ensures
            M > 0 ==> 0 <= #[trigger] self@ < M,
    {
    }
}

} // verus!
