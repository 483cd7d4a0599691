//! The field capability interface: what the extension engine asks of a
//! finite field.  Each element carries a mathematical value `val()` in
//! `[0, modulus())`, and every operation is specified as arithmetic mod
//! `modulus()`.  The two-adic extension adds a designated primitive
//! `2^bits`-th root of unity for every `bits` up to the field's
//! two-adicity, and a multiplicative generator used as a coset shift.

use vstd::prelude::*;
use vstd::arithmetic::power::pow;
use vstd::arithmetic::power2::pow2;
use crate::modular::{fadd, fsub, fmul, invertible};

verus! {

/// Whether `x` is a reduced element of its field.
pub open spec fn in_field<T: FieldElem>(x: T) -> bool {
    0 <= x.val() < T::modulus()
}

/// A finite prime field, seen through the operations the extension
/// engine needs: ring arithmetic, equality, embedding of small
/// integers, and a single inversion.
pub trait FieldElem: Sized + Copy {
    /// The order of the field.
    spec fn modulus() -> int;

    /// The mathematical value of this element.
    spec fn val(self) -> int;

    /// The field has at least the two residues 0 and 1.
    proof fn modulus_at_least_two()
        ensures
            Self::modulus() >= 2,
    ;

    /// Every non-zero residue has a multiplicative inverse.
    proof fn nonzero_invertible(a: int)
        requires
            0 < a < Self::modulus(),
        ensures
            invertible(a, Self::modulus()),
    ;

    /// The canonical embedding of a small non-negative integer.
    fn from_usize(x: usize) -> (r: Self)
        ensures
            0 <= r.val() < Self::modulus(),
            r.val() == x as int % Self::modulus(),
    ;

    fn add_elem(self, other: Self) -> (r: Self)
        requires
            0 <= self.val() < Self::modulus(),
            0 <= other.val() < Self::modulus(),
        ensures
            0 <= r.val() < Self::modulus(),
            r.val() == fadd(self.val(), other.val(), Self::modulus()),
    ;

    fn sub_elem(self, other: Self) -> (r: Self)
        requires
            0 <= self.val() < Self::modulus(),
            0 <= other.val() < Self::modulus(),
        ensures
            0 <= r.val() < Self::modulus(),
            r.val() == fsub(self.val(), other.val(), Self::modulus()),
    ;

    fn mul_elem(self, other: Self) -> (r: Self)
        requires
            0 <= self.val() < Self::modulus(),
            0 <= other.val() < Self::modulus(),
        ensures
            0 <= r.val() < Self::modulus(),
            r.val() == fmul(self.val(), other.val(), Self::modulus()),
    ;

    fn eq_elem(self, other: Self) -> (r: bool)
        requires
            0 <= self.val() < Self::modulus(),
            0 <= other.val() < Self::modulus(),
        ensures
            r <==> self.val() == other.val(),
    ;

    fn inverse(self) -> (r: Self)
        requires
            0 <= self.val() < Self::modulus(),
            invertible(self.val(), Self::modulus()),
        ensures
            0 <= r.val() < Self::modulus(),
            fmul(self.val(), r.val(), Self::modulus()) == 1,
    ;
}

/// A field whose multiplicative group contains a cyclic subgroup of
/// order `2^bits` for every `bits` up to `adicity()`, with a coherent
/// family of designated generators, plus a generator of the full
/// multiplicative group to shift cosets by.
pub trait TwoAdicElem: FieldElem {
    /// The largest `bits` for which a `2^bits`-th root of unity exists.
    spec fn adicity() -> nat;

    /// The value of the designated primitive `2^bits`-th root of unity.
    spec fn root_val(bits: nat) -> int;

    /// The value of the designated multiplicative generator.
    spec fn gen_val() -> int;

    /// Each designated root is a reduced residue, and is the square of
    /// the next one: the family is coherent, so smaller subgroups are
    /// nested inside larger ones.
    proof fn root_facts(bits: nat)
        requires
            bits <= Self::adicity(),
        ensures
            0 <= Self::root_val(bits) < Self::modulus(),
            bits < Self::adicity() ==> Self::root_val(bits) == fmul(
                Self::root_val((bits + 1) as nat),
                Self::root_val((bits + 1) as nat),
                Self::modulus(),
            ),
    ;

    /// The top root has multiplicative order exactly `2^adicity()`.
    proof fn top_root_order(d: nat)
        requires
            d <= pow2(Self::adicity()),
        ensures
            d == pow2(Self::adicity()) ==> pow(Self::root_val(Self::adicity()), d)
                % Self::modulus() == 1,
            0 < d < pow2(Self::adicity()) ==> pow(Self::root_val(Self::adicity()), d)
                % Self::modulus() != 1,
    ;

    /// The generator is a reduced residue that lies outside every
    /// proper two-adic subgroup: raising it to `2^k` for `k` below the
    /// adicity never yields one.
    proof fn generator_facts()
        ensures
            0 <= Self::gen_val() < Self::modulus(),
            forall|k: nat|
                k < Self::adicity() ==> pow(Self::gen_val(), pow2(k)) % Self::modulus() != 1,
    ;

    /// The designated primitive `2^bits`-th root of unity.
    fn two_adic_generator(bits: usize) -> (g: Self)
        requires
            bits as nat <= Self::adicity(),
        ensures
            0 <= g.val() < Self::modulus(),
            g.val() == Self::root_val(bits as nat),
    ;

    /// The designated multiplicative generator.
    fn generator() -> (s: Self)
        ensures
            0 <= s.val() < Self::modulus(),
            s.val() == Self::gen_val(),
    ;
}

} // verus!
