//! The algebraic interface that a field element type offers, and finite sums
//! and products of field elements.

use vstd::prelude::*;

verus! {

/// The seedable standard generator of the `rand` crate, carried through the
/// library as an opaque source of randomness.
#[verifier::external_type_specification]
#[verifier::external_body]
pub struct ExStdRng(rand::StdRng);

/// An element type of a finite field.
///
/// The mathematical content of an implementation is given by the `*_spec`
/// functions and the laws relating them; the executable operations are
/// specified to compute exactly those functions. Values for which
/// `is_member` does not hold are outside the field and no operation accepts
/// them.
pub trait Field: Sized + Eq + Clone + Copy + core::fmt::Debug {
    /// Whether `self` is the canonical representation of a field element.
    spec fn is_member(self) -> bool;

    /// The additive identity.
    spec fn zero_spec() -> Self;

    /// The multiplicative identity.
    spec fn one_spec() -> Self;

    /// The sum of two elements.
    spec fn add_spec(self, other: Self) -> Self;

    /// The product of two elements.
    spec fn mul_spec(self, other: Self) -> Self;

    /// The additive inverse.
    spec fn neg_spec(self) -> Self;

    /// The multiplicative inverse; meaningful for non-zero members only.
    spec fn inv_spec(self) -> Self;

    /// The product of `n` copies of `self`.
    spec fn pow_spec(self, n: nat) -> Self;

    /// The sum of `n` copies of `self`.
    spec fn scalar_mul_spec(self, n: nat) -> Self;

    /// The field is closed under its operations.
    proof fn law_closed(a: Self, b: Self)
        requires
            a.is_member(),
            b.is_member(),
        ensures
            a.add_spec(b).is_member(),
            a.mul_spec(b).is_member(),
            a.neg_spec().is_member(),
            a != Self::zero_spec() ==> a.inv_spec().is_member(),
    ;

    /// Zero and one are elements of the field, and they differ.
    proof fn law_identities()
        ensures
            Self::zero_spec().is_member(),
            Self::one_spec().is_member(),
            Self::zero_spec() != Self::one_spec(),
    ;

    /// `a + b == b + a`.
    proof fn law_add_commutative(a: Self, b: Self)
        requires
            a.is_member(),
            b.is_member(),
        ensures
            a.add_spec(b) == b.add_spec(a),
    ;

    /// `a + (b + c) == (a + b) + c`.
    proof fn law_add_associative(a: Self, b: Self, c: Self)
        requires
            a.is_member(),
            b.is_member(),
            c.is_member(),
        ensures
            a.add_spec(b.add_spec(c)) == a.add_spec(b).add_spec(c),
    ;

    /// `a + 0 == a`.
    proof fn law_add_zero(a: Self)
        requires
            a.is_member(),
        ensures
            a.add_spec(Self::zero_spec()) == a,
    ;

    /// `a + (-a) == 0`.
    proof fn law_add_negative(a: Self)
        requires
            a.is_member(),
        ensures
            a.add_spec(a.neg_spec()) == Self::zero_spec(),
    ;

    /// `a * b == b * a`.
    proof fn law_mul_commutative(a: Self, b: Self)
        requires
            a.is_member(),
            b.is_member(),
        ensures
            a.mul_spec(b) == b.mul_spec(a),
    ;

    /// `a * (b * c) == (a * b) * c`.
    proof fn law_mul_associative(a: Self, b: Self, c: Self)
        requires
            a.is_member(),
            b.is_member(),
            c.is_member(),
        ensures
            a.mul_spec(b.mul_spec(c)) == a.mul_spec(b).mul_spec(c),
    ;

    /// `a * 1 == a`.
    proof fn law_mul_one(a: Self)
        requires
            a.is_member(),
        ensures
            a.mul_spec(Self::one_spec()) == a,
    ;

    /// `a * a^-1 == 1` for every non-zero `a`.
    proof fn law_mul_inverse(a: Self)
        requires
            a.is_member(),
            a != Self::zero_spec(),
        ensures
            a.mul_spec(a.inv_spec()) == Self::one_spec(),
    ;

    /// `a * (b + c) == a * b + a * c`.
    proof fn law_distributive(a: Self, b: Self, c: Self)
        requires
            a.is_member(),
            b.is_member(),
            c.is_member(),
        ensures
            a.mul_spec(b.add_spec(c)) == a.mul_spec(b).add_spec(a.mul_spec(c)),
    ;

    /// The empty product is one, and each further factor multiplies once
    /// more: `a^0 == 1` and `a^(n + 1) == a^n * a`.
    proof fn law_pow(a: Self, n: nat)
        requires
            a.is_member(),
        ensures
            a.pow_spec(0) == Self::one_spec(),
            a.pow_spec(n + 1) == a.pow_spec(n).mul_spec(a),
    ;

    /// The empty sum is zero, and each further summand adds once more:
    /// `0 a == 0` and `(n + 1) a == n a + a`.
    proof fn law_scalar_mul(a: Self, n: nat)
        requires
            a.is_member(),
        ensures
            a.scalar_mul_spec(0) == Self::zero_spec(),
            a.scalar_mul_spec(n + 1) == a.scalar_mul_spec(n).add_spec(a),
    ;

    /// The additive identity.
    fn zero() -> (r: Self)
        ensures
            r == Self::zero_spec(),
    ;

    /// The multiplicative identity.
    fn one() -> (r: Self)
        ensures
            r == Self::one_spec(),
    ;

    /// `self + other`.
    fn add(&self, other: &Self) -> (r: Self)
        requires
            self.is_member(),
            other.is_member(),
        ensures
            r == self.add_spec(*other),
    ;

    /// `self - other`, that is `self + (-other)`.
    fn subtract(&self, other: &Self) -> (r: Self)
        requires
            self.is_member(),
            other.is_member(),
        ensures
            r == self.add_spec(other.neg_spec()),
    ;

    /// `self * other`.
    fn multiply(&self, other: &Self) -> (r: Self)
        requires
            self.is_member(),
            other.is_member(),
        ensures
            r == self.mul_spec(*other),
    ;

    /// The additive inverse of `self`.
    fn negative(&self) -> (r: Self)
        requires
            self.is_member(),
        ensures
            r == self.neg_spec(),
    ;

    /// The multiplicative inverse of `self`, absent exactly for zero.
    fn inverse(&self) -> (r: Option<Self>)
        requires
            self.is_member(),
        ensures
            r == (if *self == Self::zero_spec() {
                None
            } else {
                Some(self.inv_spec())
            }),
    ;

    /// `self` multiplied by itself `pow` times.
    fn to_pow(&self, pow: u32) -> (r: Self)
        requires
            self.is_member(),
        ensures
            r == self.pow_spec(pow as nat),
    ;

    /// `self` added to itself `scalar` times.
    fn mul_by_scalar(&self, scalar: u32) -> (r: Self)
        requires
            self.is_member(),
        ensures
            r == self.scalar_mul_spec(scalar as nat),
    ;

    /// Whether `self` and `other` are the same element.
    fn equals(&self, other: &Self) -> (r: bool)
        requires
            self.is_member(),
            other.is_member(),
        ensures
            r == (*self == *other),
    ;

    /// An element drawn from the whole field with the given generator.
    fn rand(rng: &mut rand::StdRng) -> (r: Self)
        ensures
            r.is_member(),
    ;
}

/// `a - b`, defined as `a + (-b)`.
pub open spec fn sub_spec<F: Field>(a: F, b: F) -> F {
    a.add_spec(b.neg_spec())
}

/// Every entry of `s` is a field element.
pub open spec fn all_members<F: Field>(s: Seq<F>) -> bool {
    forall|i: int| 0 <= i < s.len() ==> (#[trigger] s[i]).is_member()
}

/// No two positions of `s` hold the same value.
pub open spec fn pairwise_distinct<F: Field>(s: Seq<F>) -> bool {
    forall|i: int, j: int| 0 <= i < j < s.len() ==> s[i] != s[j]
}

/// The sum of the entries of `s`, taken from the front.
pub open spec fn sum_of<F: Field>(s: Seq<F>) -> F
    decreases s.len(),
{
    if s.len() == 0 {
        F::zero_spec()
    } else {
        sum_of(s.drop_last()).add_spec(s.last())
    }
}

/// The product of the entries of `s`, taken from the front.
pub open spec fn product_of<F: Field>(s: Seq<F>) -> F
    decreases s.len(),
{
    if s.len() == 0 {
        F::one_spec()
    } else {
        product_of(s.drop_last()).mul_spec(s.last())
    }
}

} // verus!
