//! Arbitrary-precision accumulation. The big-integer type comes from an
//! outside library; its mathematical value is abstracted by `nat_of`, and a
//! small set of trusted wrappers states what each exact operation does to
//! that value.

use vstd::prelude::*;
use num_bigint::BigUint;

verus! {

#[verifier::external_type_specification]
#[verifier::external_body]
pub struct ExBigUint(BigUint);

/// The mathematical value an arbitrary-precision integer holds.
pub uninterp spec fn nat_of(b: BigUint) -> nat;

/// Relies on `BigUint::from::<usize>`: the big integer made from a machine
/// word holds exactly that word's value.
#[verifier::external_body]
pub(crate) fn big_from_usize(v: usize) -> (r: BigUint)
    ensures
        nat_of(r) == v as nat,
{
    BigUint::from(v)
}

/// Relies on `Add<usize> for BigUint`: exact big-integer addition of a
/// machine word.
#[verifier::external_body]
pub(crate) fn big_add_usize(a: BigUint, v: usize) -> (r: BigUint)
    ensures
        nat_of(r) == nat_of(a) + v as nat,
{
    a + v
}

/// Relies on `Mul<&BigUint> for BigUint`: exact big-integer multiplication.
#[verifier::external_body]
pub(crate) fn big_mul(a: BigUint, b: &BigUint) -> (r: BigUint)
    ensures
        nat_of(r) == nat_of(a) * nat_of(*b),
{
    a * b
}

/// Relies on `num_traits::pow`: exponentiation by squaring over the exact
/// big-integer product, so the result holds the base's value raised to `exp`.
#[verifier::external_body]
pub(crate) fn big_pow(base: BigUint, exp: usize) -> (r: BigUint)
    ensures
        nat_of(r) == vstd::arithmetic::power::pow(nat_of(base) as int, exp as nat),
{
    num_traits::pow(base, exp)
}

} // verus!
