//! The arbitrary-precision integers of `num_bigint`, as far as group orders
//! need them.
use num_bigint::BigInt;
use vstd::prelude::*;

verus! {

#[verifier::external_type_specification]
#[verifier::external_body]
pub struct ExBigInt(num_bigint::BigInt);

/// The `BigInt` whose value is `v`.
pub uninterp spec fn big_of(v: int) -> BigInt;

/// Relies on `BigInt::from(u64)`: the integer with the same value.
#[verifier::external_body]
pub(crate) fn big_from_u64(x: u64) -> (r: BigInt)
    ensures
        r == big_of(x as int),
{
    BigInt::from(x)
}

/// Relies on num-bigint's `Mul<u64> for BigInt`: the exact product.
#[verifier::external_body]
pub(crate) fn big_mul_u64(a: BigInt, b: u64) -> (r: BigInt)
    ensures
        forall|x: int| a == #[trigger] big_of(x) ==> r == big_of(x * b),
{
    a * b
}

/// Relies on `BigInt`'s `PartialEq`: true exactly when the values agree.
#[verifier::external_body]
pub(crate) fn big_eq(a: &BigInt, b: &BigInt) -> (r: bool)
    ensures
        forall|x: int, y: int|
            *a == #[trigger] big_of(x) && *b == #[trigger] big_of(y) ==> (r <==> x == y),
{
    a == b
}

} // verus!
