//! Field elements: arbitrary-precision integers of `num_bigint`.
//!
//! A `BigInt` is carried through the library as an opaque value. The only
//! operations the library needs are to copy one and to compare two.

use num_bigint::BigInt;
use vstd::prelude::*;

verus! {

/// `num_bigint::BigInt`, whose representation stays hidden.
#[verifier::external_type_specification]
#[verifier::external_body]
pub struct ExBigInt(BigInt);

/// `<BigInt as Clone>::clone`: the copy has the sign and the digits of
/// `value`, so it is the same integer.
pub assume_specification[ <BigInt as Clone>::clone ](value: &BigInt) -> (r: BigInt)
    ensures
        r == *value,
;

/// `<BigInt as PartialEq>::eq`: a `BigInt` is kept normalized, and `eq`
/// compares sign and digits, so it is true exactly for equal integers.
#[verifier::external_body]
pub(crate) fn field_elements_equal(a: &BigInt, b: &BigInt) -> (r: bool)
    ensures
        r == (*a == *b),
{
    a == b
}

} // verus!
