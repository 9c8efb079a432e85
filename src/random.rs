//! The random choices the engine makes, each drawn from a caller-supplied
//! `rand::rngs::StdRng`.

use vstd::prelude::*;
use rand::rngs::StdRng;
use rand::Rng;
use num_bigint::RandBigInt;
use crate::bits::is_bit_string;

verus! {

/// The seedable generator of `rand`, carried through the engine unopened.
#[verifier::external_type_specification]
#[verifier::external_body]
pub struct ExStdRng(StdRng);

/// Relies on `rand::Rng::gen_range` over `0..bound`: a value of the half-open
/// range, which must not be empty.
#[verifier::external_body]
pub(crate) fn draw_index(rng: &mut StdRng, bound: usize) -> (r: usize)
    requires
        bound > 0,
    ensures
        r < bound,
{
    rng.gen_range(0..bound)
}

/// Relies on `rand::Rng::gen_ratio`: `true` with chance `numerator` in
/// `denominator`; never when the numerator is 0, always when it equals the
/// denominator.
#[verifier::external_body]
pub(crate) fn draw_ratio(rng: &mut StdRng, numerator: u32, denominator: u32) -> (r: bool)
    requires
        0 < denominator,
        numerator <= denominator,
    ensures
        numerator == 0 ==> !r,
        numerator == denominator ==> r,
{
    rng.gen_ratio(numerator, denominator)
}

/// Relies on `num_bigint::RandBigInt::gen_biguint`: a uniform number below
/// `2^len`, written in binary and padded with zeros on the left to exactly
/// `len` digits.
#[verifier::external_body]
pub(crate) fn draw_bit_string(rng: &mut StdRng, len: usize) -> (r: Vec<char>)
    requires
        len > 0,
    ensures
        r@.len() == len,
        is_bit_string(r@),
{
    format!("{:0width$b}", rng.gen_biguint(len as u64), width = len).chars().collect()
}

} // verus!
