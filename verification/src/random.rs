//! Random choices.

use rand::distributions::Alphanumeric;
use rand::rngs::StdRng;
use rand::Rng;
use vstd::prelude::*;

verus! {

/// rand's standard generator, an opaque state.
#[verifier::external_type_specification]
#[verifier::external_body]
pub struct ExStdRng(StdRng);

/// `Rng::gen_range(0..n)`: some number below `n`.  It panics on an empty range.
#[verifier::external_body]
pub(crate) fn index_below(rng: &mut StdRng, n: usize) -> (r: usize)
    requires
        n > 0,
    ensures
        r < n,
{
    rng.gen_range(0..n)
}

/// `Rng::gen`: any number.
#[verifier::external_body]
pub(crate) fn any_number(rng: &mut StdRng) -> (r: u64)
{
    rng.gen()
}

/// `Rng::sample(Alphanumeric)`: an ASCII letter or digit.
#[verifier::external_body]
pub(crate) fn alphanumeric(rng: &mut StdRng) -> (c: char)
    ensures
        is_alphanumeric(c),
{
    rng.sample(Alphanumeric) as char
}

pub open spec fn is_alphanumeric(c: char) -> bool {
    'A' <= c <= 'Z' || 'a' <= c <= 'z' || '0' <= c <= '9'
}

} // verus!
