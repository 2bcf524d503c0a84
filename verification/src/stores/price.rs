//! Prices as texts: what the stores' formats share.

use vstd::prelude::*;

verus! {

/// Why a page could not be read.
#[derive(Debug, PartialEq, Eq, Structural, Clone, Copy)]
pub enum ScrapeError {
    /// A selector is not valid CSS.
    BadSelector,
    /// A price on the page is too large for its type.
    PriceTooLarge,
}

/// The amount in oere of a price in whole kroner and a fraction below one hundred.
pub open spec fn amount(whole: Option<u32>, frac: Option<u32>) -> Option<nat> {
    match (whole, frac) {
        (Some(w), Some(f)) if f < 100 => Some((w * 100 + f) as nat),
        _ => None,
    }
}

/// The amount of a price in whole kroner and a fraction.
pub fn find_amount(whole: Option<u32>, frac: Option<u32>) -> (n: Option<u64>)
    ensures
        opt_nat(n) == amount(whole, frac),
{
    match (whole, frac) {
        (Some(w), Some(f)) => {
            if f < 100 {
                Some(w as u64 * 100 + f as u64)
            } else {
                None
            }
        },
        _ => None,
    }
}

pub open spec fn opt_nat(n: Option<u64>) -> Option<nat> {
    match n {
        Some(x) => Some(x as nat),
        None => None,
    }
}

/// The amount, if there is one, fits 32 bits.
pub open spec fn fits(n: Option<nat>) -> bool {
    n matches Some(x) ==> x <= u32::MAX
}

/// The amount as a price.
pub open spec fn priced(n: Option<nat>) -> Option<u32> {
    match n {
        Some(x) => Some(x as u32),
        None => None,
    }
}

/// The amount as a price.
pub fn to_price(n: Option<u64>) -> (p: Option<u32>)
    requires
        fits(opt_nat(n)),
    ensures
        p == priced(opt_nat(n)),
{
    match n {
        Some(x) => Some(x as u32),
        None => None,
    }
}

} // verus!
