//! The cache: listings of past searches, solutions of past runs and resolved names.
//!
//! A [`Cache`] holds the tables as plain rows; where they are kept between runs
//! is up to the caller.

use crate::rows::views;
use vstd::prelude::*;

pub mod listings;
pub mod names;
pub mod solutions;

pub use listings::{CacheLookup, ListingRow};
pub use names::NameRow;
pub use solutions::{SolutionRow, WizardHistory};

verus! {

/// How long an empty search counts (in seconds): 24 hours.
pub const NEGATIVE_TTL: u64 = 86400;

/// How long found listings count (in seconds): 7 days.
pub const POSITIVE_TTL: u64 = 604800;

/// How long a resolved name counts (in seconds): 24 hours.
pub const SCRYFALL_TTL: u64 = 86400;

pub struct Cache {
    pub listings: Vec<ListingRow>,
    pub solutions: Vec<SolutionRow>,
    pub names: Vec<NameRow>,
}

/// The tables as plain values.
pub struct Tables {
    pub listings: Seq<listings::Entry>,
    pub solutions: Seq<solutions::Record>,
    pub names: Seq<names::Alias>,
}

impl View for Cache {
    type V = Tables;

    open spec fn view(&self) -> Tables {
        Tables {
            listings: views(self.listings@),
            solutions: views(self.solutions@),
            names: views(self.names@),
        }
    }
}

/// The seconds since `at`; none for a time to come.
pub open spec fn age(now: i64, at: i64) -> int {
    if now > at {
        now - at
    } else {
        0
    }
}

/// The seconds since `at`; none for a time to come.
pub fn age_of(now: i64, at: i64) -> (secs: u64)
    ensures
        secs == age(now, at),
{
    if now > at {
        (now as i128 - at as i128) as u64
    } else {
        0
    }
}

impl Cache {
    /// A cache with nothing in it.
    pub fn new() -> (cache: Self)
        ensures
            cache@.listings == Seq::<listings::Entry>::empty(),
            cache@.solutions == Seq::<solutions::Record>::empty(),
            cache@.names == Seq::<names::Alias>::empty(),
    {
        Cache { listings: Vec::new(), solutions: Vec::new(), names: Vec::new() }
    }
}

} // verus!
