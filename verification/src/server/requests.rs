//! Requests and what is wrong with them.

use crate::cache::solutions::{run_views, Past, WizardHistory};
use crate::decklist::{is_selected, is_sorted_set, selected, sort_unique};
use crate::scryfall::NothingRecognized;
use crate::text::{decimal, decimal_text, joined, texts};
use crate::wizard::model::Strategy;
use vstd::prelude::*;

verus! {

/// The most cards in one request.
pub const MAX_CARDS: usize = 100;

/// The highest tolerance in one request.
pub const MAX_TOLERANCE: usize = 5;

pub struct FetchRequest {
    /// Parts of store names; none means all stores.
    pub stores: Vec<String>,
    pub cards: Vec<String>,
    /// Only return cached data; the response may be incomplete.
    pub cache_only: bool,
    /// Max results per store endpoint per card; 0 means no cap.
    pub max_per_store: usize,
}

pub struct WizardRequest {
    pub cards: Vec<String>,
    pub tolerance: usize,
    pub eu_destination: bool,
    pub strategy: String,
    pub exhaustive: bool,
}

/// The strategy of a request that names none.
pub fn default_strategy() -> (name: String)
    ensures
        name@ == "cheapest"@,
{
    "cheapest".to_owned()
}

/// Why a request is not served.
pub enum RequestError {
    NoCards,
    TooManyCards(usize),
    ToleranceTooHigh(usize),
    UnknownStrategy(String),
    NothingRecognized,
    NoCache,
    NoListings,
    OutOfRange,
}

impl RequestError {
    pub open spec fn text(&self) -> Seq<char> {
        match self {
            RequestError::NoCards => "No cards provided."@,
            RequestError::TooManyCards(n) => "Too many cards: "@ + decimal(*n as nat)
                + ". Max is 100."@,
            RequestError::ToleranceTooHigh(n) => "Tolerance too high: "@ + decimal(*n as nat)
                + ". Max is 5."@,
            RequestError::UnknownStrategy(s) => "Unknown strategy '"@ + s@
                + "'. Use 'cheapest' or 'simplest'."@,
            RequestError::NothingRecognized =>
                "No recognized Magic card names found after resolution."@,
            RequestError::NoCache =>
                "Cache is not available (server started with --no-cache?)."@,
            RequestError::NoListings => "No cached listings found. Run a /fetch first."@,
            RequestError::OutOfRange => "The cached listings are out of range."@,
        }
    }

    /// The message for users.
    pub fn message(&self) -> (text: String)
        ensures
            text@ == self.text(),
    {
        match self {
            RequestError::NoCards => "No cards provided.".to_owned(),
            RequestError::TooManyCards(n) => joined(
                &joined("Too many cards: ", &decimal_text(*n as u64)),
                ". Max is 100.",
            ),
            RequestError::ToleranceTooHigh(n) => joined(
                &joined("Tolerance too high: ", &decimal_text(*n as u64)),
                ". Max is 5.",
            ),
            RequestError::UnknownStrategy(s) => joined(
                &joined("Unknown strategy '", s),
                "'. Use 'cheapest' or 'simplest'.",
            ),
            RequestError::NothingRecognized => NothingRecognized.message().to_owned(),
            RequestError::NoCache =>
                "Cache is not available (server started with --no-cache?).".to_owned(),
            RequestError::NoListings =>
                "No cached listings found. Run a /fetch first.".to_owned(),
            RequestError::OutOfRange => "The cached listings are out of range.".to_owned(),
        }
    }

    /// The HTTP status.
    pub fn status(&self) -> (code: u16)
        ensures
            code == if self is NoCache || self is OutOfRange {
                500u16
            } else {
                400u16
            },
    {
        match self {
            RequestError::NoCache | RequestError::OutOfRange => 500,
            _ => 400,
        }
    }
}

/// The names are as many as a request may have.
pub open spec fn card_count_ok(sorted: Seq<Seq<char>>) -> bool {
    0 < sorted.len() <= MAX_CARDS
}

/// There are so many different names.
pub open spec fn distinct_count(names: Seq<Seq<char>>, n: nat) -> bool {
    exists|sorted: Seq<Seq<char>>| #[trigger] is_sorted_set(names, sorted) && sorted.len() == n
}

/// The different names are as many as a request may have.
pub open spec fn distinct_count_ok(names: Seq<Seq<char>>) -> bool {
    exists|sorted: Seq<Seq<char>>| #[trigger] is_sorted_set(names, sorted) && card_count_ok(sorted)
}

/// The cards of a request, sorted and each once; there must be some, and not too
/// many.
pub fn check_cards(cards: &Vec<String>) -> (checked: Result<Vec<String>, RequestError>)
    ensures
        match checked {
            Ok(sorted) => is_sorted_set(texts(cards@), texts(sorted@)) && card_count_ok(
                texts(sorted@),
            ),
            Err(RequestError::NoCards) => cards@.len() == 0,
            Err(RequestError::TooManyCards(n)) => n > MAX_CARDS && distinct_count(
                texts(cards@),
                n as nat,
            ),
            Err(_) => false,
        },
{
    let sorted = sort_unique(cards);
    let ghost all = texts(sorted@);
    assert(all.len() == sorted@.len());
    if sorted.len() == 0 {
        proof {
            if cards@.len() > 0 {
                assert(texts(cards@)[0] == cards@[0]@);
                assert(texts(cards@).contains(cards@[0]@));
                assert(all.contains(cards@[0]@));
            }
        }
        return Err(RequestError::NoCards);
    }
    if sorted.len() > MAX_CARDS {
        return Err(RequestError::TooManyCards(sorted.len()));
    }
    Ok(sorted)
}

/// The cards of a wizard request, if the tolerance is allowed too.
pub fn check_wizard(req: &WizardRequest) -> (checked: Result<Vec<String>, RequestError>)
    ensures
        match checked {
            Ok(sorted) => is_sorted_set(texts(req.cards@), texts(sorted@)) && card_count_ok(
                texts(sorted@),
            ) && req.tolerance <= MAX_TOLERANCE,
            Err(RequestError::NoCards) => req.cards@.len() == 0,
            Err(RequestError::TooManyCards(n)) => n > MAX_CARDS && distinct_count(
                texts(req.cards@),
                n as nat,
            ),
            Err(RequestError::ToleranceTooHigh(n)) => n == req.tolerance && n > MAX_TOLERANCE
                && distinct_count_ok(texts(req.cards@)),
            Err(_) => false,
        },
{
    let sorted = match check_cards(&req.cards) {
        Ok(sorted) => sorted,
        Err(e) => {
            return Err(e);
        },
    };
    if req.tolerance > MAX_TOLERANCE {
        return Err(RequestError::ToleranceTooHigh(req.tolerance));
    }
    Ok(sorted)
}

/// The strategy of a request.
pub fn check_strategy(name: &str) -> (checked: Result<Strategy, RequestError>)
    ensures
        match checked {
            Ok(s) => name@ == s.label(),
            Err(RequestError::UnknownStrategy(n)) => n@ == name@ && name@ != "simplest"@ && name@
                != "cheapest"@,
            Err(_) => false,
        },
{
    match Strategy::from_name(name) {
        Some(s) => Ok(s),
        None => Err(RequestError::UnknownStrategy(name.to_owned())),
    }
}

/// The stores below `k` that the filters select; no filters select all.
pub open spec fn active(names: Seq<Seq<char>>, filters: Seq<Seq<char>>, k: int) -> Seq<usize>
    decreases k,
{
    if k <= 0 {
        Seq::empty()
    } else {
        let rest = active(names, filters, k - 1);
        if filters.len() == 0 || selected(names[k - 1], filters) {
            rest.push((k - 1) as usize)
        } else {
            rest
        }
    }
}

/// The stores that the filters select; no filters select all.
pub fn active_stores(names: &Vec<String>, filters: &Vec<String>) -> (indices: Vec<usize>)
    ensures
        indices@ == active(texts(names@), texts(filters@), names@.len() as int),
{
    let ghost ns = texts(names@);
    let ghost fs = texts(filters@);
    let mut indices: Vec<usize> = Vec::new();
    let mut i: usize = 0;
    while i < names.len()
        invariant
            ns == texts(names@),
            fs == texts(filters@),
            i <= names@.len(),
            indices@ == active(ns, fs, i as int),
        decreases names@.len() - i,
    {
        assert(ns[i as int] == names@[i as int]@);
        if filters.len() == 0 || is_selected(&names[i], filters) {
            indices.push(i);
        }
        i += 1;
    }
    indices
}

/// Past runs serve a request: there are some, the best is for as many cards, and
/// one was exhaustive.
pub open spec fn runs_serve(runs: Seq<(Past, bool)>, cards: int) -> bool {
    &&& runs.len() > 0
    &&& runs[0].0.raw_choices.len() == cards
    &&& exists|i: int| 0 <= i < runs.len() && #[trigger] runs[i].1
}

/// Do past runs serve a request?
pub fn can_serve(runs: &Vec<(WizardHistory, bool)>, cards: usize) -> (b: bool)
    ensures
        b == runs_serve(run_views(runs@), cards as int),
{
    let ghost all = run_views(runs@);
    assert(runs@.len() > 0 ==> all[0] == (runs@[0].0@, runs@[0].1));
    if runs.len() == 0 || runs[0].0.raw_choices.len() != cards {
        return false;
    }
    let mut i: usize = 0;
    while i < runs.len()
        invariant
            all == run_views(runs@),
            runs@.len() > 0,
            all[0].0.raw_choices.len() == cards,
            i <= runs@.len(),
            forall|k: int| 0 <= k < i ==> !(#[trigger] all[k]).1,
        decreases runs@.len() - i,
    {
        assert(all[i as int].1 == runs@[i as int].1);
        if runs[i].1 {
            assert(all[i as int].1);
            return true;
        }
        i += 1;
    }
    false
}

} // verus!
