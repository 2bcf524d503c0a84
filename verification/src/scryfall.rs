//! Card names as Scryfall resolves them.

use crate::cache::names::{fresh_name, law_name_reads_back, with_name};
use crate::cache::{Cache, Tables};
use crate::decklist::{is_sorted_set, sort_unique};
use crate::percent::{url_encoded, urlencoding};
use crate::text::{joined, texts};
use vstd::prelude::*;

verus! {

pub const AUTOCOMPLETE_URL: &'static str = "https://api.scryfall.com/cards/autocomplete";

/// Minimum delay between requests (in milliseconds).
pub const SCRYFALL_DELAY_MS: u64 = 120;

/// The address that completes a name.
pub fn autocomplete_url(name: &str) -> (url: String)
    ensures
        url@ == AUTOCOMPLETE_URL@ + "?q="@ + url_encoded(name@),
{
    joined(&joined(AUTOCOMPLETE_URL, "?q="), &urlencoding(name))
}

/// What became of looking a name up.
pub enum Resolution {
    /// The canonical name.
    Found(String),
    /// No card goes by the name.
    Unknown,
    /// The lookup failed; the name is kept as it is.
    Failed,
}

/// A `Resolution` as plain text.
pub enum Resolved {
    Found(Seq<char>),
    Unknown,
    Failed,
}

impl View for Resolution {
    type V = Resolved;

    open spec fn view(&self) -> Resolved {
        match self {
            Resolution::Found(n) => Resolved::Found(n@),
            Resolution::Unknown => Resolved::Unknown,
            Resolution::Failed => Resolved::Failed,
        }
    }
}

pub open spec fn resolutions(v: Seq<Resolution>) -> Seq<Resolved> {
    v.map_values(|r: Resolution| r@)
}

/// What a list of suggestions, best first, resolves a name to.
pub fn first_suggestion(suggestions: &Vec<String>) -> (resolution: Resolution)
    ensures
        resolution@ == if suggestions@.len() > 0 {
            Resolved::Found(suggestions@[0]@)
        } else {
            Resolved::Unknown
        },
{
    if suggestions.len() > 0 {
        Resolution::Found(suggestions[0].clone())
    } else {
        Resolution::Unknown
    }
}

/// The name to go on with: the canonical one, or the given one where the lookup failed.
pub open spec fn kept_name(name: Seq<char>, r: Resolved) -> Option<Seq<char>> {
    match r {
        Resolved::Found(n) => Some(n),
        Resolved::Failed => Some(name),
        Resolved::Unknown => None,
    }
}

/// The given names with the names to go on with, in order.
pub open spec fn kept_pairs(names: Seq<Seq<char>>, r: Seq<Resolved>) -> Seq<(Seq<char>, Seq<char>)>
    decreases names.len(),
{
    if names.len() == 0 || r.len() == 0 {
        Seq::empty()
    } else {
        let rest = kept_pairs(names.drop_last(), r.drop_last());
        match kept_name(names.last(), r.last()) {
            Some(n) => rest.push((names.last(), n)),
            None => rest,
        }
    }
}

/// The names to go on with, in order.
pub open spec fn kept_names(names: Seq<Seq<char>>, r: Seq<Resolved>) -> Seq<Seq<char>> {
    kept_pairs(names, r).map_values(|p: (Seq<char>, Seq<char>)| p.1)
}

pub open spec fn pairs_of(v: Seq<(String, String)>) -> Seq<(Seq<char>, Seq<char>)> {
    v.map_values(|p: (String, String)| (p.0@, p.1@))
}

/// The names that no card goes by, in order.
pub open spec fn unknown_names(names: Seq<Seq<char>>, r: Seq<Resolved>) -> Seq<Seq<char>>
    decreases names.len(),
{
    if names.len() == 0 || r.len() == 0 {
        Seq::empty()
    } else {
        let rest = unknown_names(names.drop_last(), r.drop_last());
        if r.last() is Unknown {
            rest.push(names.last())
        } else {
            rest
        }
    }
}

/// The given and the kept names in pairs, and the names that no card goes by.
pub fn resolve_batch(names: &Vec<String>, found: &Vec<Resolution>) -> (result: (
    Vec<(String, String)>,
    Vec<String>,
))
    requires
        found@.len() == names@.len(),
    ensures
        pairs_of(result.0@) == kept_pairs(texts(names@), resolutions(found@)),
        texts(result.1@) == unknown_names(texts(names@), resolutions(found@)),
{
    let ghost ns = texts(names@);
    let ghost rs = resolutions(found@);
    let mut kept: Vec<(String, String)> = Vec::new();
    let mut unknown: Vec<String> = Vec::new();
    let mut i: usize = 0;
    proof {
        assert(pairs_of(kept@) =~= Seq::empty());
        assert(texts(unknown@) =~= Seq::empty());
    }
    while i < names.len()
        invariant
            found@.len() == names@.len(),
            ns == texts(names@),
            rs == resolutions(found@),
            i <= names@.len(),
            pairs_of(kept@) == kept_pairs(ns.take(i as int), rs.take(i as int)),
            texts(unknown@) == unknown_names(ns.take(i as int), rs.take(i as int)),
        decreases names@.len() - i,
    {
        let ghost k0 = kept@;
        let ghost u0 = unknown@;
        proof {
            assert(ns.take(i + 1).drop_last() =~= ns.take(i as int));
            assert(rs.take(i + 1).drop_last() =~= rs.take(i as int));
            assert(ns.take(i + 1).last() == names@[i as int]@);
            assert(rs.take(i + 1).last() == found@[i as int]@);
        }
        match &found[i] {
            Resolution::Found(n) => {
                kept.push((names[i].clone(), n.clone()));
                assert(pairs_of(kept@) =~= pairs_of(k0).push((names@[i as int]@, n@)));
            },
            Resolution::Unknown => {
                unknown.push(names[i].clone());
                assert(texts(unknown@) =~= texts(u0).push(names@[i as int]@));
            },
            Resolution::Failed => {
                kept.push((names[i].clone(), names[i].clone()));
                assert(pairs_of(kept@) =~= pairs_of(k0).push(
                    (names@[i as int]@, names@[i as int]@),
                ));
            },
        }
        i += 1;
    }
    proof {
        assert(ns.take(i as int) =~= ns);
        assert(rs.take(i as int) =~= rs);
    }
    (kept, unknown)
}

/// No name is that of a card.
#[derive(Debug, PartialEq, Eq, Structural, Clone, Copy)]
pub struct NothingRecognized;

impl NothingRecognized {
    /// The message for users.
    pub fn message(&self) -> (m: &'static str)
        ensures
            m@ == "No recognized Magic card names found after resolution."@,
    {
        "No recognized Magic card names found after resolution."
    }
}

/// The canonical names, sorted and each once, and the names that no card goes by;
/// an error if no name is left.
pub fn resolve_all(names: &Vec<String>, found: &Vec<Resolution>) -> (result: Result<
    (Vec<String>, Vec<String>),
    NothingRecognized,
>)
    requires
        found@.len() == names@.len(),
    ensures
        ({
            let kept = kept_names(texts(names@), resolutions(found@));
            match result {
                Ok((sorted, unknown)) => kept.len() > 0 && is_sorted_set(kept, texts(sorted@))
                    && texts(unknown@) == unknown_names(texts(names@), resolutions(found@)),
                Err(_) => kept.len() == 0,
            }
        }),
{
    let (pairs, unknown) = resolve_batch(names, found);
    let ghost kept = kept_names(texts(names@), resolutions(found@));
    let mut plain: Vec<String> = Vec::new();
    let mut i: usize = 0;
    assert(texts(plain@) =~= kept.take(0));
    while i < pairs.len()
        invariant
            kept == pairs_of(pairs@).map_values(|p: (Seq<char>, Seq<char>)| p.1),
            i <= pairs@.len(),
            texts(plain@) == kept.take(i as int),
        decreases pairs@.len() - i,
    {
        let ghost p0 = plain@;
        plain.push(pairs[i].1.clone());
        proof {
            assert(texts(plain@) =~= texts(p0).push(pairs@[i as int].1@));
            assert(kept.take(i + 1) =~= kept.take(i as int).push(kept[i as int]));
        }
        i += 1;
    }
    assert(kept.take(i as int) =~= kept);
    if plain.len() == 0 {
        assert(texts(plain@).len() == 0);
        return Err(NothingRecognized);
    }
    assert(texts(plain@).len() == plain@.len());
    Ok((sort_unique(&plain), unknown))
}

/// The name to write to the cache once the API has answered: one that it found.
pub fn name_to_cache(answer: &Resolution) -> (canonical: Option<String>)
    ensures
        match answer@ {
            Resolved::Found(n) => canonical matches Some(c) && c@ == n,
            _ => canonical is None,
        },
{
    match answer {
        Resolution::Found(canonical) => Some(canonical.clone()),
        _ => None,
    }
}

/// What a name resolves to: its fresh cached name, else what the API answers.
pub open spec fn resolved_as(t: Tables, name: Seq<char>, answer: Resolved, now: i64) -> Resolved {
    match fresh_name(t, name, now) {
        Some(n) => Resolved::Found(n),
        None => answer,
    }
}

/// The tables once a name is resolved: a name that the API found is recorded, a
/// failed lookup and a name that no card goes by are not.
pub open spec fn once_resolved(t: Tables, name: Seq<char>, answer: Resolved, now: i64) -> Tables {
    match answer {
        Resolved::Found(n) if fresh_name(t, name, now) is None => Tables {
            names: with_name(t.names, name, n, now),
            ..t
        },
        _ => t,
    }
}

/// The tables once the names are resolved in order.
pub open spec fn all_resolved(
    t: Tables,
    names: Seq<Seq<char>>,
    answers: Seq<Resolved>,
    now: i64,
) -> Tables
    decreases names.len(),
{
    if names.len() == 0 {
        t
    } else {
        once_resolved(
            all_resolved(t, names.drop_last(), answers.drop_last(), now),
            names.last(),
            answers.last(),
            now,
        )
    }
}

/// What the names resolve to, in order.
pub open spec fn all_found(
    t: Tables,
    names: Seq<Seq<char>>,
    answers: Seq<Resolved>,
    now: i64,
) -> Seq<Resolved>
    decreases names.len(),
{
    if names.len() == 0 {
        Seq::empty()
    } else {
        let before = all_resolved(t, names.drop_last(), answers.drop_last(), now);
        all_found(t, names.drop_last(), answers.drop_last(), now).push(
            resolved_as(before, names.last(), answers.last(), now),
        )
    }
}

fn copy_resolution(r: &Resolution) -> (copy: Resolution)
    ensures
        copy@ == r@,
{
    match r {
        Resolution::Found(n) => Resolution::Found(n.clone()),
        Resolution::Unknown => Resolution::Unknown,
        Resolution::Failed => Resolution::Failed,
    }
}

/// Resolves names through the cache, and through what the API answers for those
/// that are not fresh in it; what the API found is recorded.  The answer for a name
/// that is fresh in the cache is not read.
pub fn resolve_with_cache(
    names: &Vec<String>,
    answers: &Vec<Resolution>,
    cache: &mut Cache,
    now: i64,
) -> (result: Result<(Vec<String>, Vec<String>), NothingRecognized>)
    requires
        answers@.len() == names@.len(),
    ensures
        ({
            let ns = texts(names@);
            let found = all_found(old(cache)@, ns, resolutions(answers@), now);
            let kept = kept_names(ns, found);
            &&& final(cache)@ == all_resolved(old(cache)@, ns, resolutions(answers@), now)
            &&& match result {
                Ok((sorted, unknown)) => kept.len() > 0 && is_sorted_set(kept, texts(sorted@))
                    && texts(unknown@) == unknown_names(ns, found),
                Err(_) => kept.len() == 0,
            }
        }),
{
    let ghost ns = texts(names@);
    let ghost rs = resolutions(answers@);
    let mut found: Vec<Resolution> = Vec::new();
    let mut i: usize = 0;
    proof {
        assert(ns.take(0) =~= Seq::empty());
        assert(resolutions(found@) =~= Seq::empty());
    }
    while i < names.len()
        invariant
            answers@.len() == names@.len(),
            ns == texts(names@),
            rs == resolutions(answers@),
            i <= names@.len(),
            found@.len() == i,
            cache@ == all_resolved(old(cache)@, ns.take(i as int), rs.take(i as int), now),
            resolutions(found@) == all_found(
                old(cache)@,
                ns.take(i as int),
                rs.take(i as int),
                now,
            ),
        decreases names@.len() - i,
    {
        proof {
            let n = ns.take(i + 1);
            let r = rs.take(i + 1);
            assert(n.drop_last() =~= ns.take(i as int));
            assert(r.drop_last() =~= rs.take(i as int));
            assert(n.last() == names@[i as int]@);
            assert(r.last() == answers@[i as int]@);
        }
        let ghost before = found@;
        let resolution = match cache.lookup_scryfall(&names[i], now) {
            Some(canonical) => Resolution::Found(canonical),
            None => {
                if let Some(canonical) = name_to_cache(&answers[i]) {
                    cache.store_scryfall(&names[i], &canonical, now);
                }
                copy_resolution(&answers[i])
            },
        };
        found.push(resolution);
        assert(resolutions(found@) =~= resolutions(before).push(resolution@));
        i += 1;
    }
    proof {
        assert(ns.take(i as int) =~= ns);
        assert(rs.take(i as int) =~= rs);
    }
    resolve_all(names, &found)
}

/// Resolving names leaves in the cache exactly what the names resolved to: a name
/// that was found reads back at once, and a name that the API found nothing for
/// reads as before.
pub proof fn law_found_names_are_cached(
    t: Tables,
    names: Seq<Seq<char>>,
    answers: Seq<Resolved>,
    now: i64,
    name: Seq<char>,
)
    requires
        names.len() == answers.len(),
    ensures
        all_found(t, names, answers, now).len() == names.len(),
        forall|i: int|
            0 <= i < names.len() && #[trigger] names[i] == name ==> (all_found(
                t,
                names,
                answers,
                now,
            )[i] matches Resolved::Found(n) ==> fresh_name(
                all_resolved(t, names, answers, now),
                name,
                now,
            ) == Some(n)),
        (forall|i: int| 0 <= i < names.len() && #[trigger] names[i] == name ==> !(answers[i] is Found))
            ==> fresh_name(all_resolved(t, names, answers, now), name, now) == fresh_name(
            t,
            name,
            now,
        ),
        fresh_name(t, name, now) is Some ==> fresh_name(
            all_resolved(t, names, answers, now),
            name,
            now,
        ) == fresh_name(t, name, now),
    decreases names.len(),
{
    if names.len() > 0 {
        let ns = names.drop_last();
        let rs = answers.drop_last();
        let u = all_resolved(t, ns, rs, now);
        let end = all_resolved(t, names, answers, now);
        law_found_names_are_cached(t, ns, rs, now, name);
        if forall|i: int| 0 <= i < names.len() && #[trigger] names[i] == name ==> !(answers[i] is Found) {
            assert forall|i: int| 0 <= i < ns.len() && #[trigger] ns[i] == name implies !(
            rs[i] is Found) by {
                assert(names[i] == name);
            }
        }
        assert(names[names.len() - 1] == names.last());
        let last = names.last();
        if answers.last() is Found && fresh_name(u, last, now) is None {
            let n = answers.last()->Found_0;
            let other = if last == name {
                last.push('x')
            } else {
                name
            };
            assert(other != last) by {
                if last == name {
                    assert(other.len() != last.len());
                }
            }
            law_name_reads_back(u, end, last, n, other, now, now);
        }
        assert forall|i: int| 0 <= i < names.len() && #[trigger] names[i] == name implies (all_found(
            t,
            names,
            answers,
            now,
        )[i] matches Resolved::Found(n) ==> fresh_name(end, name, now) == Some(n)) by {
            if i < ns.len() {
                assert(ns[i] == name);
            }
        }
    }
}

} // verus!
