//! Resolved card names in the cache.

use crate::cache::{age, age_of, Cache, Tables, SCRYFALL_TTL};
use crate::html::opt_text;
use crate::rows::{lemma_views_push, retain_rows};
use crate::text::same_text;
use vstd::prelude::*;

verus! {

pub struct NameRow {
    pub input_name: String,
    pub resolved_name: String,
    pub fetched_at: i64,
}

/// A `NameRow` as plain values.
pub struct Alias {
    pub input: Seq<char>,
    pub resolved: Seq<char>,
    pub fetched_at: i64,
}

impl View for NameRow {
    type V = Alias;

    open spec fn view(&self) -> Alias {
        Alias {
            input: self.input_name@,
            resolved: self.resolved_name@,
            fetched_at: self.fetched_at,
        }
    }
}

/// The latest row for a name.
pub open spec fn alias_of(rows: Seq<Alias>, name: Seq<char>) -> Option<Alias>
    decreases rows.len(),
{
    if rows.len() == 0 {
        None
    } else if rows.last().input == name {
        Some(rows.last())
    } else {
        alias_of(rows.drop_last(), name)
    }
}

/// What a name resolved to, if that is fresh.
pub open spec fn fresh_name(t: Tables, name: Seq<char>, now: i64) -> Option<Seq<char>> {
    match alias_of(t.names, name) {
        Some(row) if age(now, row.fetched_at) < SCRYFALL_TTL => Some(row.resolved),
        _ => None,
    }
}

pub open spec fn other_name(name: Seq<char>) -> spec_fn(Alias) -> bool {
    |row: Alias| row.input != name
}

/// The names with one resolution recorded, in place of an earlier one.
pub open spec fn with_name(
    names: Seq<Alias>,
    name: Seq<char>,
    resolved: Seq<char>,
    now: i64,
) -> Seq<Alias> {
    names.filter(other_name(name)).push(Alias { input: name, resolved, fetched_at: now })
}

impl Cache {
    /// What a name resolved to, if that is fresh.
    pub fn lookup_scryfall(&self, input_name: &str, now: i64) -> (resolved: Option<String>)
        ensures
            opt_text(resolved) == fresh_name(self@, input_name@, now),
    {
        let ghost all = self@.names;
        let mut i: usize = self.names.len();
        assert(all.take(i as int) =~= all);
        while i > 0
            invariant
                all == self@.names,
                i <= self.names@.len(),
                alias_of(all, input_name@) == alias_of(all.take(i as int), input_name@),
            decreases i,
        {
            proof {
                let t = all.take(i as int);
                assert(t.drop_last() =~= all.take(i - 1));
                assert(t.last() == self.names@[i - 1]@);
            }
            i -= 1;
            if same_text(&self.names[i].input_name, input_name) {
                let row = &self.names[i];
                if age_of(now, row.fetched_at) < SCRYFALL_TTL {
                    return Some(row.resolved_name.clone());
                }
                return None;
            }
        }
        None
    }

    /// Records what a name resolved to, in place of an earlier resolution.
    pub fn store_scryfall(&mut self, input_name: &str, resolved_name: &str, now: i64)
        ensures
            final(self)@.names == with_name(old(self)@.names, input_name@, resolved_name@, now),
            final(self)@.listings == old(self)@.listings,
            final(self)@.solutions == old(self)@.solutions,
    {
        let ghost keep = other_name(input_name@);
        let other = |row: &NameRow| -> (b: bool)
            ensures
                b == (row@.input != input_name@),
            { !same_text(&row.input_name, input_name) };
        retain_rows(&mut self.names, other, Ghost(keep));
        let row = NameRow {
            input_name: input_name.to_owned(),
            resolved_name: resolved_name.to_owned(),
            fetched_at: now,
        };
        proof {
            lemma_views_push(self.names@, row);
        }
        self.names.push(row);
    }
}

/// A name that was resolved reads back as it was recorded for as long as it
/// counts, and every other name reads as before.
pub proof fn law_name_reads_back(
    t: Tables,
    u: Tables,
    name: Seq<char>,
    resolved: Seq<char>,
    other: Seq<char>,
    now: i64,
    later: i64,
)
    requires
        u.names == with_name(t.names, name, resolved, now),
        other != name,
    ensures
        age(later, now) < SCRYFALL_TTL ==> fresh_name(u, name, later) == Some(resolved),
        age(later, now) >= SCRYFALL_TTL ==> fresh_name(u, name, later) is None,
        fresh_name(u, other, later) == fresh_name(t, other, later),
{
    let kept = t.names.filter(other_name(name));
    assert(u.names.drop_last() =~= kept);
    lemma_alias_kept(t.names, name, other);
}

proof fn lemma_alias_kept(rows: Seq<Alias>, name: Seq<char>, other: Seq<char>)
    requires
        other != name,
    ensures
        alias_of(rows.filter(other_name(name)), other) == alias_of(rows, other),
    decreases rows.len(),
{
    reveal(Seq::filter);
    if rows.len() > 0 {
        lemma_alias_kept(rows.drop_last(), name, other);
        let rest = rows.drop_last().filter(other_name(name));
        assert(rest.push(rows.last()).drop_last() =~= rest);
    }
}

} // verus!
