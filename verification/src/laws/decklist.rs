//! What decklists and store filters mean.

use crate::decklist::{
    first_white, lines, names_on, selected, text_before, unmatched, without_quantity,
};
use crate::laws::pages::tidy;
use crate::laws::text::law_parse_number;
use crate::stores::printed::lemma_decimal;
use crate::text::{contains, decimal, is_digit, is_white, lowercase, trim};
use vstd::prelude::*;

verus! {

proof fn lemma_first_white(s: Seq<char>, from: int, at: int)
    requires
        0 <= from <= at <= s.len(),
        forall|i: int| from <= i < at ==> !is_white(#[trigger] s[i]),
        at < s.len() ==> is_white(s[at]),
    ensures
        first_white(s, from) == if at < s.len() {
            Some(at)
        } else {
            None
        },
    decreases at - from,
{
    if from < at {
        lemma_first_white(s, from + 1, at);
    }
}

proof fn lemma_find_white(s: Seq<char>, from: int)
    requires
        0 <= from <= s.len(),
    ensures
        match first_white(s, from) {
            Some(i) => from <= i < s.len() && is_white(s[i]) && forall|k: int|
                from <= k < i ==> !is_white(#[trigger] s[k]),
            None => forall|k: int| from <= k < s.len() ==> !is_white(#[trigger] s[k]),
        },
    decreases s.len() - from,
{
    if from < s.len() && !is_white(s[from]) {
        lemma_find_white(s, from + 1);
    }
}

/// A quantity and a space in front of a name are dropped; a name without a number in
/// front stays whole.
pub proof fn law_quantities_are_dropped(n: u32, name: Seq<char>)
    requires
        tidy(name),
    ensures
        without_quantity(decimal(n as nat).push(' ') + name) == name,
        !('0' <= name[0] <= '9') && name[0] != '+' ==> without_quantity(name) == name,
        (forall|i: int| 0 <= i < name.len() ==> !is_white(#[trigger] name[i])) ==> without_quantity(
            name,
        ) == name,
{
    let d = decimal(n as nat);
    let line = d.push(' ') + name;
    lemma_decimal(n as nat);
    law_parse_number(n as nat, name);
    assert(is_digit(d[0]));
    assert(line[0] == d[0] && line.last() == name.last());
    assert(trim(line) == line);
    assert forall|i: int| 0 <= i < d.len() implies !is_white(#[trigger] line[i]) by {
        assert(is_digit(d[i]));
        assert(line[i] == d[i]);
    }
    lemma_first_white(line, 0, d.len() as int);
    assert(line.take(d.len() as int) =~= d);
    assert(line.skip(d.len() as int + 1) =~= name);
    assert(trim(name) == name);
    lemma_find_white(name, 0);
    if !('0' <= name[0] <= '9') && name[0] != '+' {
        if let Some(i) = first_white(name, 0) {
            if i > 0 {
                let word = name.take(i);
                law_parse_number(0, word);
                assert(word[0] == name[0]);
            }
        }
    }
}

/// The lines of a text are what stands between its line feeds.
pub proof fn law_lines(a: Seq<char>, b: Seq<char>)
    requires
        !b.contains('\n'),
    ensures
        lines(b) == seq![b],
        lines(a.push('\n') + b) == lines(a).push(b),
    decreases b.len(),
{
    let s = a.push('\n') + b;
    if b.len() == 0 {
        assert(b =~= Seq::empty());
        assert(s =~= a.push('\n'));
        assert(s.drop_last() =~= a);
    } else {
        let rest = b.drop_last();
        assert(!rest.contains('\n')) by {
            if rest.contains('\n') {
                let i = choose|i: int| 0 <= i < rest.len() && rest[i] == '\n';
                assert(b[i] == '\n');
            }
        }
        law_lines(a, rest);
        assert(b.last() != '\n') by {
            assert(b[b.len() - 1] == b.last());
        }
        assert(s.drop_last() =~= a.push('\n') + rest);
        assert(s.last() == b.last());
        assert(rest.push(b.last()) =~= b);
        assert(seq![rest].update(0, b) =~= seq![b]);
        let before = lines(a).push(rest);
        assert(before.update(before.len() - 1, b) =~= lines(a).push(b));
    }
}

/// A decklist names one card per line that is not blank, in order.
pub proof fn law_names_line_by_line(a: Seq<Seq<char>>, line: Seq<char>)
    ensures
        trim(line).len() == 0 ==> names_on(a.push(line)) == names_on(a),
        trim(line).len() > 0 ==> names_on(a.push(line)) == names_on(a).push(
            without_quantity(trim(line)),
        ),
        names_on(Seq::empty()).len() == 0,
{
    assert(a.push(line).drop_last() =~= a);
}

/// Texts are ordered by their first different character, and a text comes before
/// those that continue it.
pub proof fn law_text_order(p: Seq<char>, x: char, y: char, s: Seq<char>, t: Seq<char>)
    ensures
        x != y ==> (text_before(p + (seq![x] + s), p + (seq![y] + t)) <==> (x as u32) < (y as u32)),
        text_before(p, p + (seq![x] + s)),
        !text_before(p + (seq![x] + s), p),
        !text_before(p, p),
    decreases p.len(),
{
    let a = p + (seq![x] + s);
    let b = p + (seq![y] + t);
    if p.len() == 0 {
        assert(a[0] == x && b[0] == y);
    } else {
        law_text_order(p.skip(1), x, y, s, t);
        assert(a.skip(1) =~= p.skip(1) + (seq![x] + s));
        assert(b.skip(1) =~= p.skip(1) + (seq![y] + t));
        assert(a[0] == p[0] && b[0] == p[0]);
    }
}

/// A store is selected exactly if its name holds one of the filters, whatever the
/// case and the white space around the filter.
pub proof fn law_selected(name: Seq<char>, filters: Seq<Seq<char>>)
    ensures
        selected(name, filters) <==> exists|i: int|
            0 <= i < filters.len() && contains(
                lowercase(name),
                lowercase(trim(#[trigger] filters[i])),
            ),
        filters.len() == 0 ==> !selected(name, filters),
{
}

/// The unmatched filter is the first that selects no store; without one, every
/// filter selects a store.
pub proof fn law_unmatched(names: Seq<Seq<char>>, filters: Seq<Seq<char>>, from: int)
    requires
        0 <= from <= filters.len(),
    ensures
        match unmatched(names, filters, from) {
            Some(k) => {
                &&& from <= k < filters.len()
                &&& forall|i: int|
                    0 <= i < names.len() ==> !selected(#[trigger] names[i], seq![filters[k]])
                &&& forall|j: int| from <= j < k ==> #[trigger] matched(names, filters[j])
            },
            None => forall|j: int| from <= j < filters.len() ==> #[trigger] matched(
                names,
                filters[j],
            ),
        },
    decreases filters.len() - from,
{
    if from < filters.len() && matched(names, filters[from]) {
        law_unmatched(names, filters, from + 1);
    }
}

pub open spec fn matched(names: Seq<Seq<char>>, filter: Seq<char>) -> bool {
    exists|i: int| 0 <= i < names.len() && selected(#[trigger] names[i], seq![filter])
}

} // verus!
