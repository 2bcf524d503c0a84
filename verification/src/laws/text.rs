//! What the operations on texts do.

use crate::stores::printed::{lemma_decimal, lemma_parse};
use crate::text::{
    ascii_lower, ascii_lower_char, contains, decimal, ends_with, find_from, is_digit, is_white,
    matches_at, parse_number, replace, same_ignoring_case, split_once, starts_with, trim, trim_end,
    trim_start,
};
use vstd::prelude::*;

verus! {

pub open spec fn all_white(s: Seq<char>) -> bool {
    forall|i: int| 0 <= i < s.len() ==> is_white(#[trigger] s[i])
}

proof fn lemma_trim_start(s: Seq<char>) -> (a: Seq<char>)
    ensures
        all_white(a),
        s == a + trim_start(s),
        trim_start(s).len() > 0 ==> !is_white(trim_start(s)[0]),
    decreases s.len(),
{
    if s.len() > 0 && is_white(s[0]) {
        let rest = lemma_trim_start(s.skip(1));
        let a = seq![s[0]] + rest;
        assert forall|i: int| 0 <= i < a.len() implies is_white(#[trigger] a[i]) by {
            if i > 0 {
                assert(a[i] == rest[i - 1]);
            }
        }
        assert(s =~= seq![s[0]] + s.skip(1));
        assert(s =~= a + trim_start(s));
        a
    } else {
        let none = Seq::<char>::empty();
        assert(none + s =~= s);
        none
    }
}

proof fn lemma_trim_end(s: Seq<char>) -> (b: Seq<char>)
    ensures
        all_white(b),
        s == trim_end(s) + b,
        trim_end(s).len() > 0 ==> !is_white(trim_end(s).last()) && trim_end(s)[0] == s[0],
    decreases s.len(),
{
    if s.len() > 0 && is_white(s.last()) {
        let rest = lemma_trim_end(s.drop_last());
        let b = rest.push(s.last());
        assert(s =~= s.drop_last().push(s.last()));
        assert(s =~= trim_end(s) + b);
        b
    } else {
        let none = Seq::<char>::empty();
        assert(s + none =~= s);
        none
    }
}

/// Trimming takes white space off both ends and nothing else: the rest starts and
/// ends with other characters.
pub proof fn law_trim(s: Seq<char>) -> (ends: (Seq<char>, Seq<char>))
    ensures
        s == ends.0 + trim(s) + ends.1,
        all_white(ends.0),
        all_white(ends.1),
        trim(s).len() > 0 ==> !is_white(trim(s)[0]) && !is_white(trim(s).last()),
{
    let a = lemma_trim_start(s);
    let b = lemma_trim_end(trim_start(s));
    assert(s =~= a + trim(s) + b);
    (a, b)
}

/// A text starts with exactly the texts that it continues.
pub proof fn law_starts_with(s: Seq<char>, p: Seq<char>, rest: Seq<char>)
    ensures
        starts_with(p + rest, p),
        starts_with(s, p) ==> s == p + s.skip(p.len() as int),
{
    assert((p + rest).subrange(0, p.len() as int) =~= p);
    if starts_with(s, p) {
        assert(s =~= s.subrange(0, p.len() as int) + s.skip(p.len() as int));
    }
}

/// A text ends with exactly the texts that something leads up to.
pub proof fn law_ends_with(s: Seq<char>, p: Seq<char>, front: Seq<char>)
    ensures
        ends_with(front + p, p),
        ends_with(s, p) ==> s == s.take(s.len() - p.len()) + p,
{
    let t = front + p;
    assert(t.subrange(t.len() - p.len(), t.len() as int) =~= p);
    if ends_with(s, p) {
        assert(s =~= s.take(s.len() - p.len()) + s.subrange(s.len() - p.len(), s.len() as int));
    }
}

/// A text holds exactly the texts that stand between two parts of it.
pub proof fn law_contains(s: Seq<char>, p: Seq<char>, a: Seq<char>, b: Seq<char>)
    ensures
        contains(a + p + b, p),
        contains(s, p) ==> exists|i: int|
            0 <= i && i + p.len() <= s.len() && s == s.take(i) + p + #[trigger] s.skip(
                i + p.len(),
            ),
{
    let t = a + p + b;
    assert(t.subrange(a.len() as int, a.len() as int + p.len()) =~= p);
    assert(matches_at(t, a.len() as int, p));
    if contains(s, p) {
        let i = choose|i: int| #[trigger] matches_at(s, i, p);
        assert(s =~= s.take(i) + s.subrange(i, i + p.len()) + s.skip(i + p.len()));
    }
}

proof fn lemma_find_char(s: Seq<char>, c: char, from: int)
    requires
        0 <= from <= s.len(),
    ensures
        match find_from(s, seq![c], from) {
            Some(i) => from <= i < s.len() && s[i] == c && forall|k: int|
                from <= k < i ==> #[trigger] s[k] != c,
            None => forall|k: int| from <= k < s.len() ==> #[trigger] s[k] != c,
        },
    decreases s.len() - from,
{
    if from < s.len() {
        let one = s.subrange(from, from + 1);
        if s[from] == c {
            assert(one =~= seq![c]);
        } else {
            assert(one[0] == s[from]);
            assert(!matches_at(s, from, seq![c]));
            lemma_find_char(s, c, from + 1);
        }
    }
}

/// Splitting gives the two sides of the first occurrence, and nothing only where
/// there is none.
pub proof fn law_split_once(s: Seq<char>, c: char)
    ensures
        match split_once(s, c) {
            Some((a, b)) => s == a.push(c) + b && !a.contains(c),
            None => !s.contains(c),
        },
{
    lemma_find_char(s, c, 0);
    if let Some((a, b)) = split_once(s, c) {
        assert(s =~= a.push(c) + b);
        if a.contains(c) {
            let i = choose|i: int| 0 <= i < a.len() && a[i] == c;
            assert(s[i] == c);
        }
    }
}

/// Replacing one character goes character by character.
pub proof fn law_replace_char(a: Seq<char>, b: Seq<char>, c: char, d: char, r: Seq<char>)
    ensures
        replace(a + b, seq![c], r) == replace(a, seq![c], r) + replace(b, seq![c], r),
        replace(seq![c], seq![c], r) == r,
        d != c ==> replace(seq![d], seq![c], r) == seq![d],
    decreases a.len(),
{
    let p = seq![c];
    let none = Seq::<char>::empty();
    assert(replace(none, p, r) =~= none);
    assert(p.subrange(0, 1) =~= p);
    assert(p.skip(1) =~= none);
    assert(r + none =~= r);
    let one = seq![d];
    assert(one.subrange(0, 1)[0] == d);
    assert(one.skip(1) =~= none);
    assert(one + none =~= one);
    if a.len() == 0 {
        assert(a + b =~= b);
        assert(replace(a, p, r) =~= none);
        assert(none + replace(b, p, r) =~= replace(b, p, r));
    } else {
        law_replace_char(a.skip(1), b, c, d, r);
        let s = a + b;
        assert(s.skip(1) =~= a.skip(1) + b);
        assert(s.subrange(0, 1) =~= a.subrange(0, 1));
        assert(s[0] == a[0]);
        let x = replace(a.skip(1), p, r);
        let y = replace(b, p, r);
        assert(r + (x + y) =~= r + x + y);
        assert(seq![s[0]] + (x + y) =~= seq![a[0]] + x + y);
    }
}

/// Replacing a text replaces its first occurrence and goes on behind it; a text
/// without an occurrence stays.
pub proof fn law_replace(a: Seq<char>, p: Seq<char>, b: Seq<char>, r: Seq<char>)
    requires
        p.len() > 0,
        forall|i: int| 0 <= i < a.len() ==> #[trigger] a[i] != p[0],
    ensures
        replace(a + p + b, p, r) == a + r + replace(b, p, r),
        replace(a, p, r) == a,
    decreases a.len(),
{
    let s = a + p + b;
    let tail = replace(b, p, r);
    if a.len() == 0 {
        assert(s.subrange(0, p.len() as int) =~= p);
        assert(s.skip(p.len() as int) =~= b);
        assert(a + r + tail =~= r + tail);
    } else {
        let rest = a.skip(1);
        assert forall|i: int| 0 <= i < rest.len() implies #[trigger] rest[i] != p[0] by {
            assert(rest[i] == a[i + 1]);
        }
        law_replace(rest, p, b, r);
        assert(s.subrange(0, p.len() as int)[0] == a[0]);
        assert(s.skip(1) =~= rest + p + b);
        assert(seq![a[0]] + (rest + r + tail) =~= a + r + tail);
        if a.len() >= p.len() {
            assert(a.subrange(0, p.len() as int)[0] == a[0]);
        }
        assert(seq![a[0]] + rest =~= a);
    }
}

/// A number in decimal is parsed as itself, with or without a plus sign; a text that
/// is empty or holds anything else than digits is no number.
pub proof fn law_parse_number(n: nat, s: Seq<char>)
    ensures
        n <= 0xffff_ffff ==> parse_number(decimal(n)) == Some(n as u32) && parse_number(
            seq!['+'] + decimal(n),
        ) == Some(n as u32),
        n > 0xffff_ffff ==> parse_number(decimal(n)) is None,
        parse_number(Seq::empty()) is None,
        (exists|i: int|
            0 <= i < s.len() && !('0' <= #[trigger] s[i] <= '9') && (i > 0 || s[i] != '+'))
            ==> parse_number(s) is None,
{
    lemma_decimal(n);
    let d = decimal(n);
    assert(is_digit(d[0]));
    if n <= 0xffff_ffff {
        lemma_parse(d);
        assert((seq!['+'] + d).skip(1) =~= d);
    }
    if exists|i: int|
        0 <= i < s.len() && !('0' <= #[trigger] s[i] <= '9') && (i > 0 || s[i] != '+') {
        let i = choose|i: int|
            0 <= i < s.len() && !('0' <= #[trigger] s[i] <= '9') && (i > 0 || s[i] != '+');
        assert(!is_digit(s[i]));
        if s[0] == '+' {
            assert(s.skip(1)[i - 1] == s[i]);
        }
    }
}

/// Two texts are the same up to case exactly if they are as long and every two
/// characters are the same or the two cases of one letter.
pub proof fn law_same_ignoring_case(a: Seq<char>, b: Seq<char>)
    ensures
        same_ignoring_case(a, b) <==> a.len() == b.len() && forall|i: int|
            0 <= i < a.len() ==> same_letter(#[trigger] a[i], b[i]),
{
    let x = ascii_lower(a);
    let y = ascii_lower(b);
    assert(x.len() == a.len() && y.len() == b.len());
    if same_ignoring_case(a, b) {
        assert forall|i: int| 0 <= i < a.len() implies same_letter(#[trigger] a[i], b[i]) by {
            assert(x[i] == y[i]);
            lemma_lower(a[i], b[i]);
        }
    }
    if a.len() == b.len() && forall|i: int|
        0 <= i < a.len() ==> same_letter(#[trigger] a[i], b[i]) {
        assert forall|i: int| 0 <= i < a.len() implies x[i] == y[i] by {
            assert(same_letter(a[i], b[i]));
            lemma_lower(a[i], b[i]);
        }
        assert(x =~= y);
    }
}

pub open spec fn same_letter(a: char, b: char) -> bool {
    ||| a == b
    ||| 'A' <= a <= 'Z' && b as u32 == a as u32 + 32
    ||| 'A' <= b <= 'Z' && a as u32 == b as u32 + 32
}

proof fn lemma_lower(a: char, b: char)
    ensures
        ascii_lower_char(a) == ascii_lower_char(b) <==> same_letter(a, b),
{
    assert('A' <= a <= 'Z' ==> ascii_lower_char(a) as u32 == a as u32 + 32);
    assert('A' <= b <= 'Z' ==> ascii_lower_char(b) as u32 == b as u32 + 32);
}

} // verus!
