//! Text as sequences of characters: searching, trimming, replacing, numbers.

use vstd::prelude::*;
use vstd::utf8::{encode_utf8, encode_utf8_decode_utf8};

verus! {

/// The lowercase form of a text, as `str::to_lowercase` gives it.
pub uninterp spec fn lowercase(s: Seq<char>) -> Seq<char>;

/// `str::to_lowercase`: a function of the text alone.  On ASCII text it replaces
/// the letters `A` to `Z` and nothing else.
pub assume_specification[ str::to_lowercase ](s: &str) -> (lower: String)
    ensures
        lower@ == lowercase(s@),
        all_ascii(s@) ==> lower@ == ascii_lower(s@),
;

/// The uppercase form of a text, as `str::to_uppercase` gives it.
pub uninterp spec fn uppercase(s: Seq<char>) -> Seq<char>;

/// `str::to_uppercase`: a function of the text alone.  On ASCII text it replaces
/// the letters `a` to `z` and nothing else.
pub assume_specification[ str::to_uppercase ](s: &str) -> (upper: String)
    ensures
        upper@ == uppercase(s@),
        all_ascii(s@) ==> upper@ == ascii_upper(s@),
;

/// `String::push` puts a character at the end.
pub assume_specification[ String::push ](s: &mut String, c: char)
    ensures
        final(s)@ == old(s)@.push(c),
;

/// The texts of a list of strings.
pub open spec fn texts(v: Seq<String>) -> Seq<Seq<char>> {
    v.map_values(|s: String| s@)
}

/// Unicode's White_Space property.
pub open spec fn is_white(c: char) -> bool {
    let n = c as u32;
    ||| 0x9 <= n <= 0xd
    ||| n == 0x20
    ||| n == 0x85
    ||| n == 0xa0
    ||| n == 0x1680
    ||| 0x2000 <= n <= 0x200a
    ||| n == 0x2028
    ||| n == 0x2029
    ||| n == 0x202f
    ||| n == 0x205f
    ||| n == 0x3000
}

pub open spec fn is_digit(c: char) -> bool {
    '0' <= c <= '9'
}

pub open spec fn all_ascii(s: Seq<char>) -> bool {
    forall|i: int| 0 <= i < s.len() ==> (#[trigger] s[i] as u32) < 0x80
}

pub open spec fn ascii_lower_char(c: char) -> char {
    if 'A' <= c <= 'Z' {
        ((c as u32) + 0x20) as char
    } else {
        c
    }
}

/// ASCII letters in lowercase, everything else unchanged.
pub open spec fn ascii_lower(s: Seq<char>) -> Seq<char> {
    s.map_values(|c: char| ascii_lower_char(c))
}

pub open spec fn ascii_upper_char(c: char) -> char {
    if 'a' <= c <= 'z' {
        ((c as u32 - 0x20) as u32) as char
    } else {
        c
    }
}

/// ASCII letters in upper case.
pub open spec fn ascii_upper(s: Seq<char>) -> Seq<char> {
    s.map_values(|c: char| ascii_upper_char(c))
}

pub open spec fn trim_start(s: Seq<char>) -> Seq<char>
    decreases s.len(),
{
    if s.len() > 0 && is_white(s[0]) {
        trim_start(s.skip(1))
    } else {
        s
    }
}

pub open spec fn trim_end(s: Seq<char>) -> Seq<char>
    decreases s.len(),
{
    if s.len() > 0 && is_white(s.last()) {
        trim_end(s.drop_last())
    } else {
        s
    }
}

/// Without white space at both ends.
pub open spec fn trim(s: Seq<char>) -> Seq<char> {
    trim_end(trim_start(s))
}

/// `p` stands in `s` at position `i`.
pub open spec fn matches_at(s: Seq<char>, i: int, p: Seq<char>) -> bool {
    &&& 0 <= i
    &&& i + p.len() <= s.len()
    &&& s.subrange(i, i + p.len()) == p
}

pub open spec fn starts_with(s: Seq<char>, p: Seq<char>) -> bool {
    matches_at(s, 0, p)
}

pub open spec fn ends_with(s: Seq<char>, p: Seq<char>) -> bool {
    matches_at(s, s.len() - p.len(), p)
}

/// `p` stands somewhere in `s`.
pub open spec fn contains(s: Seq<char>, p: Seq<char>) -> bool {
    exists|i: int| #[trigger] matches_at(s, i, p)
}

/// Where `p` stands first in `s`, from position `from` on.
pub open spec fn find_from(s: Seq<char>, p: Seq<char>, from: int) -> Option<int>
    decreases s.len() + 1 - from,
{
    if from < 0 || from + p.len() > s.len() {
        None
    } else if matches_at(s, from, p) {
        Some(from)
    } else {
        find_from(s, p, from + 1)
    }
}

/// Every occurrence of `p`, from left to right and without overlap, replaced by `r`.
pub open spec fn replace(s: Seq<char>, p: Seq<char>, r: Seq<char>) -> Seq<char>
    decreases s.len(),
{
    if p.len() == 0 || s.len() < p.len() {
        s
    } else if matches_at(s, 0, p) {
        r + replace(s.skip(p.len() as int), p, r)
    } else {
        seq![s[0]] + replace(s.skip(1), p, r)
    }
}

/// The characters in front of the first one that is not in the class.
pub open spec fn take_while(s: Seq<char>, class: spec_fn(char) -> bool) -> Seq<char>
    decreases s.len(),
{
    if s.len() > 0 && class(s[0]) {
        seq![s[0]] + take_while(s.skip(1), class)
    } else {
        Seq::empty()
    }
}

/// The two sides of the first occurrence of `c`.
pub open spec fn split_once(s: Seq<char>, c: char) -> Option<(Seq<char>, Seq<char>)> {
    match find_from(s, seq![c], 0) {
        Some(i) => Some((s.take(i), s.skip(i + 1))),
        None => None,
    }
}

/// The number that a row of digits stands for.
pub open spec fn digits_value(s: Seq<char>) -> nat
    decreases s.len(),
{
    if s.len() == 0 {
        0
    } else {
        10 * digits_value(s.drop_last()) + (s.last() as u32 - 0x30) as nat
    }
}

pub open spec fn all_digits(s: Seq<char>) -> bool {
    forall|i: int| 0 <= i < s.len() ==> is_digit(#[trigger] s[i])
}

/// A row of digits as a number, if it fits 32 bits.
pub open spec fn parse_digits(s: Seq<char>) -> Option<u32> {
    if s.len() > 0 && all_digits(s) && digits_value(s) <= u32::MAX {
        Some(digits_value(s) as u32)
    } else {
        None
    }
}

/// A decimal number with an optional plus sign, if it fits 32 bits.
pub open spec fn parse_number(s: Seq<char>) -> Option<u32> {
    if s.len() > 0 && s[0] == '+' {
        parse_digits(s.skip(1))
    } else {
        parse_digits(s)
    }
}

/// The same text up to the case of ASCII letters.
pub open spec fn same_ignoring_case(a: Seq<char>, b: Seq<char>) -> bool {
    ascii_lower(a) == ascii_lower(b)
}

/// The characters of a text.
pub fn to_chars(s: &str) -> (v: Vec<char>)
    ensures
        v@ == s@,
{
    let mut v: Vec<char> = Vec::new();
    for c in it: s.chars()
        invariant
            v@ == it.seq().take(it.index() as int),
            it.seq() == s@,
    {
        proof {
            assert(it.seq().take(it.index() + 1) =~= it.seq().take(it.index() as int).push(
                it.seq()[it.index() as int],
            ));
        }
        v.push(c);
    }
    assert(s@.take(s@.len() as int) =~= s@);
    v
}

/// The text of a row of characters.
pub fn from_chars(v: &Vec<char>) -> (s: String)
    ensures
        s@ == v@,
{
    let mut s = String::new();
    let mut i: usize = 0;
    assert(v@.take(0) =~= Seq::empty());
    while i < v.len()
        invariant
            i <= v@.len(),
            s@ == v@.take(i as int),
        decreases v@.len() - i,
    {
        proof {
            assert(v@.take(i + 1) =~= v@.take(i as int).push(v@[i as int]));
        }
        s.push(v[i]);
        i += 1;
    }
    assert(v@.take(i as int) =~= v@);
    s
}

/// The characters from `a` up to `b`.
pub fn slice(v: &Vec<char>, a: usize, b: usize) -> (part: Vec<char>)
    requires
        a <= b <= v@.len(),
    ensures
        part@ == v@.subrange(a as int, b as int),
{
    let mut part: Vec<char> = Vec::new();
    let mut i: usize = a;
    assert(v@.subrange(a as int, a as int) =~= Seq::empty());
    while i < b
        invariant
            a <= i <= b <= v@.len(),
            part@ == v@.subrange(a as int, i as int),
        decreases b - i,
    {
        proof {
            assert(v@.subrange(a as int, i + 1) =~= v@.subrange(a as int, i as int).push(
                v@[i as int],
            ));
        }
        part.push(v[i]);
        i += 1;
    }
    part
}

/// Both texts in a row.
pub fn joined(a: &str, b: &str) -> (s: String)
    ensures
        s@ == a@ + b@,
{
    let mut s = a.to_owned();
    s.append(b);
    s
}

pub fn white(c: char) -> (b: bool)
    ensures
        b == is_white(c),
{
    let n: u32 = c as u32;
    (0x9 <= n && n <= 0xd) || n == 0x20 || n == 0x85 || n == 0xa0 || n == 0x1680 || (0x2000 <= n && n
        <= 0x200a) || n == 0x2028 || n == 0x2029 || n == 0x202f || n == 0x205f || n == 0x3000
}

pub fn digit(c: char) -> (b: bool)
    ensures
        b == is_digit(c),
{
    '0' <= c && c <= '9'
}

/// Without white space at both ends.
pub fn trimmed(v: &Vec<char>) -> (t: Vec<char>)
    ensures
        t@ == trim(v@),
{
    let mut a: usize = 0;
    assert(v@.skip(0) =~= v@);
    while a < v.len() && white(v[a])
        invariant
            a <= v@.len(),
            trim_start(v@) == trim_start(v@.skip(a as int)),
        decreases v@.len() - a,
    {
        proof {
            let s = v@.skip(a as int);
            assert(s[0] == v@[a as int]);
            assert(s.skip(1) =~= v@.skip(a + 1));
        }
        a += 1;
    }
    let ghost s = v@.skip(a as int);
    proof {
        if a < v@.len() {
            assert(s[0] == v@[a as int]);
        }
        assert(trim_start(s) == s);
        assert(v@.subrange(a as int, v@.len() as int) =~= s);
    }
    let mut b: usize = v.len();
    while b > a && white(v[b - 1])
        invariant
            a <= b <= v@.len(),
            trim_end(s) == trim_end(v@.subrange(a as int, b as int)),
        decreases b,
    {
        proof {
            let t = v@.subrange(a as int, b as int);
            assert(t.last() == v@[b - 1]);
            assert(t.drop_last() =~= v@.subrange(a as int, b - 1));
        }
        b -= 1;
    }
    proof {
        let t = v@.subrange(a as int, b as int);
        if b > a {
            assert(t.last() == v@[b - 1]);
        }
        assert(trim_end(t) == t);
    }
    slice(v, a, b)
}

/// Does `p` stand in `v` at position `i`?
pub fn matches(v: &Vec<char>, i: usize, p: &Vec<char>) -> (b: bool)
    requires
        i <= v@.len(),
    ensures
        b == matches_at(v@, i as int, p@),
{
    if v.len() - i < p.len() {
        return false;
    }
    let mut k: usize = 0;
    while k < p.len()
        invariant
            i + p.len() <= v.len(),
            k <= p@.len(),
            forall|j: int| 0 <= j < k ==> v@[i + j] == #[trigger] p@[j],
        decreases p@.len() - k,
    {
        if v[i + k] != p[k] {
            proof {
                if matches_at(v@, i as int, p@) {
                    assert(v@.subrange(i as int, i + p@.len())[k as int] == p@[k as int]);
                }
            }
            return false;
        }
        k += 1;
    }
    assert(v@.subrange(i as int, i + p@.len()) =~= p@);
    true
}

/// Where `p` stands first in `v`.
pub fn position(v: &Vec<char>, p: &Vec<char>) -> (at: Option<usize>)
    ensures
        match find_from(v@, p@, 0) {
            Some(i) => at == Some(i as usize) && 0 <= i && i + p@.len() <= v@.len() && matches_at(
                v@,
                i,
                p@,
            ),
            None => at is None,
        },
        at is Some <==> contains(v@, p@),
{
    let mut i: usize = 0;
    while i <= v.len()
        invariant
            i <= v@.len() + 1,
            find_from(v@, p@, 0) == find_from(v@, p@, i as int),
            forall|j: int| j < i ==> !#[trigger] matches_at(v@, j, p@),
        decreases v@.len() + 1 - i,
    {
        if v.len() - i < p.len() {
            assert(forall|j: int| !#[trigger] matches_at(v@, j, p@));
            return None;
        }
        if matches(v, i, p) {
            return Some(i);
        }
        if i == v.len() {
            assert(find_from(v@, p@, i + 1) is None);
            return None;
        }
        i += 1;
    }
    None
}

/// Does `p` stand somewhere in `s`?
pub fn has(s: &str, p: &str) -> (b: bool)
    ensures
        b == contains(s@, p@),
{
    position(&to_chars(s), &to_chars(p)).is_some()
}

/// Does `s` start with `p`?
pub fn begins(s: &str, p: &str) -> (b: bool)
    ensures
        b == starts_with(s@, p@),
{
    matches(&to_chars(s), 0, &to_chars(p))
}

/// What follows `p`, if `s` starts with it.
pub fn after_prefix(s: &str, p: &str) -> (rest: Option<String>)
    ensures
        starts_with(s@, p@) ==> (rest matches Some(r) && r@ == s@.skip(p@.len() as int)),
        !starts_with(s@, p@) ==> rest is None,
{
    let v = to_chars(s);
    let q = to_chars(p);
    if matches(&v, 0, &q) {
        let part = slice(&v, q.len(), v.len());
        assert(part@ =~= s@.skip(p@.len() as int));
        Some(from_chars(&part))
    } else {
        None
    }
}

/// What precedes `p`, if `s` ends with it.
pub fn before_suffix(s: &str, p: &str) -> (rest: Option<String>)
    ensures
        ends_with(s@, p@) ==> (rest matches Some(r) && r@ == s@.take(s@.len() - p@.len())),
        !ends_with(s@, p@) ==> rest is None,
{
    let v = to_chars(s);
    let q = to_chars(p);
    if v.len() < q.len() {
        return None;
    }
    let cut: usize = v.len() - q.len();
    if matches(&v, cut, &q) {
        let part = slice(&v, 0, cut);
        assert(part@ =~= s@.take(s@.len() - p@.len()));
        Some(from_chars(&part))
    } else {
        None
    }
}

/// Every occurrence of `p` in `v` replaced by `r`.
pub fn replaced(v: &Vec<char>, p: &Vec<char>, r: &Vec<char>) -> (out: Vec<char>)
    requires
        p@.len() > 0,
    ensures
        out@ == replace(v@, p@, r@),
{
    let mut out: Vec<char> = Vec::new();
    let mut i: usize = 0;
    assert(v@.skip(0) =~= v@);
    assert(out@ + replace(v@, p@, r@) =~= replace(v@, p@, r@));
    while i < v.len()
        invariant
            p@.len() > 0,
            i <= v@.len(),
            replace(v@, p@, r@) == out@ + replace(v@.skip(i as int), p@, r@),
        decreases v@.len() - i,
    {
        let ghost s = v@.skip(i as int);
        let ghost before = out@;
        let hit = matches(v, i, p);
        proof {
            assert(hit == matches_at(s, 0, p@)) by {
                if i + p@.len() <= v@.len() {
                    assert(s.subrange(0, p@.len() as int) =~= v@.subrange(i as int, i + p@.len()));
                }
            }
        }
        if hit {
            let mut k: usize = 0;
            assert(before + r@.take(0) =~= before);
            while k < r.len()
                invariant
                    k <= r@.len(),
                    out@ == before + r@.take(k as int),
                decreases r@.len() - k,
            {
                proof {
                    assert(before + r@.take(k + 1) =~= (before + r@.take(k as int)).push(
                        r@[k as int],
                    ));
                }
                out.push(r[k]);
                k += 1;
            }
            proof {
                assert(r@.take(k as int) =~= r@);
                assert(s.skip(p@.len() as int) =~= v@.skip(i + p@.len()));
                assert(before + (r@ + replace(v@.skip(i + p@.len()), p@, r@)) =~= out@ + replace(
                    v@.skip(i + p@.len()),
                    p@,
                    r@,
                ));
            }
            i = i + p.len();
        } else {
            out.push(v[i]);
            proof {
                assert(s[0] == v@[i as int]);
                assert(s.skip(1) =~= v@.skip(i + 1));
                if s.len() < p@.len() {
                    assert(replace(s, p@, r@) == s);
                    assert(replace(s.skip(1), p@, r@) == s.skip(1));
                    assert(s =~= seq![s[0]] + s.skip(1));
                }
                assert(before + (seq![s[0]] + replace(v@.skip(i + 1), p@, r@)) =~= out@ + replace(
                    v@.skip(i + 1),
                    p@,
                    r@,
                ));
            }
            i += 1;
        }
    }
    proof {
        assert(v@.skip(i as int) =~= Seq::empty());
        assert(replace(v@.skip(i as int), p@, r@) =~= Seq::empty());
        assert(out@ + Seq::empty() =~= out@);
    }
    out
}

/// Every occurrence of `p` in `s` replaced by `r`.
pub fn replace_all(s: &str, p: &str, r: &str) -> (out: String)
    requires
        p@.len() > 0,
    ensures
        out@ == replace(s@, p@, r@),
{
    from_chars(&replaced(&to_chars(s), &to_chars(p), &to_chars(r)))
}

/// The two sides of the first occurrence of `c`.
pub fn split_at_first(v: &Vec<char>, c: char) -> (sides: Option<(Vec<char>, Vec<char>)>)
    ensures
        match split_once(v@, c) {
            Some((l, r)) => sides matches Some((a, b)) && a@ == l && b@ == r,
            None => sides is None,
        },
        sides is Some ==> contains(v@, seq![c]),
{
    let mut one: Vec<char> = Vec::new();
    one.push(c);
    assert(one@ =~= seq![c]);
    match position(v, &one) {
        Some(i) => {
            assert(i < v.len());
            let a = slice(v, 0, i);
            let b = slice(v, i + 1, v.len());
            assert(a@ =~= v@.take(i as int));
            assert(b@ =~= v@.skip(i + 1));
            Some((a, b))
        },
        None => None,
    }
}

/// Entries of a longer row of digits.
proof fn lemma_digits_push(s: Seq<char>, c: char)
    ensures
        digits_value(s.push(c)) == 10 * digits_value(s) + (c as u32 - 0x30) as nat,
{
    assert(s.push(c).drop_last() =~= s);
}

/// A longer row of digits never stands for a smaller number.
proof fn lemma_digits_grow(s: Seq<char>, k: int)
    requires
        0 <= k <= s.len(),
        all_digits(s),
    ensures
        digits_value(s.take(k)) <= digits_value(s),
    decreases s.len() - k,
{
    if k < s.len() {
        let t = s.take(k + 1);
        assert(t.drop_last() =~= s.take(k));
        assert(is_digit(s[k]));
        assert(digits_value(s.take(k)) <= digits_value(t));
        lemma_digits_grow(s, k + 1);
    } else {
        assert(s.take(k) =~= s);
    }
}

/// The number that the text stands for, if it is one and fits.
pub fn parse_u32(v: &Vec<char>) -> (n: Option<u32>)
    ensures
        n == parse_number(v@),
{
    if v.len() > 0 && v[0] == '+' {
        let digits = slice(v, 1, v.len());
        assert(digits@ =~= v@.skip(1));
        parse_row(&digits)
    } else {
        parse_row(v)
    }
}

/// The number that a row of digits stands for, if it is one and fits.
fn parse_row(digits: &Vec<char>) -> (n: Option<u32>)
    ensures
        n == parse_digits(digits@),
{
    if digits.len() == 0 {
        return None;
    }
    let mut i: usize = 0;
    while i < digits.len()
        invariant
            i <= digits@.len(),
            forall|k: int| 0 <= k < i ==> is_digit(#[trigger] digits@[k]),
        decreases digits@.len() - i,
    {
        if !digit(digits[i]) {
            assert(!is_digit(digits@[i as int]));
            return None;
        }
        i += 1;
    }
    let mut value: u64 = 0;
    let mut k: usize = 0;
    assert(digits@.take(0) =~= Seq::empty());
    while k < digits.len()
        invariant
            k <= digits@.len(),
            all_digits(digits@),
            value == digits_value(digits@.take(k as int)),
            value <= u32::MAX,
        decreases digits@.len() - k,
    {
        let c: char = digits[k];
        proof {
            assert(is_digit(digits@[k as int]));
            assert(digits@.take(k + 1) =~= digits@.take(k as int).push(c));
            lemma_digits_push(digits@.take(k as int), c);
        }
        value = value * 10 + (c as u32 - 0x30) as u64;
        if value > u32::MAX as u64 {
            proof {
                lemma_digits_grow(digits@, k + 1);
            }
            return None;
        }
        k += 1;
    }
    assert(digits@.take(k as int) =~= digits@);
    Some(value as u32)
}

/// The digits of a text, in order.
pub fn keep_digits(v: &Vec<char>) -> (out: Vec<char>)
    ensures
        out@ == v@.filter(|c: char| is_digit(c)),
{
    let ghost class = |c: char| is_digit(c);
    let mut out: Vec<char> = Vec::new();
    let mut i: usize = 0;
    proof {
        assert(v@.take(0) =~= Seq::empty());
        reveal(Seq::filter);
    }
    while i < v.len()
        invariant
            class == (|c: char| is_digit(c)),
            i <= v@.len(),
            out@ == v@.take(i as int).filter(class),
        decreases v@.len() - i,
    {
        proof {
            reveal(Seq::filter);
            let t = v@.take(i + 1);
            assert(t.drop_last() =~= v@.take(i as int));
            assert(t.last() == v@[i as int]);
        }
        if digit(v[i]) {
            out.push(v[i]);
        }
        i += 1;
    }
    assert(v@.take(i as int) =~= v@);
    out
}

/// Digits, and the separators given.
pub open spec fn number_class(comma: bool, dot: bool) -> spec_fn(char) -> bool {
    |c: char| is_digit(c) || (comma && c == ',') || (dot && c == '.')
}

/// The leading digits and separators of a text.
pub fn number_prefix(v: &Vec<char>, comma: bool, dot: bool) -> (out: Vec<char>)
    ensures
        out@ == take_while(v@, number_class(comma, dot)),
{
    let ghost class = number_class(comma, dot);
    let mut i: usize = 0;
    assert(v@.skip(0) =~= v@);
    assert(v@.subrange(0, 0) + take_while(v@, class) =~= take_while(v@, class));
    while i < v.len() && (digit(v[i]) || (comma && v[i] == ',') || (dot && v[i] == '.'))
        invariant
            class == number_class(comma, dot),
            i <= v@.len(),
            take_while(v@, class) == v@.subrange(0, i as int) + take_while(
                v@.skip(i as int),
                class,
            ),
        decreases v@.len() - i,
    {
        proof {
            let s = v@.skip(i as int);
            assert(s[0] == v@[i as int]);
            assert(s.skip(1) =~= v@.skip(i + 1));
            assert(v@.subrange(0, i as int) + (seq![s[0]] + take_while(v@.skip(i + 1), class))
                =~= v@.subrange(0, i + 1) + take_while(v@.skip(i + 1), class));
        }
        i += 1;
    }
    proof {
        let s = v@.skip(i as int);
        if i < v@.len() {
            assert(s[0] == v@[i as int]);
        }
        assert(take_while(s, class) =~= Seq::empty());
        assert(v@.subrange(0, i as int) + take_while(s, class) =~= v@.subrange(0, i as int));
    }
    slice(v, 0, i)
}

/// Not white space.
pub open spec fn word_class() -> spec_fn(char) -> bool {
    |c: char| !is_white(c)
}

/// The characters in front of the first white space.
pub fn first_word(v: &Vec<char>) -> (out: Vec<char>)
    ensures
        out@ == take_while(v@, word_class()),
{
    let ghost class = word_class();
    let mut i: usize = 0;
    assert(v@.skip(0) =~= v@);
    assert(v@.subrange(0, 0) + take_while(v@, class) =~= take_while(v@, class));
    while i < v.len() && !white(v[i])
        invariant
            class == word_class(),
            i <= v@.len(),
            take_while(v@, class) == v@.subrange(0, i as int) + take_while(
                v@.skip(i as int),
                class,
            ),
        decreases v@.len() - i,
    {
        proof {
            let s = v@.skip(i as int);
            assert(s[0] == v@[i as int]);
            assert(s.skip(1) =~= v@.skip(i + 1));
            assert(v@.subrange(0, i as int) + (seq![s[0]] + take_while(v@.skip(i + 1), class))
                =~= v@.subrange(0, i + 1) + take_while(v@.skip(i + 1), class));
        }
        i += 1;
    }
    proof {
        let s = v@.skip(i as int);
        if i < v@.len() {
            assert(s[0] == v@[i as int]);
        }
        assert(take_while(s, class) =~= Seq::empty());
        assert(v@.subrange(0, i as int) + take_while(s, class) =~= v@.subrange(0, i as int));
    }
    slice(v, 0, i)
}

/// Without trailing occurrences of `c`.
pub open spec fn trim_end_char(s: Seq<char>, c: char) -> Seq<char>
    decreases s.len(),
{
    if s.len() > 0 && s.last() == c {
        trim_end_char(s.drop_last(), c)
    } else {
        s
    }
}

/// Without trailing occurrences of `c`.
pub fn without_trailing(v: Vec<char>, c: char) -> (out: Vec<char>)
    ensures
        out@ == trim_end_char(v@, c),
{
    let mut out = v;
    while out.len() > 0 && out[out.len() - 1] == c
        invariant
            trim_end_char(v@, c) == trim_end_char(out@, c),
        decreases out@.len(),
    {
        let ghost before = out@;
        out.pop();
        assert(out@ =~= before.drop_last());
    }
    out
}

/// The text from its first digit on, if it has one.
pub open spec fn from_first_digit(s: Seq<char>) -> Option<Seq<char>>
    decreases s.len(),
{
    if s.len() == 0 {
        None
    } else if is_digit(s[0]) {
        Some(s)
    } else {
        from_first_digit(s.skip(1))
    }
}

/// The text from its first digit on, if it has one.
pub fn skip_to_digit(v: &Vec<char>) -> (out: Option<Vec<char>>)
    ensures
        match from_first_digit(v@) {
            Some(s) => out matches Some(o) && o@ == s,
            None => out is None,
        },
{
    let mut i: usize = 0;
    assert(v@.skip(0) =~= v@);
    while i < v.len()
        invariant
            i <= v@.len(),
            from_first_digit(v@) == from_first_digit(v@.skip(i as int)),
        decreases v@.len() - i,
    {
        let ghost s = v@.skip(i as int);
        assert(s[0] == v@[i as int]);
        if digit(v[i]) {
            let out = slice(v, i, v.len());
            assert(out@ =~= s);
            return Some(out);
        }
        assert(s.skip(1) =~= v@.skip(i + 1));
        i += 1;
    }
    assert(v@.skip(i as int) =~= Seq::empty());
    None
}

fn lower_char(c: char) -> (l: char)
    ensures
        l == ascii_lower_char(c),
{
    if 'A' <= c && c <= 'Z' {
        ((c as u8) + 0x20) as char
    } else {
        c
    }
}

/// Are the texts the same up to the case of ASCII letters?
pub fn eq_ignore_ascii_case(a: &str, b: &str) -> (same: bool)
    ensures
        same == same_ignoring_case(a@, b@),
{
    let v = to_chars(a);
    let w = to_chars(b);
    if v.len() != w.len() {
        assert(ascii_lower(a@).len() != ascii_lower(b@).len());
        return false;
    }
    let mut i: usize = 0;
    while i < v.len()
        invariant
            v@ == a@,
            w@ == b@,
            v@.len() == w@.len(),
            i <= v@.len(),
            forall|k: int|
                0 <= k < i ==> ascii_lower_char(#[trigger] v@[k]) == ascii_lower_char(w@[k]),
        decreases v@.len() - i,
    {
        if lower_char(v[i]) != lower_char(w[i]) {
            assert(ascii_lower(v@)[i as int] != ascii_lower(w@)[i as int]);
            return false;
        }
        i += 1;
    }
    assert(ascii_lower(v@) =~= ascii_lower(w@));
    true
}

/// Are the texts the same?
pub fn same_text(a: &str, b: &str) -> (same: bool)
    ensures
        same == (a@ == b@),
{
    let x = a.as_bytes();
    let y = b.as_bytes();
    if x.len() != y.len() {
        return false;
    }
    let mut i: usize = 0;
    while i < x.len()
        invariant
            x@ == encode_utf8(a@),
            y@ == encode_utf8(b@),
            x@.len() == y@.len(),
            i <= x@.len(),
            forall|k: int| 0 <= k < i ==> x@[k] == y@[k],
        decreases x@.len() - i,
    {
        if x[i] != y[i] {
            return false;
        }
        i += 1;
    }
    proof {
        assert(x@ =~= y@);
        encode_utf8_decode_utf8(a@);
        encode_utf8_decode_utf8(b@);
    }
    true
}

/// The number of bytes of a text in UTF-8.
pub open spec fn byte_len(s: Seq<char>) -> nat {
    encode_utf8(s).len()
}

/// The number of bytes of a text in UTF-8.
pub fn byte_length(s: &str) -> (n: usize)
    ensures
        n == byte_len(s@),
{
    s.as_bytes().len()
}

/// The decimal digits of a number.
pub open spec fn decimal(n: nat) -> Seq<char>
    decreases n,
{
    if n < 10 {
        seq![digit_char(n)]
    } else {
        decimal(n / 10).push(digit_char(n % 10))
    }
}

pub open spec fn digit_char(d: nat) -> char {
    ((0x30 + d) as u32) as char
}

/// The number in decimal.
pub fn decimal_text(n: u64) -> (s: String)
    ensures
        s@ == decimal(n as nat),
    decreases n,
{
    let d: char = (0x30 + (n % 10) as u8) as char;
    assert(d == digit_char((n % 10) as nat));
    let mut s: String = if n < 10 {
        String::new()
    } else {
        decimal_text(n / 10)
    };
    s.push(d);
    assert(n < 10 ==> s@ =~= seq![d]);
    s
}

} // verus!
