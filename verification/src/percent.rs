//! Text in the queries of addresses.

use crate::text::to_chars;
use vstd::prelude::*;
use vstd::utf8::{
    decode_utf8, encode_scalar, encode_utf8, encode_utf8_decode_utf8, is_ascii_chars_encode_utf8,
};

verus! {

/// Hexadecimal digits in capitals.
pub open spec fn hex_digit(n: int) -> char {
    if n < 10 {
        ((0x30 + n) as u32) as char
    } else {
        ((0x37 + n) as u32) as char
    }
}

/// A byte as a percent sign and two hexadecimal digits.
pub open spec fn percent_byte(b: int) -> Seq<char> {
    seq!['%', hex_digit(b / 16), hex_digit(b % 16)]
}

/// Characters that stay as they are in a query.
pub open spec fn unreserved(c: char) -> bool {
    'A' <= c <= 'Z' || 'a' <= c <= 'z' || '0' <= c <= '9' || c == '-' || c == '_' || c == '.' || c
        == '~'
}

/// Bytes, each as a percent sign and two hexadecimal digits.
pub open spec fn percent_bytes(bytes: Seq<u8>) -> Seq<char>
    decreases bytes.len(),
{
    if bytes.len() == 0 {
        Seq::empty()
    } else {
        percent_bytes(bytes.drop_last()) + percent_byte(bytes.last() as int)
    }
}

/// A text in a query: letters, digits and `-_.~` stay, every other character
/// becomes its bytes in percent form.
pub open spec fn url_encoded(s: Seq<char>) -> Seq<char>
    decreases s.len(),
{
    if s.len() == 0 {
        Seq::empty()
    } else {
        let rest = url_encoded(s.drop_last());
        if unreserved(s.last()) {
            rest.push(s.last())
        } else {
            rest + percent_bytes(encode_utf8(seq![s.last()]))
        }
    }
}

/// A hexadecimal digit in capitals.
pub fn hex_char(n: u8) -> (c: char)
    requires
        n < 16,
    ensures
        c == hex_digit(n as int),
{
    if n < 10 {
        (0x30 + n) as char
    } else {
        (0x37 + n) as char
    }
}

/// Does the character stay as it is in a query?
pub fn is_unreserved(c: char) -> (b: bool)
    ensures
        b == unreserved(c),
{
    ('A' <= c && c <= 'Z') || ('a' <= c && c <= 'z') || ('0' <= c && c <= '9') || c == '-' || c
        == '_' || c == '.' || c == '~'
}

/// Appends a byte as a percent sign and two hexadecimal digits.
pub fn push_percent(out: &mut String, b: u8)
    ensures
        final(out)@ == old(out)@ + percent_byte(b as int),
{
    out.push('%');
    out.push(hex_char(b / 16));
    out.push(hex_char(b % 16));
    assert(out@ =~= old(out)@ + percent_byte(b as int));
}

/// A text in a query.
pub fn urlencoding(s: &str) -> (out: String)
    ensures
        out@ == url_encoded(s@),
{
    let v = to_chars(s);
    let mut out = String::new();
    let mut i: usize = 0;
    assert(v@.take(0) =~= Seq::empty());
    while i < v.len()
        invariant
            v@ == s@,
            i <= v@.len(),
            out@ == url_encoded(v@.take(i as int)),
        decreases v@.len() - i,
    {
        proof {
            let t = v@.take(i + 1);
            assert(t.drop_last() =~= v@.take(i as int));
            assert(t.last() == v@[i as int]);
        }
        let c: char = v[i];
        if is_unreserved(c) {
            out.push(c);
        } else {
            let ghost before = out@;
            let mut one = String::new();
            one.push(c);
            assert(one@ =~= seq![c]);
            let bytes = one.as_str().as_bytes();
            let mut k: usize = 0;
            assert(bytes@.take(0) =~= Seq::empty());
            assert(before + percent_bytes(bytes@.take(0)) =~= before);
            while k < bytes.len()
                invariant
                    k <= bytes@.len(),
                    out@ == before + percent_bytes(bytes@.take(k as int)),
                decreases bytes@.len() - k,
            {
                proof {
                    let t = bytes@.take(k + 1);
                    assert(t.drop_last() =~= bytes@.take(k as int));
                    assert(t.last() == bytes@[k as int]);
                }
                push_percent(&mut out, bytes[k]);
                assert(out@ =~= before + percent_bytes(bytes@.take(k + 1)));
                k += 1;
            }
            assert(bytes@.take(k as int) =~= bytes@);
        }
        i += 1;
    }
    assert(v@.take(i as int) =~= v@);
    out
}

/// A hexadecimal digit in capitals.
pub open spec fn upper_hex(c: char) -> bool {
    '0' <= c <= '9' || 'A' <= c <= 'F'
}

/// What a hexadecimal digit in capitals stands for.
pub open spec fn hex_value(c: char) -> int {
    if c <= '9' {
        c as int - 0x30
    } else {
        c as int - 0x37
    }
}

/// The bytes that a text in a query stands for.
pub open spec fn percent_decoded(e: Seq<char>) -> Seq<u8>
    decreases e.len(),
{
    if e.len() == 0 {
        Seq::empty()
    } else if e[0] == '%' && e.len() >= 3 {
        seq![(16 * hex_value(e[1]) + hex_value(e[2])) as u8] + percent_decoded(e.skip(3))
    } else {
        seq![e[0] as u8] + percent_decoded(e.skip(1))
    }
}

/// The character may stand in a query, and a percent sign starts a byte.
pub open spec fn query_safe_at(e: Seq<char>, i: int) -> bool {
    &&& unreserved(e[i]) || e[i] == '%'
    &&& e[i] == '%' ==> i + 2 < e.len() && upper_hex(e[i + 1]) && upper_hex(e[i + 2])
}

pub open spec fn query_safe(e: Seq<char>) -> bool {
    forall|i: int| 0 <= i < e.len() ==> #[trigger] query_safe_at(e, i)
}

proof fn lemma_hex_digit(n: int)
    requires
        0 <= n < 16,
    ensures
        upper_hex(hex_digit(n)),
        unreserved(hex_digit(n)),
        hex_digit(n) != '%',
        hex_value(hex_digit(n)) == n,
{
}

proof fn lemma_safe_concat(a: Seq<char>, b: Seq<char>)
    requires
        query_safe(a),
        query_safe(b),
    ensures
        query_safe(a + b),
{
    let e = a + b;
    assert forall|i: int| 0 <= i < e.len() implies #[trigger] query_safe_at(e, i) by {
        if i < a.len() {
            assert(query_safe_at(a, i));
        } else {
            assert(query_safe_at(b, i - a.len()));
        }
    }
}

proof fn lemma_safe_bytes(bytes: Seq<u8>)
    ensures
        query_safe(percent_bytes(bytes)),
    decreases bytes.len(),
{
    if bytes.len() > 0 {
        lemma_safe_bytes(bytes.drop_last());
        let b = bytes.last() as int;
        lemma_hex_digit(b / 16);
        lemma_hex_digit(b % 16);
        let e = percent_byte(b);
        assert(query_safe_at(e, 0) && query_safe_at(e, 1) && query_safe_at(e, 2));
        lemma_safe_concat(percent_bytes(bytes.drop_last()), e);
    }
}

/// Text in a query holds letters, digits, `-_.~` and percent signs, each followed
/// by two hexadecimal digits in capitals.
pub proof fn law_url_encoded_safe(s: Seq<char>)
    ensures
        query_safe(url_encoded(s)),
    decreases s.len(),
{
    if s.len() > 0 {
        law_url_encoded_safe(s.drop_last());
        let c = s.last();
        if unreserved(c) {
            let one = seq![c];
            assert(query_safe_at(one, 0));
            lemma_safe_concat(url_encoded(s.drop_last()), one);
            assert(url_encoded(s) =~= url_encoded(s.drop_last()) + one);
        } else {
            let bytes = encode_utf8(seq![c]);
            lemma_safe_bytes(bytes);
            lemma_safe_concat(url_encoded(s.drop_last()), percent_bytes(bytes));
        }
    }
}

/// Texts one behind the other are encoded one behind the other.
pub proof fn law_url_encoded_concat(a: Seq<char>, b: Seq<char>)
    ensures
        url_encoded(a + b) == url_encoded(a) + url_encoded(b),
    decreases b.len(),
{
    if b.len() == 0 {
        assert(a + b =~= a);
        assert(url_encoded(a) + url_encoded(b) =~= url_encoded(a));
    } else {
        law_url_encoded_concat(a, b.drop_last());
        assert((a + b).drop_last() =~= a + b.drop_last());
        assert((a + b).last() == b.last());
        assert(url_encoded(a + b) =~= url_encoded(a) + url_encoded(b));
    }
}

proof fn lemma_utf8_concat(a: Seq<char>, b: Seq<char>)
    ensures
        encode_utf8(a + b) == encode_utf8(a) + encode_utf8(b),
    decreases a.len(),
{
    if a.len() == 0 {
        assert(a + b =~= b);
        assert(encode_utf8(a) + encode_utf8(b) =~= encode_utf8(b));
    } else {
        lemma_utf8_concat(a.drop_first(), b);
        assert((a + b).drop_first() =~= a.drop_first() + b);
        assert((a + b)[0] == a[0]);
        let first = encode_scalar(a[0] as u32);
        assert(encode_utf8(a + b) == first + (encode_utf8(a.drop_first()) + encode_utf8(b)));
        assert(encode_utf8(a + b) =~= encode_utf8(a) + encode_utf8(b));
    }
}

proof fn lemma_bytes_decoded(bytes: Seq<u8>, rest: Seq<char>)
    ensures
        percent_decoded(percent_bytes(bytes) + rest) == bytes + percent_decoded(rest),
    decreases bytes.len(),
{
    if bytes.len() == 0 {
        assert(percent_bytes(bytes) + rest =~= rest);
        assert(bytes + percent_decoded(rest) =~= percent_decoded(rest));
    } else {
        let b = bytes.last() as int;
        let next = percent_byte(b) + rest;
        lemma_hex_digit(b / 16);
        lemma_hex_digit(b % 16);
        assert(next.skip(3) =~= rest);
        assert(percent_decoded(next) == seq![bytes.last()] + percent_decoded(rest));
        assert(percent_bytes(bytes) + rest =~= percent_bytes(bytes.drop_last()) + next);
        lemma_bytes_decoded(bytes.drop_last(), next);
        assert(bytes.drop_last() + (seq![bytes.last()] + percent_decoded(rest)) =~= bytes
            + percent_decoded(rest));
    }
}

proof fn lemma_text_decoded(s: Seq<char>, rest: Seq<char>)
    ensures
        percent_decoded(url_encoded(s) + rest) == encode_utf8(s) + percent_decoded(rest),
    decreases s.len(),
{
    if s.len() == 0 {
        assert(url_encoded(s) + rest =~= rest);
        assert(encode_utf8(s) + percent_decoded(rest) =~= percent_decoded(rest));
    } else {
        let head = s.drop_last();
        let one = seq![s.last()];
        assert(s =~= head + one);
        lemma_utf8_concat(head, one);
        let bytes = encode_utf8(one);
        if unreserved(s.last()) {
            is_ascii_chars_encode_utf8(one);
            assert(bytes =~= seq![s.last() as u8]);
            let next = one + rest;
            assert(next.skip(1) =~= rest);
            assert(url_encoded(s) + rest =~= url_encoded(head) + next);
            lemma_text_decoded(head, next);
        } else {
            let next = percent_bytes(bytes) + rest;
            assert(url_encoded(s) + rest =~= url_encoded(head) + next);
            lemma_bytes_decoded(bytes, rest);
            lemma_text_decoded(head, next);
        }
        assert(encode_utf8(head) + (bytes + percent_decoded(rest)) =~= encode_utf8(s)
            + percent_decoded(rest));
    }
}

/// Decoding the percent signs of an encoded text gives back the text.
pub proof fn law_url_encoded_decodes(s: Seq<char>)
    ensures
        percent_decoded(url_encoded(s)) == encode_utf8(s),
        decode_utf8(percent_decoded(url_encoded(s))) == s,
{
    let none = Seq::<char>::empty();
    lemma_text_decoded(s, none);
    assert(url_encoded(s) + none =~= url_encoded(s));
    assert(encode_utf8(s) + percent_decoded(none) =~= encode_utf8(s));
    encode_utf8_decode_utf8(s);
}

} // verus!
