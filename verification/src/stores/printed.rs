//! Printed prices, read back by the stores' formats.

use crate::output::price_text;
use crate::stores::price::{amount, fits, priced};
use crate::stores::{adamstuen, cardmarket, collectible, korthaien, midgard, pokeboks};
use crate::text::{
    all_digits, decimal, digit_char, digits_value, find_from, from_first_digit, is_digit, is_white,
    matches_at, number_class, parse_number, replace, split_once, take_while, trim, trim_end,
    trim_end_char, word_class,
};
use vstd::prelude::*;

verus! {

/// A number below one hundred with two digits.
pub open spec fn two_digits(n: nat) -> Seq<char> {
    seq![digit_char(n / 10), digit_char(n % 10)]
}

proof fn lemma_digit_char(d: nat)
    requires
        d < 10,
    ensures
        is_digit(digit_char(d)),
        digit_char(d) as u32 - 0x30 == d,
{
}

pub proof fn lemma_decimal(n: nat)
    ensures
        decimal(n).len() > 0,
        all_digits(decimal(n)),
        digits_value(decimal(n)) == n,
    decreases n,
{
    lemma_digit_char(n % 10);
    if n < 10 {
        let s = decimal(n);
        assert(s.drop_last() =~= Seq::empty());
        reveal_with_fuel(digits_value, 2);
    } else {
        lemma_decimal(n / 10);
        let head = decimal(n / 10);
        let s = head.push(digit_char(n % 10));
        assert(s.drop_last() =~= head);
        assert forall|i: int| 0 <= i < s.len() implies is_digit(#[trigger] s[i]) by {
            if i < head.len() {
                assert(s[i] == head[i]);
            }
        }
    }
}

proof fn lemma_two_digits(n: nat)
    requires
        n < 100,
    ensures
        all_digits(two_digits(n)),
        digits_value(two_digits(n)) == n,
{
    let s = two_digits(n);
    lemma_digit_char(n / 10);
    lemma_digit_char(n % 10);
    let one = s.drop_last();
    assert(one =~= seq![digit_char(n / 10)]);
    assert(one.drop_last() =~= Seq::empty());
    reveal_with_fuel(digits_value, 3);
}

/// Digits are parsed as the number they stand for.
pub proof fn lemma_parse(s: Seq<char>)
    requires
        s.len() > 0,
        all_digits(s),
        digits_value(s) <= u32::MAX,
    ensures
        parse_number(s) == Some(digits_value(s) as u32),
{
    assert(is_digit(s[0]));
}

/// Every occurrence starts with the first character.
pub proof fn lemma_replace_absent(s: Seq<char>, p: Seq<char>)
    requires
        p.len() > 0,
        forall|i: int| 0 <= i < s.len() ==> #[trigger] s[i] != p[0],
    ensures
        replace(s, p, Seq::empty()) == s,
    decreases s.len(),
{
    if s.len() >= p.len() {
        assert(s.subrange(0, p.len() as int)[0] == s[0]);
        let rest = s.skip(1);
        assert forall|i: int| 0 <= i < rest.len() implies #[trigger] rest[i] != p[0] by {
            assert(rest[i] == s[i + 1]);
        }
        lemma_replace_absent(rest, p);
        assert(seq![s[0]] + rest =~= s);
    }
}

/// A text behind which the pattern stands once.
proof fn lemma_replace_last(s: Seq<char>, p: Seq<char>)
    requires
        p.len() > 0,
        forall|i: int| 0 <= i < s.len() ==> #[trigger] s[i] != p[0],
    ensures
        replace(s + p, p, Seq::empty()) == s,
    decreases s.len(),
{
    let t = s + p;
    if s.len() == 0 {
        assert(t =~= p);
        assert(p.subrange(0, p.len() as int) =~= p);
        assert(p.skip(p.len() as int) =~= Seq::empty());
        let none = Seq::<char>::empty();
        assert(replace(none, p, none) =~= none);
        assert(none + none =~= s);
    } else {
        assert(t.subrange(0, p.len() as int)[0] == s[0]);
        let rest = s.skip(1);
        assert forall|i: int| 0 <= i < rest.len() implies #[trigger] rest[i] != p[0] by {
            assert(rest[i] == s[i + 1]);
        }
        assert(t.skip(1) =~= rest + p);
        lemma_replace_last(rest, p);
        assert(seq![s[0]] + rest =~= s);
    }
}

/// Text between other characters than white space is trimmed of a space behind it.
pub proof fn lemma_trim(s: Seq<char>)
    requires
        s.len() > 0,
        !is_white(s[0]),
        !is_white(s.last()),
    ensures
        trim(s) == s,
        trim(s.push(' ')) == s,
{
    let t = s.push(' ');
    assert(t[0] == s[0]);
    assert(t.drop_last() =~= s);
    assert(trim_end(t) == trim_end(s));
}

pub proof fn lemma_take_while(a: Seq<char>, b: Seq<char>, class: spec_fn(char) -> bool)
    requires
        forall|i: int| 0 <= i < a.len() ==> class(#[trigger] a[i]),
        b.len() == 0 || !class(b[0]),
    ensures
        take_while(a + b, class) == a,
    decreases a.len(),
{
    if a.len() == 0 {
        assert(a + b =~= b);
        assert(a =~= Seq::empty());
    } else {
        let rest = a.skip(1);
        assert forall|i: int| 0 <= i < rest.len() implies class(#[trigger] rest[i]) by {
            assert(rest[i] == a[i + 1]);
        }
        lemma_take_while(rest, b, class);
        assert((a + b).skip(1) =~= rest + b);
        assert((a + b)[0] == a[0]);
        assert(class(a[0]));
        assert(seq![a[0]] + rest =~= a);
    }
}

proof fn lemma_find_char(s: Seq<char>, c: char, from: int, at: int)
    requires
        0 <= from <= at < s.len(),
        s[at] == c,
        forall|i: int| 0 <= i < at ==> #[trigger] s[i] != c,
    ensures
        find_from(s, seq![c], from) == Some(at),
    decreases at - from,
{
    let one = seq![c];
    if from == at {
        assert(s.subrange(at, at + 1) =~= one);
        assert(matches_at(s, at, one));
    } else {
        assert(s.subrange(from, from + 1)[0] == s[from]);
        assert(!matches_at(s, from, one));
        lemma_find_char(s, c, from + 1, at);
    }
}

pub proof fn lemma_find_none(s: Seq<char>, c: char, from: int)
    requires
        0 <= from <= s.len(),
        forall|i: int| 0 <= i < s.len() ==> #[trigger] s[i] != c,
    ensures
        find_from(s, seq![c], from) is None,
    decreases s.len() - from,
{
    let one = seq![c];
    if from < s.len() {
        assert(s.subrange(from, from + 1)[0] == s[from]);
        assert(!matches_at(s, from, one));
        lemma_find_none(s, c, from + 1);
    }
}

pub proof fn lemma_split(a: Seq<char>, c: char, b: Seq<char>)
    requires
        forall|i: int| 0 <= i < a.len() ==> #[trigger] a[i] != c,
    ensures
        split_once(a.push(c) + b, c) == Some((a, b)),
{
    let s = a.push(c) + b;
    assert forall|i: int| 0 <= i < a.len() implies #[trigger] s[i] != c by {
        assert(s[i] == a[i]);
    }
    lemma_find_char(s, c, 0, a.len() as int);
    assert(s.take(a.len() as int) =~= a);
    assert(s.skip(a.len() as int + 1) =~= b);
}

/// A number with a separator and two digits behind it.
pub open spec fn fixed_point(whole: nat, separator: char, frac: nat) -> Seq<char> {
    decimal(whole).push(separator) + two_digits(frac)
}

/// What characters such a number holds.
proof fn lemma_fixed_point(whole: nat, separator: char, frac: nat)
    requires
        frac < 100,
    ensures
        ({
            let core = fixed_point(whole, separator, frac);
            &&& core.len() > 0
            &&& is_digit(core[0])
            &&& is_digit(core.last())
            &&& forall|i: int|
                0 <= i < core.len() ==> is_digit(#[trigger] core[i]) || core[i] == separator
        }),
{
    let core = fixed_point(whole, separator, frac);
    let w = decimal(whole);
    lemma_decimal(whole);
    lemma_two_digits(frac);
    assert(core[0] == w[0]);
    assert(core.last() == two_digits(frac)[1]);
    assert forall|i: int| 0 <= i < core.len() implies is_digit(#[trigger] core[i]) || core[i]
        == separator by {
        if i < w.len() {
            assert(core[i] == w[i]);
        } else if i > w.len() {
            assert(core[i] == two_digits(frac)[i - w.len() - 1]);
        }
    }
}

/// A printed price is a number with a comma, and the currency.
proof fn lemma_price_text(x: nat)
    ensures
        price_text(x) == fixed_point(x / 100, ',', x % 100) + seq![' ', 'k', 'r'],
{
    reveal_strlit(",0");
    reveal_strlit(",");
    reveal_strlit(" kr");
    let f = x % 100;
    if f >= 10 {
        assert(decimal(f / 10) =~= seq![digit_char(f / 10)]);
        assert(decimal(f) =~= two_digits(f));
    } else {
        assert(decimal(f) =~= seq![digit_char(f)]);
        assert(digit_char(0) == '0');
    }
    assert(price_text(x) =~= fixed_point(x / 100, ',', f) + seq![' ', 'k', 'r']);
}

/// The two sides of a comma as an amount.
proof fn lemma_amount(x: u32)
    ensures
        ({
            let core = fixed_point(x as nat / 100, ',', x as nat % 100);
            split_once(core, ',') == Some(
                (decimal(x as nat / 100), two_digits(x as nat % 100)),
            )
        }),
        amount(
            parse_number(decimal(x as nat / 100)),
            parse_number(two_digits(x as nat % 100)),
        ) == Some(x as nat),
{
    let w = decimal(x as nat / 100);
    let f = two_digits(x as nat % 100);
    lemma_decimal(x as nat / 100);
    lemma_two_digits(x as nat % 100);
    assert forall|i: int| 0 <= i < w.len() implies #[trigger] w[i] != ',' by {
        assert(is_digit(w[i]));
    }
    lemma_split(w, ',', f);
    lemma_parse(w);
    lemma_parse(f);
}

/// Reading a printed price gives back the price.
pub proof fn law_pokeboks_reads_prices(x: u32)
    ensures
        fits(pokeboks::price_amount(price_text(x as nat))),
        priced(pokeboks::price_amount(price_text(x as nat))) == Some(x),
{
    let raw = price_text(x as nat);
    let core = fixed_point(x as nat / 100, ',', x as nat % 100);
    lemma_price_text(x as nat);
    lemma_fixed_point(x as nat / 100, ',', x as nat % 100);
    lemma_amount(x);
    reveal_strlit("&nbsp;");
    reveal_strlit("kr");
    reveal_strlit("");
    assert(""@ =~= Seq::empty());
    lemma_replace_absent(raw, "&nbsp;"@);
    let spaced = core.push(' ');
    assert(raw =~= spaced + "kr"@);
    lemma_replace_last(spaced, "kr"@);
    lemma_trim(core);
    let class = number_class(true, false);
    let none = Seq::<char>::empty();
    lemma_take_while(core, none, class);
    assert(core + none =~= core);
}

/// Reading a printed price gives back the price.
pub proof fn law_collectible_reads_prices(x: u32)
    ensures
        fits(collectible::price_amount(price_text(x as nat))),
        priced(collectible::price_amount(price_text(x as nat))) == Some(x),
{
    let raw = price_text(x as nat);
    let core = fixed_point(x as nat / 100, ',', x as nat % 100);
    lemma_price_text(x as nat);
    lemma_fixed_point(x as nat / 100, ',', x as nat % 100);
    lemma_amount(x);
    assert(raw[0] == core[0]);
    lemma_trim(raw);
    lemma_take_while(core, seq![' ', 'k', 'r'], word_class());
    assert(trim_end_char(core, ',') == core);
}

/// Reading a printed price gives back the price.
pub proof fn law_midgard_reads_prices(x: u32)
    ensures
        fits(midgard::price_amount(price_text(x as nat))),
        priced(midgard::price_amount(price_text(x as nat))) == Some(x),
{
    let raw = price_text(x as nat);
    let core = fixed_point(x as nat / 100, ',', x as nat % 100);
    lemma_price_text(x as nat);
    lemma_fixed_point(x as nat / 100, ',', x as nat % 100);
    lemma_amount(x);
    reveal_strlit("kr");
    reveal_strlit("NOK");
    reveal_strlit(" ");
    reveal_strlit(".");
    reveal_strlit("");
    assert(""@ =~= Seq::empty());
    assert(raw[0] == core[0]);
    lemma_trim(raw);
    assert(from_first_digit(raw) == Some(raw));
    let spaced = core.push(' ');
    assert(raw =~= spaced + "kr"@);
    lemma_replace_last(spaced, "kr"@);
    lemma_replace_absent(spaced, "NOK"@);
    assert(spaced =~= core + " "@);
    lemma_replace_last(core, " "@);
    lemma_trim(core);
    let w = decimal(x as nat / 100);
    lemma_decimal(x as nat / 100);
    assert forall|i: int| 0 <= i < w.len() implies #[trigger] w[i] != "."@[0] by {
        assert(is_digit(w[i]));
    }
    lemma_replace_absent(w, "."@);
}

/// What korthaien.no prints behind its whole kroner is left out.
pub proof fn law_korthaien_reads_prices(kroner: u32, rest: Seq<char>)
    requires
        rest.len() > 0,
        !is_digit(rest[0]),
        !is_white(rest.last()),
    ensures
        korthaien::price_amount(decimal(kroner as nat) + rest) == Some((kroner * 100) as nat),
{
    let d = decimal(kroner as nat);
    let raw = d + rest;
    lemma_decimal(kroner as nat);
    assert(is_digit(d[0]));
    assert(raw[0] == d[0] && raw.last() == rest.last());
    lemma_trim(raw);
    let class = number_class(false, false);
    assert forall|i: int| 0 <= i < d.len() implies class(#[trigger] d[i]) by {
        assert(is_digit(d[i]));
    }
    lemma_take_while(d, rest, class);
    lemma_parse(d);
}

pub proof fn lemma_digits_kept(s: Seq<char>)
    ensures
        all_digits(s.filter(|c: char| is_digit(c))),
        all_digits(s) ==> s.filter(|c: char| is_digit(c)) == s,
        s.len() > 0 && is_digit(s[0]) ==> s.filter(|c: char| is_digit(c)).len() > 0,
    decreases s.len(),
{
    reveal(Seq::filter);
    if s.len() > 0 {
        let init = s.drop_last();
        lemma_digits_kept(init);
        let kept = init.filter(|c: char| is_digit(c));
        if all_digits(s) {
            assert(is_digit(s[s.len() - 1]));
            assert forall|i: int| 0 <= i < init.len() implies is_digit(#[trigger] init[i]) by {
                assert(is_digit(s[i]));
            }
            assert(init.push(s.last()) =~= s);
        }
        if init.len() > 0 {
            assert(init[0] == s[0]);
        }
        if is_digit(s.last()) {
            let all = kept.push(s.last());
            assert forall|i: int| 0 <= i < all.len() implies is_digit(#[trigger] all[i]) by {
                if i < kept.len() {
                    assert(all[i] == kept[i]);
                }
            }
        }
    } else {
        assert(s.filter(|c: char| is_digit(c)) =~= s);
    }
}

/// adamstuenretro.no prints whole kroner, with commas between thousands or not.
pub proof fn law_adamstuen_reads_prices(s: Seq<char>)
    requires
        s.len() > 0,
        is_digit(s[0]),
        is_digit(s.last()),
        forall|i: int| 0 <= i < s.len() ==> is_digit(#[trigger] s[i]) || s[i] == ',',
        digits_value(s.filter(|c: char| is_digit(c))) <= u32::MAX,
    ensures
        adamstuen::price_amount(s + " NOK"@) == Some(
            (digits_value(s.filter(|c: char| is_digit(c))) * 100) as nat,
        ),
        all_digits(s) ==> adamstuen::price_amount(s + " NOK"@) == Some(
            (digits_value(s) * 100) as nat,
        ),
{
    reveal_strlit(" NOK");
    reveal_strlit("NOK");
    reveal_strlit(" ");
    reveal_strlit("");
    assert(""@ =~= Seq::empty());
    let raw = s + " NOK"@;
    let spaced = s.push(' ');
    assert(raw =~= spaced + "NOK"@);
    lemma_replace_last(spaced, "NOK"@);
    assert(spaced =~= s + " "@);
    lemma_replace_last(s, " "@);
    lemma_trim(s);
    lemma_digits_kept(s);
    lemma_parse(s.filter(|c: char| is_digit(c)));
}

proof fn lemma_skip_to_digit(p: Seq<char>, s: Seq<char>)
    requires
        s.len() > 0,
        is_digit(s[0]),
        forall|i: int| 0 <= i < p.len() ==> !is_digit(#[trigger] p[i]),
    ensures
        from_first_digit(p + s) == Some(s),
    decreases p.len(),
{
    if p.len() == 0 {
        assert(p + s =~= s);
    } else {
        assert(!is_digit(p[0]));
        let rest = p.skip(1);
        assert forall|i: int| 0 <= i < rest.len() implies !is_digit(#[trigger] rest[i]) by {
            assert(rest[i] == p[i + 1]);
        }
        lemma_skip_to_digit(rest, s);
        assert((p + s).skip(1) =~= rest + s);
        assert((p + s)[0] == p[0]);
    }
}

/// midgardgames.no prices are read back behind any words without digits.
pub proof fn law_midgard_reads_prices_behind_words(words: Seq<char>, x: u32)
    requires
        words.len() > 0,
        !is_white(words[0]),
        forall|i: int| 0 <= i < words.len() ==> !is_digit(#[trigger] words[i]),
    ensures
        midgard::price_amount(words + price_text(x as nat)) == Some(x as nat),
{
    let price = price_text(x as nat);
    let raw = words + price;
    lemma_price_text(x as nat);
    lemma_fixed_point(x as nat / 100, ',', x as nat % 100);
    assert(price.last() == 'r');
    assert(is_digit(price[0]));
    lemma_trim(price);
    assert(raw[0] == words[0] && raw.last() == 'r');
    lemma_trim(raw);
    lemma_skip_to_digit(words, price);
    lemma_skip_to_digit(Seq::empty(), price);
    assert(Seq::<char>::empty() + price =~= price);
    law_midgard_reads_prices(x);
    assert(midgard::price_amount(raw) == midgard::price_amount(price));
}

/// Digits are not dropped for being digits.
proof fn lemma_all_kept(s: Seq<char>)
    requires
        all_digits(s),
    ensures
        s.filter(|c: char| is_digit(c)) == s,
    decreases s.len(),
{
    reveal(Seq::filter);
    if s.len() > 0 {
        let rest = s.drop_last();
        assert forall|i: int| 0 <= i < rest.len() implies is_digit(#[trigger] rest[i]) by {
            assert(rest[i] == s[i]);
        }
        lemma_all_kept(rest);
        assert(is_digit(s[s.len() - 1]));
        assert(rest.push(s.last()) =~= s);
    }
}

/// Whole euros and cents of such a number.
proof fn lemma_cents(whole: nat, frac: nat)
    requires
        whole <= 42949671,
        frac < 100,
    ensures
        ({
            let w = decimal(whole);
            let f = two_digits(frac);
            let sum = Some((100 * whole + frac) as nat);
            &&& cardmarket::in_cents(cardmarket::euros(w), cardmarket::cents(f)) == sum
            &&& cardmarket::in_cents(parse_number(w), cardmarket::cents(f)) == sum
            &&& forall|i: int| 0 <= i < w.len() ==> #[trigger] w[i] != ',' && w[i] != '.'
        }),
{
    let w = decimal(whole);
    let f = two_digits(frac);
    lemma_decimal(whole);
    lemma_two_digits(frac);
    lemma_parse(w);
    lemma_parse(f);
    lemma_all_kept(w);
    lemma_all_kept(f);
    assert(f.take(2) =~= f);
    assert forall|i: int| 0 <= i < w.len() implies #[trigger] w[i] != ',' && w[i] != '.' by {
        assert(is_digit(w[i]));
    }
}

/// What is left of a number once the signs of the currency are gone.
proof fn lemma_number_left(whole: nat, separator: char, frac: nat)
    requires
        frac < 100,
        separator == ',' || separator == '.',
    ensures
        ({
            let core = fixed_point(whole, separator, frac);
            &&& trim(core.push(' ')) == core
            &&& take_while(core, number_class(true, true)) == core
        }),
{
    let core = fixed_point(whole, separator, frac);
    let none = Seq::<char>::empty();
    lemma_fixed_point(whole, separator, frac);
    lemma_trim(core);
    lemma_take_while(core, none, number_class(true, true));
    assert(core + none =~= core);
}

/// A price in euros with a comma and the sign is read back.
pub proof fn law_euro_sign_prices_read(whole: u32, frac: u32)
    requires
        whole <= 42949671,
        frac < 100,
    ensures
        ({
            let text = fixed_point(whole as nat, ',', frac as nat) + " €"@;
            &&& fits(cardmarket::eur_amount(text))
            &&& priced(cardmarket::eur_amount(text)) == Some((100 * whole + frac) as u32)
        }),
{
    reveal_strlit(" €");
    reveal_strlit("€");
    reveal_strlit("EUR");
    reveal_strlit("eur");
    reveal_strlit("");
    assert(""@ =~= Seq::empty());
    let core = fixed_point(whole as nat, ',', frac as nat);
    let spaced = core.push(' ');
    let raw = core + " €"@;
    lemma_fixed_point(whole as nat, ',', frac as nat);
    assert(raw[0] == core[0]);
    lemma_trim(raw);
    assert(raw =~= spaced + "€"@);
    lemma_replace_last(spaced, "€"@);
    lemma_replace_absent(spaced, "EUR"@);
    lemma_replace_absent(spaced, "eur"@);
    lemma_number_left(whole as nat, ',', frac as nat);
    lemma_cents(whole as nat, frac as nat);
    lemma_split(decimal(whole as nat), ',', two_digits(frac as nat));
}

/// A price in euros with a point and the currency's letters is read back.
pub proof fn law_euro_letter_prices_read(whole: u32, frac: u32)
    requires
        whole <= 42949671,
        frac < 100,
    ensures
        ({
            let text = fixed_point(whole as nat, '.', frac as nat) + " EUR"@;
            &&& fits(cardmarket::eur_amount(text))
            &&& priced(cardmarket::eur_amount(text)) == Some((100 * whole + frac) as u32)
        }),
{
    reveal_strlit(" EUR");
    reveal_strlit("€");
    reveal_strlit("EUR");
    reveal_strlit("eur");
    reveal_strlit("");
    assert(""@ =~= Seq::empty());
    let core = fixed_point(whole as nat, '.', frac as nat);
    let spaced = core.push(' ');
    let raw = core + " EUR"@;
    lemma_fixed_point(whole as nat, '.', frac as nat);
    assert(raw[0] == core[0]);
    lemma_trim(raw);
    lemma_replace_absent(raw, "€"@);
    assert(raw =~= spaced + "EUR"@);
    lemma_replace_last(spaced, "EUR"@);
    lemma_replace_absent(spaced, "eur"@);
    lemma_number_left(whole as nat, '.', frac as nat);
    lemma_cents(whole as nat, frac as nat);
    lemma_find_none(core, ',', 0);
    lemma_split(decimal(whole as nat), '.', two_digits(frac as nat));
}

} // verus!
