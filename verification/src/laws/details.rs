//! Order among equals, readings of amounts and addresses, and what stays untouched.

use crate::cache::solutions::{with_solution, Record};
use crate::html::{inner_text, Elem};
use crate::order::{insert_stable, stable_sorted};
use crate::stores::{slug, Listing};
use crate::stores::cardmarket::{
    cents, chained, eur_amount, first_value, heading_of, outer_message,
};
use crate::stores::printed::{
    lemma_decimal, lemma_digits_kept, lemma_find_none, lemma_parse, lemma_replace_absent,
    lemma_take_while, lemma_trim,
};
use crate::text::{
    all_digits, decimal, digits_value, is_digit, is_white, number_class, replace, trim,
};
use crate::wizard::input::extra_cards;
use vstd::prelude::*;

verus! {

/// Entries with equal keys keep their order.
pub proof fn law_equals_keep_their_order<A>(s: Seq<A>, key: spec_fn(A) -> int, value: int)
    ensures
        stable_sorted(s, key).filter(|x: A| key(x) == value) == s.filter(
            |x: A| key(x) == value,
        ),
    decreases s.len(),
{
    let q = |x: A| key(x) == value;
    reveal(Seq::filter);
    if s.len() > 0 {
        law_equals_keep_their_order(s.drop_last(), key, value);
        crate::order::law_stable_sorted(s.drop_last(), key);
        lemma_inserted_last(stable_sorted(s.drop_last(), key), s.last(), key, value);
    }
}

proof fn lemma_inserted_last<A>(s: Seq<A>, x: A, key: spec_fn(A) -> int, value: int)
    requires
        crate::order::ascending(s, key),
    ensures
        insert_stable(s, x, key).filter(|y: A| key(y) == value) == if key(x) == value {
            s.filter(|y: A| key(y) == value).push(x)
        } else {
            s.filter(|y: A| key(y) == value)
        },
    decreases s.len(),
{
    reveal(Seq::filter);
    let q = |y: A| key(y) == value;
    if s.len() == 0 || key(s.last()) <= key(x) {
        assert(s.push(x).drop_last() =~= s);
    } else {
        let init = s.drop_last();
        assert forall|i: int, j: int| 0 <= i <= j < init.len() implies key(#[trigger] init[i])
            <= key(#[trigger] init[j]) by {
            assert(key(s[i]) <= key(s[j]));
        }
        lemma_inserted_last(init, x, key, value);
        let more = insert_stable(init, x, key);
        assert(more.push(s.last()).drop_last() =~= more);
    }
}

/// A single digit behind the separator stands for tens of cents, and digits beyond
/// the second do not count.
pub proof fn law_cents(frac: Seq<char>, more: Seq<char>)
    requires
        all_digits(frac),
        all_digits(more),
    ensures
        frac.len() == 0 ==> cents(frac) == Some(0u32),
        frac.len() == 1 ==> cents(frac) == Some((10 * digits_value(frac)) as u32),
        frac.len() == 2 ==> cents(frac) == Some(digits_value(frac) as u32) && cents(frac + more)
            == cents(frac),
{
    lemma_digits_kept(frac);
    if frac.len() == 0 {
        assert(frac =~= Seq::empty());
    } else if frac.len() == 1 {
        assert(is_digit(frac[0]));
        assert(frac.drop_last() =~= Seq::empty());
        reveal_with_fuel(digits_value, 2);
        lemma_parse(frac);
    } else if frac.len() == 2 {
        assert(is_digit(frac[0]) && is_digit(frac[1]));
        assert(frac.drop_last().drop_last() =~= Seq::empty());
        reveal_with_fuel(digits_value, 3);
        lemma_parse(frac);
        assert(frac.take(2) =~= frac);
        let all = frac + more;
        assert forall|i: int| 0 <= i < all.len() implies is_digit(#[trigger] all[i]) by {
            if i < frac.len() {
                assert(all[i] == frac[i]);
            } else {
                assert(all[i] == more[i - frac.len()]);
            }
        }
        lemma_digits_kept(all);
        assert(all.take(2) =~= frac);
    }
}

/// An amount without cents is one in whole euros.
pub proof fn law_whole_amounts(whole: u32)
    ensures
        eur_amount(decimal(whole as nat)) == Some((100 * whole) as nat),
{
    let d = decimal(whole as nat);
    lemma_decimal(whole as nat);
    assert(is_digit(d[0]) && is_digit(d[d.len() - 1]));
    lemma_trim(d);
    reveal_strlit("€");
    reveal_strlit("EUR");
    reveal_strlit("eur");
    reveal_strlit("");
    assert(""@ =~= Seq::empty());
    assert forall|i: int| 0 <= i < d.len() implies #[trigger] d[i] != "€"@[0] && d[i] != "EUR"@[0]
        && d[i] != "eur"@[0] && d[i] != ',' && d[i] != '.' by {
        assert(is_digit(d[i]));
    }
    lemma_replace_absent(d, "€"@);
    lemma_replace_absent(d, "EUR"@);
    lemma_replace_absent(d, "eur"@);
    let class = number_class(true, true);
    assert forall|i: int| 0 <= i < d.len() implies class(#[trigger] d[i]) by {
        assert(is_digit(d[i]));
    }
    let none = Seq::<char>::empty();
    lemma_take_while(d, none, class);
    assert(d + none =~= d);
    lemma_find_none(d, ',', 0);
    lemma_find_none(d, '.', 0);
    lemma_parse(d);
}

/// The messages of an error are told from the outside in, and the first stands for
/// it.
pub proof fn law_messages(parts: Seq<Seq<char>>, part: Seq<char>)
    ensures
        chained(Seq::empty()).len() == 0,
        chained(seq![part]) == part,
        parts.len() > 0 ==> chained(parts.push(part)) == chained(parts) + ": "@ + part,
        outer_message(seq![part] + parts) == part,
{
    assert(parts.push(part).drop_last() =~= parts);
}

/// Where a page has several headings or values, the first counts.
pub proof fn law_first_elements(first: Elem, others: Seq<Elem>)
    ensures
        heading_of(Seq::empty()) is None,
        heading_of(seq![first] + others) == Some(inner_text(first)),
        first_value(Some(seq![first] + others)) == first.attr,
        first_value(Some(Seq::empty())) is None,
        first_value(None) is None,
{
}

/// Every card that is on offer without being wanted has a listing with a price.
pub proof fn law_extra_cards_have_a_price(
    rows: Seq<Listing>,
    wanted: Seq<Seq<char>>,
    eu: bool,
    k: int,
)
    requires
        0 <= k < extra_cards(rows, wanted, eu).len(),
    ensures
        exists|i: int|
            0 <= i < rows.len() && (#[trigger] rows[i]).card == extra_cards(rows, wanted, eu)[k]
                && rows[i].price > 0,
        !wanted.contains(extra_cards(rows, wanted, eu)[k]),
    decreases rows.len(),
{
    let init = rows.drop_last();
    let rest = extra_cards(init, wanted, eu);
    if k < rest.len() {
        law_extra_cards_have_a_price(init, wanted, eu, k);
        let i = choose|i: int|
            0 <= i < init.len() && (#[trigger] init[i]).card == rest[k] && init[i].price > 0;
        assert(rows[i].card == rest[k] && rows[i].price > 0);
    } else {
        assert(rows[rows.len() - 1].card == extra_cards(rows, wanted, eu)[k]);
    }
}

/// Recording a solution replaces the record of the same strategy, tolerance,
/// destination and rank, and keeps every other one.
pub proof fn law_other_records_stay(rows: Seq<Record>, new: Record, i: int)
    requires
        0 <= i < rows.len(),
    ensures
        with_solution(rows, new).last() == new,
        rows[i].strategy != new.strategy || rows[i].tolerance != new.tolerance
            || rows[i].eu_destination != new.eu_destination || rows[i].rank != new.rank
            ==> with_solution(rows, new).contains(rows[i]),
        forall|k: int|
            0 <= k < with_solution(rows, new).len() - 1 ==> {
                let r = #[trigger] with_solution(rows, new)[k];
                rows.contains(r) && !(r.strategy == new.strategy && r.tolerance == new.tolerance
                    && r.eu_destination == new.eu_destination && r.rank == new.rank)
            },
{
    let p = crate::cache::solutions::elsewhere(new);
    let kept = rows.filter(p);
    let all = with_solution(rows, new);
    if p(rows[i]) {
        rows.lemma_filter_contains(p, i);
        let k = choose|k: int| 0 <= k < kept.len() && kept[k] == rows[i];
        assert(all[k] == rows[i]);
    }
    assert forall|k: int| 0 <= k < all.len() - 1 implies {
        let r = #[trigger] all[k];
        rows.contains(r) && !(r.strategy == new.strategy && r.tolerance == new.tolerance
            && r.eu_destination == new.eu_destination && r.rank == new.rank)
    } by {
        assert(all[k] == kept[k]);
        rows.lemma_filter_pred(p, k);
        rows.lemma_filter_contains_rev(p, kept[k]);
    }
}

/// The text holds no such character.
pub open spec fn free_of(s: Seq<char>, c: char) -> bool {
    forall|i: int| 0 <= i < s.len() ==> #[trigger] s[i] != c
}

proof fn lemma_replaced_free(s: Seq<char>, c: char, with: Seq<char>, d: char)
    requires
        free_of(with, d),
        d == c || free_of(s, d),
    ensures
        free_of(replace(s, seq![c], with), d),
    decreases s.len(),
{
    let one = seq![c];
    if s.len() > 0 {
        let rest = s.skip(1);
        assert forall|i: int| 0 <= i < rest.len() && d != c implies #[trigger] rest[i] != d by {
            assert(rest[i] == s[i + 1]);
        }
        lemma_replaced_free(rest, c, with, d);
        let tail = replace(rest, one, with);
        if s[0] == c {
            assert(s.subrange(0, 1) =~= one);
            assert(s.skip(1) =~= rest);
            let all = with + tail;
            assert(replace(s, one, with) == all);
            assert forall|i: int| 0 <= i < all.len() implies #[trigger] all[i] != d by {
                if i < with.len() {
                    assert(all[i] == with[i]);
                } else {
                    assert(all[i] == tail[i - with.len()]);
                }
            }
        } else {
            assert(s.subrange(0, 1)[0] == s[0]);
            let all = seq![s[0]] + tail;
            assert(replace(s, one, with) == all);
            assert forall|i: int| 0 <= i < all.len() implies #[trigger] all[i] != d by {
                if i > 0 {
                    assert(all[i] == tail[i - 1]);
                }
            }
        }
    }
}

/// A slug holds no spaces, apostrophes or commas.
pub proof fn law_slugs_are_free_of_marks(name: Seq<char>)
    ensures
        free_of(slug(name), ' '),
        free_of(slug(name), '\''),
        free_of(slug(name), ','),
{
    reveal_strlit("'");
    reveal_strlit(",");
    reveal_strlit(" ");
    reveal_strlit("-");
    reveal_strlit("");
    assert("'"@ =~= seq!['\'']);
    assert(","@ =~= seq![',']);
    assert(" "@ =~= seq![' ']);
    assert("-"@ =~= seq!['-']);
    assert(""@ =~= Seq::empty());
    let dashed = replace(replace(trim(name), " // "@, "-"@), "//"@, "-"@);
    let a = replace(dashed, "'"@, ""@);
    lemma_replaced_free(dashed, '\'', Seq::empty(), '\'');
    let b = replace(a, ","@, ""@);
    lemma_replaced_free(a, ',', Seq::empty(), '\'');
    lemma_replaced_free(a, ',', Seq::empty(), ',');
    lemma_replaced_free(b, ' ', seq!['-'], '\'');
    lemma_replaced_free(b, ' ', seq!['-'], ',');
    lemma_replaced_free(b, ' ', seq!['-'], ' ');
}

proof fn lemma_unreplaced(s: Seq<char>, p: Seq<char>, with: Seq<char>)
    requires
        p.len() > 0,
        free_of(s, p[0]),
    ensures
        replace(s, p, with) == s,
    decreases s.len(),
{
    if s.len() >= p.len() {
        assert(s.subrange(0, p.len() as int)[0] == s[0]);
        let rest = s.skip(1);
        assert forall|i: int| 0 <= i < rest.len() implies #[trigger] rest[i] != p[0] by {
            assert(rest[i] == s[i + 1]);
        }
        lemma_unreplaced(rest, p, with);
        assert(seq![s[0]] + rest =~= s);
    }
}

proof fn lemma_replace_one(a: Seq<char>, c: char, b: Seq<char>, with: Seq<char>)
    requires
        free_of(a, c),
        free_of(b, c),
    ensures
        replace(a + (seq![c] + b), seq![c], with) == a + (with + b),
    decreases a.len(),
{
    let one = seq![c];
    let s = a + (one + b);
    if a.len() == 0 {
        assert(s =~= one + b);
        assert(s.subrange(0, 1) =~= one);
        assert(s.skip(1) =~= b);
        lemma_unreplaced(b, one, with);
        assert(a + (with + b) =~= with + b);
    } else {
        assert(s[0] == a[0]);
        assert(s.subrange(0, 1)[0] == a[0]);
        let rest = a.skip(1);
        assert forall|i: int| 0 <= i < rest.len() implies #[trigger] rest[i] != c by {
            assert(rest[i] == a[i + 1]);
        }
        lemma_replace_one(rest, c, b, with);
        assert(s.skip(1) =~= rest + (one + b));
        assert(seq![a[0]] + (rest + (with + b)) =~= a + (with + b));
    }
}

/// A word as it stands in a slug: no white space, marks or slashes.
pub open spec fn plain_word(s: Seq<char>) -> bool {
    &&& s.len() > 0
    &&& !is_white(s[0]) && !is_white(s.last())
    &&& free_of(s, ' ') && free_of(s, '\'') && free_of(s, ',') && free_of(s, '/')
}

proof fn lemma_slug_marks()
    ensures
        "'"@ == seq!['\''],
        ","@ == seq![','],
        " "@ == seq![' '],
        "-"@ == seq!['-'],
        ""@ == Seq::<char>::empty(),
        " // "@.len() == 4 && " // "@[0] == ' ' && " // "@[1] == '/',
        "//"@.len() == 2 && "//"@[0] == '/',
{
    reveal_strlit("'");
    reveal_strlit(",");
    reveal_strlit(" ");
    reveal_strlit("-");
    reveal_strlit("");
    reveal_strlit(" // ");
    reveal_strlit("//");
    assert("'"@ =~= seq!['\'']);
    assert(","@ =~= seq![',']);
    assert(" "@ =~= seq![' ']);
    assert("-"@ =~= seq!['-']);
    assert(""@ =~= Seq::empty());
}

proof fn lemma_free_sum(a: Seq<char>, b: Seq<char>, c: char)
    requires
        free_of(a, c),
        free_of(b, c),
    ensures
        free_of(a + b, c),
{
    let s = a + b;
    assert forall|i: int| 0 <= i < s.len() implies #[trigger] s[i] != c by {
        if i < a.len() {
            assert(s[i] == a[i]);
        } else {
            assert(s[i] == b[i - a.len()]);
        }
    }
}

/// In a slug, an apostrophe or a comma between two words goes; a single word stays
/// as it is.
pub proof fn law_slugs_drop_marks(a: Seq<char>, b: Seq<char>)
    requires
        plain_word(a),
        plain_word(b),
    ensures
        slug(a) == a,
        slug(a + (seq!['\''] + b)) == a + b,
        slug(a + (seq![','] + b)) == a + b,
{
    lemma_slug_marks();
    lemma_plain_slug(a);
    let ab = a + b;
    lemma_free_sum(a, b, ' ');
    lemma_free_sum(a, b, '\'');
    lemma_free_sum(a, b, ',');
    lemma_free_sum(a, b, '/');
    assert(a + (Seq::<char>::empty() + b) =~= ab);
    let s = a + (seq!['\''] + b);
    lemma_free_sum(seq!['\''], b, ' ');
    lemma_free_sum(seq!['\''], b, '/');
    lemma_free_sum(a, seq!['\''] + b, ' ');
    lemma_free_sum(a, seq!['\''] + b, '/');
    assert(s[0] == a[0] && s.last() == b.last());
    lemma_trim(s);
    lemma_unreplaced(s, " // "@, "-"@);
    lemma_unreplaced(s, "//"@, "-"@);
    lemma_replace_one(a, '\'', b, Seq::empty());
    lemma_unreplaced(ab, ","@, ""@);
    lemma_unreplaced(ab, " "@, "-"@);
    let t = a + (seq![','] + b);
    lemma_free_sum(seq![','], b, ' ');
    lemma_free_sum(seq![','], b, '/');
    lemma_free_sum(seq![','], b, '\'');
    lemma_free_sum(a, seq![','] + b, ' ');
    lemma_free_sum(a, seq![','] + b, '/');
    lemma_free_sum(a, seq![','] + b, '\'');
    assert(t[0] == a[0] && t.last() == b.last());
    lemma_trim(t);
    lemma_unreplaced(t, " // "@, "-"@);
    lemma_unreplaced(t, "//"@, "-"@);
    lemma_unreplaced(t, "'"@, ""@);
    lemma_replace_one(a, ',', b, Seq::empty());
}

proof fn lemma_plain_slug(s: Seq<char>)
    requires
        plain_word(s),
    ensures
        slug(s) == s,
{
    lemma_slug_marks();
    lemma_trim(s);
    lemma_unreplaced(s, " // "@, "-"@);
    lemma_unreplaced(s, "//"@, "-"@);
    lemma_unreplaced(s, "'"@, ""@);
    lemma_unreplaced(s, ","@, ""@);
    lemma_unreplaced(s, " "@, "-"@);
}

proof fn lemma_no_slashes(s: Seq<char>)
    requires
        free_of(s, '/'),
    ensures
        replace(s, " // "@, "-"@) == s,
    decreases s.len(),
{
    lemma_slug_marks();
    if s.len() >= 4 {
        assert(s.subrange(0, 4)[1] == s[1]);
        let rest = s.skip(1);
        assert forall|i: int| 0 <= i < rest.len() implies #[trigger] rest[i] != '/' by {
            assert(rest[i] == s[i + 1]);
        }
        lemma_no_slashes(rest);
        assert(seq![s[0]] + rest =~= s);
    }
}

/// In a slug, a space between two words is a hyphen.
pub proof fn law_slugs_join_words(a: Seq<char>, b: Seq<char>)
    requires
        plain_word(a),
        plain_word(b),
    ensures
        slug(a + (seq![' '] + b)) == a + (seq!['-'] + b),
{
    lemma_slug_marks();
    let s = a + (seq![' '] + b);
    lemma_free_sum(seq![' '], b, '\'');
    lemma_free_sum(seq![' '], b, ',');
    lemma_free_sum(seq![' '], b, '/');
    lemma_free_sum(a, seq![' '] + b, '\'');
    lemma_free_sum(a, seq![' '] + b, ',');
    lemma_free_sum(a, seq![' '] + b, '/');
    assert(s[0] == a[0] && s.last() == b.last());
    lemma_trim(s);
    lemma_no_slashes(s);
    lemma_unreplaced(s, "//"@, "-"@);
    lemma_unreplaced(s, "'"@, ""@);
    lemma_unreplaced(s, ","@, ""@);
    lemma_replace_one(a, ' ', b, seq!['-']);
}

} // verus!
