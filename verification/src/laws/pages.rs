//! What the pages of the stores are read into.

use crate::html::{attr_or_empty, concat, inner_text, Elem, RowView};
use crate::output::price_text;
use crate::stores::adamstuen::Adamstuen;
use crate::stores::cardmarket::{
    eur_amount, page_verdict, read_sellers, rows_in, seller_in, sellers_in,
};
use crate::stores::collectible::{self, Collectible};
use crate::stores::korthaien::Korthaien;
use crate::stores::midgard::{self, Midgard};
use crate::stores::page::{cell, finished, prices_fit, raw_products, read_rows, Raw, RowReader};
use crate::stores::pokeboks::{self, Pokeboks};
use crate::stores::price::ScrapeError;
use crate::stores::printed::{
    fixed_point, law_adamstuen_reads_prices, law_collectible_reads_prices,
    law_euro_sign_prices_read, law_korthaien_reads_prices, law_midgard_reads_prices,
    law_pokeboks_reads_prices, lemma_decimal,
};
use crate::text::{
    contains, decimal, find_from, is_white, lowercase, matches_at, parse_number, starts_with, trim,
    trim_end, trim_start,
};
use vstd::prelude::*;

verus! {

/// CardMarket pages are read row by row: the offers of rows in a row are the offers
/// of the first and then those of the others.
pub proof fn law_offers_row_by_row(a: Seq<RowView>, b: Seq<RowView>)
    ensures
        sellers_in(a + b) == sellers_in(a) + sellers_in(b),
    decreases b.len(),
{
    if b.len() == 0 {
        assert(a + b =~= a);
        assert(sellers_in(a) + sellers_in(b) =~= sellers_in(a));
    } else {
        law_offers_row_by_row(a, b.drop_last());
        assert((a + b).drop_last() =~= a + b.drop_last());
        assert((a + b).last() == b.last());
        assert(sellers_in(a + b) =~= sellers_in(a) + sellers_in(b));
    }
}

/// Where every row shows an offer there are as many offers as rows, each in its
/// place; a row without one is passed over.
pub proof fn law_every_row_is_read(rows: Seq<RowView>)
    ensures
        (forall|i: int| 0 <= i < rows.len() ==> seller_in(#[trigger] rows[i]) is Some) ==> {
            &&& sellers_in(rows).len() == rows.len()
            &&& forall|i: int|
                0 <= i < rows.len() ==> Some(#[trigger] sellers_in(rows)[i]) == seller_in(rows[i])
        },
        (forall|i: int| 0 <= i < rows.len() ==> seller_in(#[trigger] rows[i]) is None)
            ==> sellers_in(rows).len() == 0,
        read_sellers(rows) matches Ok(found) ==> found == sellers_in(rows),
        read_sellers(rows) is Ok <==> forall|i: int|
            0 <= i < sellers_in(rows).len() ==> (#[trigger] sellers_in(rows)[i]).cents
                <= 0xffff_ffff,
    decreases rows.len(),
{
    if rows.len() > 0 {
        let rest = rows.drop_last();
        law_every_row_is_read(rest);
        assert(forall|i: int| 0 <= i < rest.len() ==> rest[i] == rows[i]);
        assert(rows[rows.len() - 1] == rows.last());
        if forall|i: int| 0 <= i < rows.len() ==> seller_in(#[trigger] rows[i]) is Some {
            assert forall|i: int| 0 <= i < rest.len() implies seller_in(#[trigger] rest[i]) is Some by {
                assert(rows[i] == rest[i]);
            }
        }
        if forall|i: int| 0 <= i < rows.len() ==> seller_in(#[trigger] rows[i]) is None {
            assert forall|i: int| 0 <= i < rest.len() implies seller_in(#[trigger] rest[i]) is None by {
                assert(rows[i] == rest[i]);
            }
        }
    }
}

/// A text without white space at its ends.
pub open spec fn tidy(s: Seq<char>) -> bool {
    s.len() > 0 && !is_white(s[0]) && !is_white(s.last())
}

/// Letters, digits and punctuation of ASCII are no white space; a space, a tab, a
/// line feed and a no-break space are.
pub proof fn law_white_space(c: char)
    ensures
        '!' <= c <= '~' ==> !is_white(c),
        c == ' ' || c == '\t' || c == '\n' || c == '\r' || c == '\u{a0}' ==> is_white(c),
{
}

/// The text of an element with one text node is the node, without white space
/// around it.
pub proof fn law_text_of_one_node(e: Elem, name: Seq<char>)
    requires
        tidy(name),
    ensures
        e.texts == seq![name] ==> inner_text(e) == name,
        e.texts == seq![seq![' '] + name + seq!['\n']] ==> inner_text(e) == name,
        e.texts == seq![name] ==> concat(e.texts) == name,
        e.texts.len() == 0 ==> inner_text(e).len() == 0,
{
    lemma_concat_one(name);
    let wide = seq![' '] + name + seq!['\n'];
    lemma_concat_one(wide);
    assert(trim(name) == name);
    assert(wide.skip(1) =~= name + seq!['\n']);
    let tail = name + seq!['\n'];
    assert(tail[0] == name[0]);
    assert(tail.drop_last() =~= name);
    assert(trim_start(wide) == tail) by {
        assert(trim_start(tail) == tail);
    }
    assert(trim_end(tail) == trim_end(name));
    if e.texts.len() == 0 {
        assert(concat(e.texts).len() == 0);
    }
}

pub proof fn lemma_concat_one(s: Seq<char>)
    ensures
        concat(seq![s]) == s,
{
    assert(seq![s].drop_last() =~= Seq::empty());
    reveal_with_fuel(concat, 2);
    assert(concat(seq![s]) =~= s);
}

/// A row of a CardMarket page with a seller's name and link and a price in euros is
/// that seller's offer, at that price.
pub proof fn law_row_is_the_offer(
    row: RowView,
    link: Elem,
    price: Elem,
    name: Seq<char>,
    href: Seq<char>,
    whole: u32,
    frac: u32,
)
    requires
        row.cells.len() == 3,
        row.cells[0] == Some(link),
        row.cells[1] == Some(price),
        link.texts == seq![name],
        tidy(name),
        link.attr == Some(href),
        href.len() > 0,
        whole <= 42949671,
        frac < 100,
        concat(price.texts) == fixed_point(whole as nat, ',', frac as nat) + " €"@,
    ensures
        seller_in(row) matches Some(s) && {
            &&& s.name == name
            &&& s.cents == 100 * whole + frac
            &&& (starts_with(href, "http"@) ==> s.url == href)
            &&& (!starts_with(href, "http"@) ==> s.url == "https://www.cardmarket.com"@ + href)
            &&& (row.cells[2] is None ==> s.count == 1)
        },
        forall|n: u32|
            row.cells[2] matches Some(c) && c.texts == seq![#[trigger] decimal(n as nat)] ==> (
            seller_in(row)->0).count == n,
{
    law_text_of_one_node(link, name);
    law_euro_sign_prices_read(whole, frac);
    reveal_strlit("https://www.cardmarket.com");
    assert(cell(row, 0) == Some(link) && cell(row, 1) == Some(price));
    let text = concat(price.texts);
    assert(eur_amount(text) is Some);
    assert(eur_amount(text)->0 == 100 * whole + frac);
    assert forall|n: u32|
        row.cells[2] matches Some(c) && c.texts == seq![#[trigger] decimal(n as nat)] implies (
    seller_in(row)->0).count == n by {
        let c = row.cells[2]->0;
        crate::stores::printed::lemma_decimal(n as nat);
        crate::stores::printed::lemma_parse(decimal(n as nat));
        let d = decimal(n as nat);
        assert(crate::text::is_digit(d[0]) && crate::text::is_digit(d[d.len() - 1]));
        law_text_of_one_node(c, d);
    }
}

/// A row without a seller, a link or a readable price shows no offer.
pub proof fn law_row_without_an_offer(row: RowView)
    ensures
        row.cells.len() < 2 ==> seller_in(row) is None,
        row.cells.len() >= 2 && (row.cells[0] is None || row.cells[1] is None) ==> seller_in(
            row,
        ) is None,
        row.cells.len() >= 2 ==> (row.cells[0] matches Some(link) && link.texts.len() == 0
            ==> seller_in(row) is None),
        row.cells.len() >= 2 ==> (row.cells[0] matches Some(link) && link.attr is None
            ==> seller_in(row) is None),
        row.cells.len() >= 2 ==> (row.cells[1] matches Some(price) && eur_amount(
            concat(price.texts),
        ) is None ==> seller_in(row) is None),
{
    if row.cells.len() >= 2 {
        if let Some(link) = row.cells[0] {
            if link.texts.len() == 0 {
                assert(concat(link.texts).len() == 0);
                assert(inner_text(link).len() == 0);
            }
        }
    }
}

/// A page counts as the card's page exactly if its heading names the card, or if it
/// has no heading text and shows offers.
pub proof fn law_page_verdict(card: Seq<char>, heading: Option<Seq<char>>, offers: nat)
    ensures
        heading matches Some(h) && h.len() > 0 ==> (page_verdict(card, heading, offers) is Ok
            <==> contains(lowercase(heading->0), lowercase(card))),
        heading is None || heading->0.len() == 0 ==> (page_verdict(card, heading, offers) is Ok
            <==> offers > 0),
{
}

/// The content of a load-more response is what stands between its tags.
pub proof fn law_rows_between_tags(a: Seq<char>, b: Seq<char>, c: Seq<char>)
    requires
        forall|i: int| 0 <= i < a.len() ==> #[trigger] a[i] != '<',
        forall|i: int| 0 <= i < b.len() ==> #[trigger] b[i] != '<',
    ensures
        rows_in(a + "<rows>"@ + b + "</rows>"@ + c) == Some(b),
        rows_in(a) is None,
        rows_in(a + "<rows>"@ + b) is None,
{
    reveal_strlit("<rows>");
    reveal_strlit("</rows>");
    let open = "<rows>"@;
    let close = "</rows>"@;
    let s = a + open + b + close + c;
    lemma_first_at(s, open, 0, a.len() as int);
    let rest = s.skip(a.len() as int + open.len());
    assert(rest =~= b + close + c);
    lemma_first_at(rest, close, 0, b.len() as int);
    assert(rest.take(b.len() as int) =~= b);
    lemma_nowhere(a, open, 0);
    let t = a + open + b;
    lemma_first_at(t, open, 0, a.len() as int);
    let u = t.skip(a.len() as int + open.len());
    assert(u =~= b);
    lemma_nowhere(b, close, 0);
}

proof fn lemma_first_at(s: Seq<char>, p: Seq<char>, from: int, at: int)
    requires
        p.len() > 0,
        0 <= from <= at,
        at + p.len() <= s.len(),
        s.subrange(at, at + p.len()) =~= p,
        forall|i: int| from <= i < at ==> #[trigger] s[i] != p[0],
    ensures
        find_from(s, p, from) == Some(at),
    decreases at - from,
{
    if from < at {
        assert(s.subrange(from, from + p.len())[0] == s[from]);
        assert(!matches_at(s, from, p));
        lemma_first_at(s, p, from + 1, at);
    }
}

proof fn lemma_nowhere(s: Seq<char>, p: Seq<char>, from: int)
    requires
        p.len() > 0,
        0 <= from,
        forall|i: int| 0 <= i < s.len() ==> #[trigger] s[i] != p[0],
    ensures
        find_from(s, p, from) is None,
    decreases s.len() - from,
{
    if from + p.len() <= s.len() {
        assert(s.subrange(from, from + p.len())[0] == s[from]);
        assert(!matches_at(s, from, p));
        lemma_nowhere(s, p, from + 1);
    }
}

/// The search pages of all stores are read row by row, in order, and a row without
/// a product is passed over.
pub proof fn law_products_row_by_row<R: RowReader>(a: Seq<RowView>, b: Seq<RowView>)
    ensures
        raw_products::<R>(a + b) == raw_products::<R>(a) + raw_products::<R>(b),
        b.len() == 1 ==> raw_products::<R>(b) == match R::product(b[0]) {
            Some(p) => seq![p],
            None => Seq::empty(),
        },
    decreases b.len(),
{
    if b.len() == 0 {
        assert(a + b =~= a);
        assert(raw_products::<R>(a) + raw_products::<R>(b) =~= raw_products::<R>(a));
    } else {
        law_products_row_by_row::<R>(a, b.drop_last());
        assert((a + b).drop_last() =~= a + b.drop_last());
        assert((a + b).last() == b.last());
        assert(raw_products::<R>(a + b) =~= raw_products::<R>(a) + raw_products::<R>(b));
        if b.len() == 1 {
            assert(b.drop_last() =~= Seq::empty());
            assert(raw_products::<R>(b.drop_last()) =~= Seq::empty());
            assert(raw_products::<R>(b) =~= match R::product(b[0]) {
                Some(p) => seq![p],
                None => Seq::empty(),
            });
        }
    }
}

/// The products keep their names, prices, links and stock; a price beyond 32 bits
/// is an error.
pub proof fn law_products_keep_their_prices<R: RowReader>(rows: Seq<RowView>)
    ensures
        ({
            let raws = raw_products::<R>(rows);
            match read_rows::<R>(rows) {
                Ok(found) => {
                    &&& found.len() == raws.len()
                    &&& forall|i: int|
                        0 <= i < found.len() ==> (#[trigger] found[i]).name == raws[i].name
                            && found[i].price == raws[i].amount && found[i].url == raws[i].url
                            && found[i].in_stock == raws[i].in_stock
                },
                Err(e) => e == ScrapeError::PriceTooLarge && exists|i: int|
                    0 <= i < raws.len() && (#[trigger] raws[i]).amount > 0xffff_ffff,
            }
        }),
{
    let raws = raw_products::<R>(rows);
    if prices_fit(raws) {
        let found = finished(raws);
        assert forall|i: int| 0 <= i < found.len() implies (#[trigger] found[i]).price
            == raws[i].amount by {
            assert(raws[i].amount <= 0xffff_ffff);
        }
    }
}

/// A row with a name, a link and a printed price.
pub open spec fn shows(
    title: Option<Elem>,
    link: Option<Elem>,
    price: Option<Elem>,
    name: Seq<char>,
    url: Seq<char>,
    text: Seq<char>,
) -> bool {
    &&& title matches Some(t) && t.texts == seq![name]
    &&& link matches Some(l) && l.attr == Some(url)
    &&& price matches Some(p) && p.texts == seq![text]
    &&& tidy(name)
    &&& url.len() > 0
}

/// A row of pokeboks.no is the product that it shows, in stock if it says so.
pub proof fn law_pokeboks_rows(row: RowView, name: Seq<char>, url: Seq<char>, x: u32)
    requires
        row.cells.len() == 3,
        shows(row.cells[0], row.cells[1], row.cells[2], name, url, price_text(x as nat)),
    ensures
        <Pokeboks as RowReader>::product(row) == Some(
            Raw {
                name,
                amount: x as nat,
                url,
                in_stock: row.attr matches Some(class) && contains(class, "instock"@),
            },
        ),
{
    let title = row.cells[0]->0;
    law_text_of_one_node(title, name);
    lemma_concat_one(price_text(x as nat));
    law_pokeboks_reads_prices(x);
    assert(cell(row, 0) == row.cells[0] && cell(row, 1) == row.cells[1] && cell(row, 2)
        == row.cells[2]);
    assert(pokeboks::price_amount(price_text(x as nat)) is Some);
    if row.attr is None {
        reveal_strlit("instock");
        let none = attr_or_empty(row.attr);
        if contains(none, "instock"@) {
            let i = choose|i: int| #[trigger] matches_at(none, i, "instock"@);
        }
    }
}

/// A row of collectible.no is the product that it shows.
pub proof fn law_collectible_rows(row: RowView, name: Seq<char>, url: Seq<char>, x: u32)
    requires
        row.cells.len() == 2,
        shows(row.cells[0], row.cells[0], row.cells[1], name, url, price_text(x as nat)),
    ensures
        <Collectible as RowReader>::product(row) == Some(
            Raw { name, amount: x as nat, url, in_stock: true },
        ),
{
    let title = row.cells[0]->0;
    law_text_of_one_node(title, name);
    lemma_concat_one(price_text(x as nat));
    law_collectible_reads_prices(x);
    assert(cell(row, 0) == row.cells[0] && cell(row, 1) == row.cells[1]);
    assert(collectible::price_amount(price_text(x as nat)) is Some);
}

/// The rows of adamstuenretro.no: the named link, the price in whole kroner, and a
/// button for what is in stock.
pub proof fn law_adamstuen_rows(row: RowView, name: Seq<char>, url: Seq<char>, kroner: u32)
    requires
        row.cells.len() == 3,
        shows(row.cells[0], row.cells[0], row.cells[1], name, url, decimal(kroner as nat) + " NOK"@),
        row.attr is None,
    ensures
        <Adamstuen as RowReader>::product(row) == Some(
            Raw { name, amount: (kroner * 100) as nat, url, in_stock: row.cells[2] is Some },
        ),
{
    let title = row.cells[0]->0;
    let d = decimal(kroner as nat);
    law_text_of_one_node(title, name);
    lemma_concat_one(d + " NOK"@);
    lemma_decimal(kroner as nat);
    assert(crate::text::is_digit(d[0]) && crate::text::is_digit(d[d.len() - 1]));
    crate::stores::printed::lemma_digits_kept(d);
    law_adamstuen_reads_prices(d);
    assert(cell(row, 0) == row.cells[0] && cell(row, 1) == row.cells[1] && cell(row, 2)
        == row.cells[2]);
    reveal_strlit("out-of-stock");
    let none = attr_or_empty(row.attr);
    if contains(none, "out-of-stock"@) {
        let i = choose|i: int| #[trigger] matches_at(none, i, "out-of-stock"@);
    }
}

/// The rows of korthaien.no: the named link, the price in whole kroner, and the
/// number of pieces in stock.
pub proof fn law_korthaien_rows(row: RowView, name: Seq<char>, url: Seq<char>, kroner: u32)
    requires
        row.cells.len() == 2,
        shows(row.cells[0], row.cells[0], row.cells[1], name, url, decimal(kroner as nat) + ",-"@),
    ensures
        <Korthaien as RowReader>::product(row) == Some(
            Raw {
                name,
                amount: (kroner * 100) as nat,
                url,
                in_stock: row.attr matches Some(pieces) && (parse_number(pieces) matches Some(n)
                    && n > 0),
            },
        ),
{
    let title = row.cells[0]->0;
    law_text_of_one_node(title, name);
    lemma_concat_one(decimal(kroner as nat) + ",-"@);
    reveal_strlit(",-");
    law_korthaien_reads_prices(kroner, ",-"@);
    assert(cell(row, 0) == row.cells[0] && cell(row, 1) == row.cells[1]);
}

/// The rows of midgardgames.no: the named link, in full or from the root of the
/// site, and the price; a row that says it is sold out is none.
pub proof fn law_midgard_rows(row: RowView, name: Seq<char>, url: Seq<char>, x: u32)
    requires
        row.cells.len() == 2,
        shows(row.cells[0], row.cells[0], row.cells[1], name, url, price_text(x as nat)),
        tidy(price_text(x as nat)),
        row.attr is None,
    ensures
        contains(lowercase(price_text(x as nat)), "utsolgt"@) ==> <Midgard as RowReader>::product(
            row,
        ) is None,
        !contains(lowercase(price_text(x as nat)), "utsolgt"@) ==> <Midgard as RowReader>::product(
            row,
        ) == Some(
            Raw {
                name,
                amount: x as nat,
                url: if starts_with(url, "http"@) {
                    url
                } else {
                    "https://midgardgames.no"@ + url
                },
                in_stock: true,
            },
        ),
{
    let title = row.cells[0]->0;
    let price = row.cells[1]->0;
    law_text_of_one_node(title, name);
    law_text_of_one_node(price, price_text(x as nat));
    law_midgard_reads_prices(x);
    assert(midgard::price_amount(price_text(x as nat)) is Some);
    assert(cell(row, 0) == row.cells[0] && cell(row, 1) == row.cells[1]);
    reveal_strlit("sold-out");
    let none = attr_or_empty(row.attr);
    if contains(none, "sold-out"@) {
        let i = choose|i: int| #[trigger] matches_at(none, i, "sold-out"@);
    }
}

/// A row without one of its cells shows no product at any store.
pub proof fn law_rows_without_a_product(row: RowView)
    ensures
        row.cells.len() < 2 || row.cells[0] is None || row.cells[1] is None ==> {
            &&& <Pokeboks as RowReader>::product(row) is None
            &&& <Collectible as RowReader>::product(row) is None
            &&& <Korthaien as RowReader>::product(row) is None
            &&& <Midgard as RowReader>::product(row) is None
            &&& <Adamstuen as RowReader>::product(row) is None
        },
        row.cells.len() == 3 && row.cells[2] is None ==> <Pokeboks as RowReader>::product(
            row,
        ) is None,
        row.attr matches Some(class) && contains(class, "sold-out"@)
            ==> <Midgard as RowReader>::product(row) is None,
        row.attr matches Some(class) && contains(class, "out-of-stock"@)
            ==> <Adamstuen as RowReader>::product(row) is None,
{
}

} // verus!
