//! Reading values out of HTML pages.

use crate::text::{from_chars, texts, to_chars, trim, trimmed};
use scraper::{Html, Selector};
use vstd::prelude::*;

verus! {

/// An element of a page: its text nodes in document order, and the value of the
/// attribute that was asked for, if it has it.
pub struct Element {
    pub texts: Vec<String>,
    pub attr: Option<String>,
}

/// An `Element` as plain text.
pub struct Elem {
    pub texts: Seq<Seq<char>>,
    pub attr: Option<Seq<char>>,
}

pub open spec fn opt_text(s: Option<String>) -> Option<Seq<char>> {
    match s {
        Some(t) => Some(t@),
        None => None,
    }
}

impl View for Element {
    type V = Elem;

    open spec fn view(&self) -> Elem {
        Elem { texts: texts(self.texts@), attr: opt_text(self.attr) }
    }
}

pub open spec fn opt_elem(e: Option<Element>) -> Option<Elem> {
    match e {
        Some(x) => Some(x@),
        None => None,
    }
}

pub open spec fn elems(v: Seq<Element>) -> Seq<Elem> {
    v.map_values(|e: Element| e@)
}

pub open spec fn opt_elems(v: Seq<Option<Element>>) -> Seq<Option<Elem>> {
    v.map_values(|e: Option<Element>| opt_elem(e))
}

/// The elements of a document that match a selector, with the given attribute;
/// nothing for an invalid selector.
pub uninterp spec fn document_elements(html: Seq<char>, css: Seq<char>, attr: Seq<char>) -> Option<
    Seq<Elem>,
>;

/// For each element of a document that matches `row`, its first descendant that
/// matches `css`; nothing for an invalid selector.
pub uninterp spec fn document_firsts(
    html: Seq<char>,
    row: Seq<char>,
    css: Seq<char>,
    attr: Seq<char>,
) -> Option<Seq<Option<Elem>>>;

/// The elements of a fragment that match a selector, with the given attribute;
/// nothing for an invalid selector.
pub uninterp spec fn fragment_elements(html: Seq<char>, css: Seq<char>, attr: Seq<char>) -> Option<
    Seq<Elem>,
>;

/// For each element of a fragment that matches `row`, its first descendant that
/// matches `css`; nothing for an invalid selector.
pub uninterp spec fn fragment_firsts(
    html: Seq<char>,
    row: Seq<char>,
    css: Seq<char>,
    attr: Seq<char>,
) -> Option<Seq<Option<Elem>>>;

/// scraper's `Html::parse_document` and `Html::select`: the elements that match
/// the selector in the order in which the parser made them, each with its text nodes and one attribute.
/// What matches is a function of the page, the selector and the attribute name.
#[verifier::external_body]
pub(crate) fn document_select(html: &str, css: &str, attr: &str) -> (found: Option<Vec<Element>>)
    ensures
        match found {
            Some(v) => document_elements(html@, css@, attr@) == Some(elems(v@)),
            None => document_elements(html@, css@, attr@) is None,
        },
{
    let selector = Selector::parse(css).ok()?;
    let document = Html::parse_document(html);
    let found = document.select(&selector).map(|el| Element {
        texts: el.text().map(str::to_string).collect(),
        attr: el.attr(attr).map(str::to_string),
    });
    Some(found.collect())
}

/// scraper's `Html::parse_document` and `ElementRef::select`: for each element
/// that matches `row`, in the order in which the parser made them, the first of its descendants that
/// matches `css`.  There is one entry for each element that `document_select`
/// finds for `row`.
#[verifier::external_body]
pub(crate) fn document_select_in(html: &str, row: &str, css: &str, attr: &str) -> (found: Option<
    Vec<Option<Element>>,
>)
    ensures
        match found {
            Some(v) => document_firsts(html@, row@, css@, attr@) == Some(opt_elems(v@)),
            None => document_firsts(html@, row@, css@, attr@) is None,
        },
        found matches Some(v) ==> forall|a: Seq<char>|
            (#[trigger] document_elements(html@, row@, a)) matches Some(rows) && rows.len()
                == v@.len(),
{
    let rows = Selector::parse(row).ok()?;
    let selector = Selector::parse(css).ok()?;
    let document = Html::parse_document(html);
    let found = document.select(&rows).map(|r| {
        r.select(&selector).next().map(|el| Element {
            texts: el.text().map(str::to_string).collect(),
            attr: el.attr(attr).map(str::to_string),
        })
    });
    Some(found.collect())
}

/// scraper's `Html::parse_fragment` and `Html::select`, as `document_select` for
/// a piece of a page.
#[verifier::external_body]
pub(crate) fn fragment_select(html: &str, css: &str, attr: &str) -> (found: Option<Vec<Element>>)
    ensures
        match found {
            Some(v) => fragment_elements(html@, css@, attr@) == Some(elems(v@)),
            None => fragment_elements(html@, css@, attr@) is None,
        },
{
    let selector = Selector::parse(css).ok()?;
    let fragment = Html::parse_fragment(html);
    let found = fragment.select(&selector).map(|el| Element {
        texts: el.text().map(str::to_string).collect(),
        attr: el.attr(attr).map(str::to_string),
    });
    Some(found.collect())
}

/// scraper's `Html::parse_fragment` and `ElementRef::select`, as
/// `document_select_in` for a piece of a page.
#[verifier::external_body]
pub(crate) fn fragment_select_in(html: &str, row: &str, css: &str, attr: &str) -> (found: Option<
    Vec<Option<Element>>,
>)
    ensures
        match found {
            Some(v) => fragment_firsts(html@, row@, css@, attr@) == Some(opt_elems(v@)),
            None => fragment_firsts(html@, row@, css@, attr@) is None,
        },
        found matches Some(v) ==> forall|a: Seq<char>|
            (#[trigger] fragment_elements(html@, row@, a)) matches Some(rows) && rows.len()
                == v@.len(),
{
    let rows = Selector::parse(row).ok()?;
    let selector = Selector::parse(css).ok()?;
    let fragment = Html::parse_fragment(html);
    let found = fragment.select(&rows).map(|r| {
        r.select(&selector).next().map(|el| Element {
            texts: el.text().map(str::to_string).collect(),
            attr: el.attr(attr).map(str::to_string),
        })
    });
    Some(found.collect())
}

pub open spec fn elements(
    html: Seq<char>,
    fragment: bool,
    css: Seq<char>,
    attr: Seq<char>,
) -> Option<Seq<Elem>> {
    if fragment {
        fragment_elements(html, css, attr)
    } else {
        document_elements(html, css, attr)
    }
}

pub open spec fn firsts(
    html: Seq<char>,
    fragment: bool,
    row: Seq<char>,
    css: Seq<char>,
    attr: Seq<char>,
) -> Option<Seq<Option<Elem>>> {
    if fragment {
        fragment_firsts(html, row, css, attr)
    } else {
        document_firsts(html, row, css, attr)
    }
}

/// One row of a page: an attribute of the row, and the first element in it for
/// each of several selectors.
pub struct Row {
    pub attr: Option<String>,
    pub cells: Vec<Option<Element>>,
}

/// A `Row` as plain text.
pub struct RowView {
    pub attr: Option<Seq<char>>,
    pub cells: Seq<Option<Elem>>,
}

impl View for Row {
    type V = RowView;

    open spec fn view(&self) -> RowView {
        RowView { attr: opt_text(self.attr), cells: opt_elems(self.cells@) }
    }
}

pub open spec fn row_views(v: Seq<Row>) -> Seq<RowView> {
    v.map_values(|r: Row| r@)
}

/// A selector for a cell, and the attribute to read there.
pub struct Query {
    pub css: &'static str,
    pub attr: &'static str,
}

/// The rows of a page: every element that matches `css`, with its cells.  Nothing
/// if a selector is invalid.
pub open spec fn page_rows(
    html: Seq<char>,
    fragment: bool,
    css: Seq<char>,
    attr: Seq<char>,
    queries: Seq<Query>,
) -> Option<Seq<RowView>> {
    match elements(html, fragment, css, attr) {
        Some(els) if forall|q: int|
            0 <= q < queries.len() ==> firsts(
                html,
                fragment,
                css,
                (#[trigger] queries[q]).css@,
                queries[q].attr@,
            ) is Some => Some(
            Seq::new(
                els.len(),
                |i: int|
                    RowView {
                        attr: els[i].attr,
                        cells: Seq::new(
                            queries.len(),
                            |q: int|
                                firsts(
                                    html,
                                    fragment,
                                    css,
                                    queries[q].css@,
                                    queries[q].attr@,
                                )->0[i],
                        ),
                    },
            ),
        ),
        _ => None,
    }
}

fn copy_text(s: &Option<String>) -> (copy: Option<String>)
    ensures
        opt_text(copy) == opt_text(*s),
{
    match s {
        Some(t) => Some(t.clone()),
        None => None,
    }
}

/// A copy of a list of strings.
pub fn copy_texts(v: &Vec<String>) -> (copy: Vec<String>)
    ensures
        texts(copy@) == texts(v@),
{
    let mut copy: Vec<String> = Vec::new();
    let mut i: usize = 0;
    assert(texts(copy@) =~= texts(v@).take(0));
    while i < v.len()
        invariant
            i <= v@.len(),
            copy@.len() == i,
            texts(copy@) == texts(v@).take(i as int),
        decreases v@.len() - i,
    {
        let ghost before = copy@;
        copy.push(v[i].clone());
        proof {
            assert(texts(copy@) =~= texts(before).push(v@[i as int]@));
            assert(texts(v@).take(i + 1) =~= texts(v@).take(i as int).push(v@[i as int]@));
        }
        i += 1;
    }
    assert(texts(v@).take(i as int) =~= texts(v@));
    copy
}

fn copy_element(e: &Option<Element>) -> (copy: Option<Element>)
    ensures
        opt_elem(copy) == opt_elem(*e),
{
    match e {
        Some(x) => Some(Element { texts: copy_texts(&x.texts), attr: copy_text(&x.attr) }),
        None => None,
    }
}

/// The rows of a page.
pub fn scrape_rows(
    html: &str,
    fragment: bool,
    css: &str,
    attr: &str,
    queries: &Vec<Query>,
) -> (rows: Option<Vec<Row>>)
    ensures
        match rows {
            Some(v) => page_rows(html@, fragment, css@, attr@, queries@) == Some(row_views(v@)),
            None => page_rows(html@, fragment, css@, attr@, queries@) is None,
        },
{
    let found = if fragment {
        fragment_select(html, css, attr)
    } else {
        document_select(html, css, attr)
    };
    let els = match found {
        Some(els) => els,
        None => {
            return None;
        },
    };
    let ghost es = elems(els@);
    let mut columns: Vec<Vec<Option<Element>>> = Vec::new();
    let mut q: usize = 0;
    while q < queries.len()
        invariant
            es == elems(els@),
            elements(html@, fragment, css@, attr@) == Some(es),
            q <= queries@.len(),
            columns@.len() == q,
            forall|k: int|
                0 <= k < q ==> (#[trigger] columns@[k])@.len() == es.len() && firsts(
                    html@,
                    fragment,
                    css@,
                    queries@[k].css@,
                    queries@[k].attr@,
                ) == Some(opt_elems(columns@[k]@)),
        decreases queries@.len() - q,
    {
        let column = if fragment {
            fragment_select_in(html, css, queries[q].css, queries[q].attr)
        } else {
            document_select_in(html, css, queries[q].css, queries[q].attr)
        };
        match column {
            Some(c) => {
                proof {
                    if fragment {
                        assert(fragment_elements(html@, css@, attr@) == Some(es));
                    } else {
                        assert(document_elements(html@, css@, attr@) == Some(es));
                    }
                }
                columns.push(c);
            },
            None => {
                assert(firsts(
                    html@,
                    fragment,
                    css@,
                    queries@[q as int].css@,
                    queries@[q as int].attr@,
                ) is None);
                return None;
            },
        }
        q += 1;
    }
    let mut rows: Vec<Row> = Vec::new();
    let mut i: usize = 0;
    let ghost all = page_rows(html@, fragment, css@, attr@, queries@);
    proof {
        assert forall|k: int| 0 <= k < queries@.len() implies firsts(
            html@,
            fragment,
            css@,
            (#[trigger] queries@[k]).css@,
            queries@[k].attr@,
        ) is Some by {
            assert(columns@[k]@.len() == es.len());
        }
        assert(all is Some);
        assert(row_views(rows@) =~= all->0.take(0));
    }
    while i < els.len()
        invariant
            es == elems(els@),
            elements(html@, fragment, css@, attr@) == Some(es),
            columns@.len() == queries@.len(),
            forall|k: int|
                0 <= k < queries@.len() ==> (#[trigger] columns@[k])@.len() == es.len() && firsts(
                    html@,
                    fragment,
                    css@,
                    queries@[k].css@,
                    queries@[k].attr@,
                ) == Some(opt_elems(columns@[k]@)),
            all == page_rows(html@, fragment, css@, attr@, queries@),
            all is Some,
            all->0.len() == es.len(),
            i <= els@.len(),
            rows@.len() == i,
            row_views(rows@) == all->0.take(i as int),
        decreases els@.len() - i,
    {
        let mut cells: Vec<Option<Element>> = Vec::new();
        let mut k: usize = 0;
        let ghost want = all->0[i as int];
        assert(opt_elems(cells@) =~= want.cells.take(0));
        while k < columns.len()
            invariant
                es == elems(els@),
                elements(html@, fragment, css@, attr@) == Some(es),
                columns@.len() == queries@.len(),
                forall|k: int|
                    0 <= k < queries@.len() ==> (#[trigger] columns@[k])@.len() == es.len()
                        && firsts(html@, fragment, css@, queries@[k].css@, queries@[k].attr@)
                        == Some(opt_elems(columns@[k]@)),
                all == page_rows(html@, fragment, css@, attr@, queries@),
                all is Some,
                i < es.len(),
                want == all->0[i as int],
                want.cells.len() == queries@.len(),
                k <= columns@.len(),
                opt_elems(cells@) == want.cells.take(k as int),
            decreases columns@.len() - k,
        {
            let ghost before = cells@;
            assert(columns@[k as int]@.len() == es.len());
            cells.push(copy_element(&columns[k][i]));
            proof {
                assert(opt_elems(columns@[k as int]@)[i as int] == opt_elem(
                    columns@[k as int]@[i as int],
                ));
                assert(want.cells[k as int] == opt_elem(columns@[k as int]@[i as int]));
                assert(opt_elems(cells@) =~= opt_elems(before).push(want.cells[k as int]));
                assert(want.cells.take(k + 1) =~= want.cells.take(k as int).push(
                    want.cells[k as int],
                ));
            }
            k += 1;
        }
        assert(want.cells.take(k as int) =~= want.cells);
        let row = Row { attr: copy_text(&els[i].attr), cells };
        let ghost before = rows@;
        rows.push(row);
        proof {
            assert(es[i as int] == els@[i as int]@);
            assert(row@ == want);
            assert(row_views(rows@) =~= row_views(before).push(row@));
            assert(all->0.take(i + 1) =~= all->0.take(i as int).push(want));
        }
        i += 1;
    }
    assert(all->0.take(i as int) =~= all->0);
    Some(rows)
}

/// The texts in a row.
pub open spec fn concat(texts: Seq<Seq<char>>) -> Seq<char>
    decreases texts.len(),
{
    if texts.len() == 0 {
        Seq::empty()
    } else {
        concat(texts.drop_last()) + texts.last()
    }
}

/// The texts in a row.
pub fn concat_texts(v: &Vec<String>) -> (s: String)
    ensures
        s@ == concat(texts(v@)),
{
    let mut s = String::new();
    let mut i: usize = 0;
    let ghost all = texts(v@);
    assert(all.take(0) =~= Seq::empty());
    while i < v.len()
        invariant
            all == texts(v@),
            i <= v@.len(),
            s@ == concat(all.take(i as int)),
        decreases v@.len() - i,
    {
        proof {
            let t = all.take(i + 1);
            assert(t.drop_last() =~= all.take(i as int));
            assert(t.last() == v@[i as int]@);
        }
        s.append(&v[i]);
        i += 1;
    }
    assert(all.take(i as int) =~= all);
    s
}

/// The text of an element, without white space around it.
pub open spec fn inner_text(e: Elem) -> Seq<char> {
    trim(concat(e.texts))
}

/// The text of an element, without white space around it.
pub fn trimmed_text(e: &Element) -> (s: String)
    ensures
        s@ == inner_text(e@),
{
    let all = concat_texts(&e.texts);
    from_chars(&trimmed(&to_chars(&all)))
}

/// The attribute of an element, or nothing as an empty text.
pub open spec fn attr_or_empty(attr: Option<Seq<char>>) -> Seq<char> {
    match attr {
        Some(a) => a,
        None => Seq::empty(),
    }
}

/// The attribute, or an empty text.
pub fn attr_text(attr: &Option<String>) -> (s: String)
    ensures
        s@ == attr_or_empty(opt_text(*attr)),
{
    match attr {
        Some(a) => a.clone(),
        None => String::new(),
    }
}

} // verus!
