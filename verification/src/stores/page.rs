//! Search pages as rows of products.

use crate::html::{opt_elem, row_views, Elem, Element, Row, RowView};
use crate::stores::price::ScrapeError;
use crate::stores::{products, titled, Product, SearchProduct, StoreResult};
use crate::stores::Listing;
use vstd::prelude::*;

verus! {

/// A product as a page shows it, its price not yet known to fit.
pub struct RawProduct {
    pub name: String,
    pub amount: u64,
    pub url: String,
    pub in_stock: bool,
}

/// A `RawProduct` as plain text and numbers.
pub struct Raw {
    pub name: Seq<char>,
    pub amount: nat,
    pub url: Seq<char>,
    pub in_stock: bool,
}

impl View for RawProduct {
    type V = Raw;

    open spec fn view(&self) -> Raw {
        Raw {
            name: self.name@,
            amount: self.amount as nat,
            url: self.url@,
            in_stock: self.in_stock,
        }
    }
}

pub open spec fn opt_raw(p: Option<RawProduct>) -> Option<Raw> {
    match p {
        Some(x) => Some(x@),
        None => None,
    }
}

/// Cell `i` of a row, if it is there.
pub open spec fn cell(row: RowView, i: int) -> Option<Elem> {
    if 0 <= i < row.cells.len() {
        row.cells[i]
    } else {
        None
    }
}

/// Cell `i` of a row, if it is there.
pub fn cell_at(row: &Row, i: usize) -> (c: Option<&Element>)
    ensures
        match c {
            Some(e) => cell(row@, i as int) == Some(e@),
            None => cell(row@, i as int) is None,
        },
{
    if i < row.cells.len() {
        assert(row@.cells[i as int] == opt_elem(row.cells@[i as int]));
        match &row.cells[i] {
            Some(e) => Some(e),
            None => None,
        }
    } else {
        None
    }
}

/// How a store's search page shows a product.
pub trait RowReader {
    /// The product in a row, if the row shows one.
    spec fn product(row: RowView) -> Option<Raw>;

    /// The product in a row, if the row shows one.
    fn read_row(row: &Row) -> (found: Option<RawProduct>)
        ensures
            opt_raw(found) == Self::product(row@),
    ;
}

/// The products of all rows, in order.
pub open spec fn raw_products<R: RowReader>(rows: Seq<RowView>) -> Seq<Raw>
    decreases rows.len(),
{
    if rows.len() == 0 {
        Seq::empty()
    } else {
        let rest = raw_products::<R>(rows.drop_last());
        match R::product(rows.last()) {
            Some(p) => rest.push(p),
            None => rest,
        }
    }
}

/// Every price fits 32 bits.
pub open spec fn prices_fit(raws: Seq<Raw>) -> bool {
    forall|i: int| 0 <= i < raws.len() ==> (#[trigger] raws[i]).amount <= u32::MAX
}

/// The products with their prices.
pub open spec fn finished(raws: Seq<Raw>) -> Seq<Product> {
    raws.map_values(
        |r: Raw|
            Product { name: r.name, price: r.amount as u32, url: r.url, in_stock: r.in_stock },
    )
}

/// What reading the rows of a page gives: the products, or an error if a price
/// is too large.
pub open spec fn read_rows<R: RowReader>(rows: Seq<RowView>) -> Result<Seq<Product>, ScrapeError> {
    let raws = raw_products::<R>(rows);
    if prices_fit(raws) {
        Ok(finished(raws))
    } else {
        Err(ScrapeError::PriceTooLarge)
    }
}

/// A list of products as plain text and numbers, or the error.
pub open spec fn result_view(r: Result<Vec<SearchProduct>, ScrapeError>) -> Result<
    Seq<Product>,
    ScrapeError,
> {
    match r {
        Ok(v) => Ok(products(v@)),
        Err(e) => Err(e),
    }
}

/// The products in the rows of a page.
pub fn products_from_rows<R: RowReader>(rows: &Vec<Row>) -> (found: Result<
    Vec<SearchProduct>,
    ScrapeError,
>)
    ensures
        result_view(found) == read_rows::<R>(row_views(rows@)),
{
    let ghost views = row_views(rows@);
    let mut found: Vec<SearchProduct> = Vec::new();
    let mut large: bool = false;
    let mut i: usize = 0;
    assert(views.take(0) =~= Seq::empty());
    assert(products(found@) =~= finished(raw_products::<R>(views.take(0))));
    while i < rows.len()
        invariant
            views == row_views(rows@),
            i <= rows@.len(),
            large == !prices_fit(raw_products::<R>(views.take(i as int))),
            !large ==> products(found@) == finished(raw_products::<R>(views.take(i as int))),
        decreases rows@.len() - i,
    {
        let ghost raws = raw_products::<R>(views.take(i as int));
        proof {
            let t = views.take(i + 1);
            assert(t.drop_last() =~= views.take(i as int));
            assert(t.last() == rows@[i as int]@);
        }
        if let Some(p) = R::read_row(&rows[i]) {
            let ghost next = raws.push(p@);
            if p.amount > u32::MAX as u64 {
                proof {
                    assert(next[raws.len() as int].amount > u32::MAX);
                }
                large = true;
            } else {
                proof {
                    if prices_fit(raws) {
                        assert(prices_fit(next));
                    } else {
                        let k = choose|k: int|
                            0 <= k < raws.len() && !((#[trigger] raws[k]).amount <= u32::MAX);
                        assert(next[k].amount > u32::MAX);
                    }
                }
                let ghost before = found@;
                let price: u32 = p.amount as u32;
                let product = SearchProduct {
                    name: p.name,
                    price,
                    url: p.url,
                    in_stock: p.in_stock,
                };
                found.push(product);
                proof {
                    assert(products(found@) =~= products(before).push(product@));
                    assert(finished(next) =~= finished(raws).push(product@));
                }
            }
        }
        i += 1;
    }
    assert(views.take(i as int) =~= views);
    if large {
        Err(ScrapeError::PriceTooLarge)
    } else {
        Ok(found)
    }
}

/// The product is in stock and its title names the card.
pub open spec fn wanted_product(card: Seq<char>, p: Product) -> bool {
    p.in_stock && titled(card, p.name)
}

/// The listing of a product for a card.
pub open spec fn product_listing(store: Seq<char>, card: Seq<char>, p: Product) -> Listing {
    Listing { store, card, price: p.price, url: p.url }
}

/// The listing of a product for a card.
pub fn to_result(store: &str, card: &str, p: &SearchProduct) -> (r: StoreResult)
    ensures
        r@ == product_listing(store@, card@, p@),
{
    StoreResult {
        store_name: store.to_owned(),
        card_name: card.to_owned(),
        price: p.price,
        url: p.url.clone(),
    }
}

} // verus!
