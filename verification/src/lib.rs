//! Card prices across stores, and the purchase wizard that assigns every
//! wanted card to a store.

pub mod cache;
pub mod decklist;
pub mod encoding;
pub mod html;
pub mod json;
pub mod laws;
pub mod order;
pub mod output;
pub mod parallel;
pub mod percent;
pub mod random;
pub mod rows;
pub mod scryfall;
pub mod search;
pub mod server;
pub mod shipping;
pub mod stores;
pub mod sums;
pub mod text;
pub mod wizard;
