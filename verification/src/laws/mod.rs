//! What the parts of the library are for, stated over their results.

pub mod cache;
pub mod candidates;
pub mod cardmarket;
pub mod choices;
pub mod decklist;
pub mod details;
pub mod fetching;
pub mod input;
pub mod layout;
pub mod output;
pub mod pages;
pub mod reading;
pub mod records;
pub mod runs;
pub mod score;
pub mod search;
pub mod server;
pub mod shipping;
pub mod steps;
pub mod text;
