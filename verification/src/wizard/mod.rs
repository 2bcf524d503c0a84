//! Purchase wizard: finds good store assignments for a set of wanted cards.

pub mod input;
pub mod model;
pub mod score;
pub mod scored;
pub mod search;
pub mod neighbor;
pub mod optimality;
pub mod optimize;
pub mod candidates;
pub mod combos;
pub mod exhaustive;
pub mod solution;
pub mod run;
