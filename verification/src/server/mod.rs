//! The HTTP API: requests, results and background jobs.

pub mod handlers;
pub mod jobs;
pub mod requests;
pub mod results;
