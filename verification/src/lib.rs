//! A breadth-first web link crawler library: URL normalization, an exclusion
//! policy, a visited/response ledger and a FIFO frontier, all behind one
//! state type that a worker pool drains.
//!
//! Fetching pages and extracting links are outside collaborators; this crate
//! holds the decision logic: which URLs are admitted, how duplicates are
//! counted, and how responses are recorded.

pub mod crawler;
pub mod html;
pub mod laws;
pub mod ledger;
pub mod urls;
