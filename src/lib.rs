//! A single-market matching engine: a price-time priority order book whose
//! matching, cancellation and snapshot operations are verified against a
//! mathematical model of the book.

pub mod book;
pub mod engine;
pub mod ids;
pub mod labels;
pub mod laws;
pub mod requests;
pub mod types;
