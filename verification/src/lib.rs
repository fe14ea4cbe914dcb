//! A limit-order matching engine with position accounting and market-data
//! fan-out, verified with Verus.

pub mod api;
pub mod auth;
pub mod book_lemmas;
pub mod clock;
pub mod feed;
pub mod history;
pub mod ladder;
pub mod laws;
pub mod model;
pub mod orderbook;
pub mod positions;
pub mod records;
pub mod registry;
pub mod text;
pub mod types;
