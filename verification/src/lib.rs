//! A price-time priority trade matching engine whose order book, matching,
//! validation, trade history and market statistics are specified and proved
//! with Verus.
pub mod matching_engine;
