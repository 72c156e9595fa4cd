//! A streaming limit-order-book aggregator.
//!
//! The library maintains one order book per instrument: two sorted
//! collections of price levels (bids descending, asks ascending), mutated
//! through incremental upsert/delete updates, and queried for a
//! depth-weighted average price per side and the resulting bid/ask spread.
//!
//! Prices and quantities are exact decimals, represented as integer
//! multiples of 10^-8 (see [`decimal`]); no binary floating point is used
//! anywhere in the computation.

pub mod book;
pub mod decimal;
pub mod feed;
pub mod pricer;
