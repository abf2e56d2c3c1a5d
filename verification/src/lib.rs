//! Verified core of a streaming stock-quote service: the quote wire format,
//! the subscription protocol spoken over TCP, ticker lists, and the small
//! decisions the server and client take while streaming.

pub mod text;
pub mod number;
pub mod error;
pub mod tickers;
pub mod quote;
pub mod protocol;
pub mod feed;
