//! Errors of the quote wire format and of the subscription protocol, with
//! the text each one is reported as.

use vstd::prelude::*;

verus! {

/// Why a quote line could not be read.
#[derive(Debug, PartialEq)]
pub enum QuoteParseError {
    /// The line does not have exactly four `|`-separated fields.
    InvalidFormat,
    /// One field is present but unusable.
    InvalidField { field: &'static str, reason: String },
}

/// Why a subscription request was refused.
#[derive(Debug, PartialEq)]
pub enum RequestError {
    InvalidCommand,
    InvalidUdpAddress,
    EmptyTickerList,
    UnknownTicker(String),
}

impl QuoteParseError {
    /// The text this error is reported as.
    pub open spec fn message(self) -> Seq<char> {
        match self {
            QuoteParseError::InvalidFormat => "Invalid format. Expected: \"ticker|price|volume|timestamp_ms\""@,
            QuoteParseError::InvalidField { field, reason } => "Invalid field '"@ + field@ + "': "@
                + reason@,
        }
    }

    /// The error as text, as it is reported.
    pub fn to_string(&self) -> (r: String)
        ensures
            r@ == self.message(),
    {
        match self {
            QuoteParseError::InvalidFormat => {
                String::from_str("Invalid format. Expected: \"ticker|price|volume|timestamp_ms\"")
            },
            QuoteParseError::InvalidField { field, reason } => {
                let mut r = String::from_str("Invalid field '");
                r.append(field);
                r.append("': ");
                r.append(reason.as_str());
                r
            },
        }
    }
}

impl RequestError {
    /// The text this error is reported as.
    pub open spec fn message(self) -> Seq<char> {
        match self {
            RequestError::InvalidCommand => "invalid command"@,
            RequestError::InvalidUdpAddress => "invalid udp address"@,
            RequestError::EmptyTickerList => "empty ticker list"@,
            RequestError::UnknownTicker(tickers) => "unknown ticker: "@ + tickers@,
        }
    }

    /// The error as text, as it is reported.
    pub fn to_string(&self) -> (r: String)
        ensures
            r@ == self.message(),
    {
        match self {
            RequestError::InvalidCommand => String::from_str("invalid command"),
            RequestError::InvalidUdpAddress => String::from_str("invalid udp address"),
            RequestError::EmptyTickerList => String::from_str("empty ticker list"),
            RequestError::UnknownTicker(tickers) => {
                let mut r = String::from_str("unknown ticker: ");
                r.append(tickers.as_str());
                r
            },
        }
    }
}

} // verus!
