//! Stock quotes and their wire form `ticker|price|volume|timestamp_ms`,
//! one quote per datagram.
//!
//! The price travels as the text of a floating-point number: this library
//! checks that text against the grammar `f64::from_str` accepts and keeps
//! it as written, so that the value can be taken by the caller that needs
//! the float.

use vstd::prelude::*;
use crate::error::QuoteParseError;
use crate::number::{
    decimal, digit_run, float_text_at, lemma_decimal_texts_are_float_text, is_float_text, lemma_decimal_reads_back,
    lemma_digits_plain, lemma_float_text_plain, parse_unsigned, push_decimal, unsigned_value,
};
use crate::text::{
    chars_of, is_whitespace, lemma_split_cons, lemma_split_single, lemma_trim_no_whitespace,
    pieces, ranges_within, split, split_ranges, string_of, trim, trimmed_range,
};

verus! {

/// One price update for one ticker.
#[derive(Debug, PartialEq)]
pub struct StockQuote {
    pub ticker: String,
    /// Decimal text of the price, as `f64`'s `Display` writes it or as it
    /// was received.
    pub price: String,
    pub volume: u32,
    pub timestamp_ms: u64,
}

/// Which check a quote line failed first.
pub enum QuoteFailure {
    Format,
    Ticker,
    Price,
    Volume,
    Timestamp,
}

/// The fields of a quote line, split on `|` and trimmed; for a line that
/// is no quote, the first check it fails: four fields, a non-empty ticker, a
/// float price, a `u32` volume, a `u64` timestamp.
pub open spec fn read_quote(s: Seq<char>) -> Result<(Seq<char>, Seq<char>, u32, u64), QuoteFailure> {
    let f = split(s, '|');
    if f.len() != 4 {
        Err(QuoteFailure::Format)
    } else if trim(f[0]).len() == 0 {
        Err(QuoteFailure::Ticker)
    } else if !is_float_text(trim(f[1])) {
        Err(QuoteFailure::Price)
    } else if !(unsigned_value(trim(f[2])) matches Some(v) && v <= u32::MAX) {
        Err(QuoteFailure::Volume)
    } else if !(unsigned_value(trim(f[3])) matches Some(t) && t <= u64::MAX) {
        Err(QuoteFailure::Timestamp)
    } else {
        Ok(
            (
                trim(f[0]),
                trim(f[1]),
                unsigned_value(trim(f[2]))->0 as u32,
                unsigned_value(trim(f[3]))->0 as u64,
            ),
        )
    }
}

/// The error value that reports `failure`.
pub open spec fn reports(e: QuoteParseError, failure: QuoteFailure) -> bool {
    match failure {
        QuoteFailure::Format => e is InvalidFormat,
        QuoteFailure::Ticker => e matches QuoteParseError::InvalidField { field, reason }
            && field@ == "ticker"@ && reason@ == "the field can't be empty"@,
        QuoteFailure::Price => e matches QuoteParseError::InvalidField { field, reason }
            && field@ == "price"@ && reason@ == "the field must be a valid floating point number"@,
        QuoteFailure::Volume => e matches QuoteParseError::InvalidField { field, reason }
            && field@ == "volume"@ && reason@ == "the field must be a valid unsigned integer"@,
        QuoteFailure::Timestamp => e matches QuoteParseError::InvalidField { field, reason }
            && field@ == "timestamp_ms"@ && reason@ == "the field must be a valid unsigned integer"@,
    }
}

impl StockQuote {
    /// The wire form `ticker|price|volume|timestamp_ms`.
    pub open spec fn line(self) -> Seq<char> {
        self.ticker@ + seq!['|'] + self.price@ + seq!['|'] + decimal(self.volume as nat) + seq!['|']
            + decimal(self.timestamp_ms as nat)
    }

    /// The quote in its wire form `ticker|price|volume|timestamp_ms`.
    pub fn to_string(&self) -> (r: String)
        ensures
            r@ == self.line(),
    {
        proof {
            reveal_strlit("|");
        }
        let mut r = String::from_str(self.ticker.as_str());
        r.append("|");
        r.append(self.price.as_str());
        r.append("|");
        push_decimal(&mut r, self.volume as u64);
        r.append("|");
        push_decimal(&mut r, self.timestamp_ms);
        r
    }

    /// Reads a quote line: four `|`-separated fields, each trimmed of
    /// whitespace; the first field that fails decides the error.
    pub fn parse(s: &str) -> (r: Result<StockQuote, QuoteParseError>)
        ensures
            match (r, read_quote(s@)) {
                (Ok(q), Ok(f)) => q.ticker@ == f.0 && q.price@ == f.1 && q.volume == f.2
                    && q.timestamp_ms == f.3,
                (Err(e), Err(failure)) => reports(e, failure),
                _ => false,
            },
    {
        proof {
            reveal_strlit("ticker");
            reveal_strlit("price");
            reveal_strlit("volume");
            reveal_strlit("timestamp_ms");
        }
        let v = chars_of(s);
        let ranges = split_ranges(&v, 0, v.len(), '|');
        assert(v@.subrange(0, v@.len() as int) =~= s@);
        let ghost f = split(s@, '|');
        assert(pieces(v@, ranges@) == f);
        if ranges.len() != 4 {
            return Err(QuoteParseError::InvalidFormat);
        }
        assert(ranges_within(ranges@, 0, v@.len() as int));
        assert(ranges@[0].0 <= ranges@[0].1);
        assert(ranges@[1].0 <= ranges@[1].1);
        assert(ranges@[2].0 <= ranges@[2].1);
        assert(ranges@[3].0 <= ranges@[3].1);
        assert(f[0] == v@.subrange(ranges@[0].0 as int, ranges@[0].1 as int));
        assert(f[1] == v@.subrange(ranges@[1].0 as int, ranges@[1].1 as int));
        assert(f[2] == v@.subrange(ranges@[2].0 as int, ranges@[2].1 as int));
        assert(f[3] == v@.subrange(ranges@[3].0 as int, ranges@[3].1 as int));
        let (t0, t1) = trimmed_range(&v, ranges[0].0, ranges[0].1);
        if t0 == t1 {
            return Err(
                QuoteParseError::InvalidField {
                    field: "ticker",
                    reason: String::from_str("the field can't be empty"),
                },
            );
        }
        let (p0, p1) = trimmed_range(&v, ranges[1].0, ranges[1].1);
        if !float_text_at(&v, p0, p1) {
            return Err(
                QuoteParseError::InvalidField {
                    field: "price",
                    reason: String::from_str("the field must be a valid floating point number"),
                },
            );
        }
        let (n0, n1) = trimmed_range(&v, ranges[2].0, ranges[2].1);
        let volume = match parse_unsigned(&v, n0, n1, u32::MAX as u64) {
            Some(n) => n as u32,
            None => {
                return Err(
                    QuoteParseError::InvalidField {
                        field: "volume",
                        reason: String::from_str("the field must be a valid unsigned integer"),
                    },
                );
            },
        };
        let (m0, m1) = trimmed_range(&v, ranges[3].0, ranges[3].1);
        let timestamp_ms = match parse_unsigned(&v, m0, m1, u64::MAX) {
            Some(n) => n,
            None => {
                return Err(
                    QuoteParseError::InvalidField {
                        field: "timestamp_ms",
                        reason: String::from_str("the field must be a valid unsigned integer"),
                    },
                );
            },
        };
        Ok(
            StockQuote {
                ticker: string_of(&v, t0, t1),
                price: string_of(&v, p0, p1),
                volume,
                timestamp_ms,
            },
        )
    }
}

impl Clone for StockQuote {
    fn clone(&self) -> (r: StockQuote)
        ensures
            r == *self,
    {
        StockQuote {
            ticker: self.ticker.clone(),
            price: self.price.clone(),
            volume: self.volume,
            timestamp_ms: self.timestamp_ms,
        }
    }
}

impl core::str::FromStr for StockQuote {
    type Err = QuoteParseError;

    fn from_str(s: &str) -> (r: Result<StockQuote, QuoteParseError>)
        ensures
            match (r, read_quote(s@)) {
                (Ok(q), Ok(f)) => q.ticker@ == f.0 && q.price@ == f.1 && q.volume == f.2
                    && q.timestamp_ms == f.3,
                (Err(e), Err(failure)) => reports(e, failure),
                _ => false,
            },
    {
        StockQuote::parse(s)
    }
}

/// A quote that can be written and read back: a non-empty ticker with no
/// `|` and no whitespace at its ends, and a price that is float text.
pub open spec fn quote_is_writable(q: StockQuote) -> bool {
    &&& q.ticker@.len() > 0
    &&& trim(q.ticker@) == q.ticker@
    &&& !q.ticker@.contains('|')
    &&& is_float_text(q.price@)
}

/// Reading back the wire form of a writable quote gives the same quote.
pub proof fn lemma_quote_round_trip(q: StockQuote)
    requires
        quote_is_writable(q),
    ensures
        read_quote(q.line()) == Ok::<(Seq<char>, Seq<char>, u32, u64), QuoteFailure>(
            (q.ticker@, q.price@, q.volume, q.timestamp_ms),
        ),
{
    let t = q.ticker@;
    let p = q.price@;
    let dv = decimal(q.volume as nat);
    let dt = decimal(q.timestamp_ms as nat);
    lemma_decimal_reads_back(q.volume as nat);
    lemma_decimal_reads_back(q.timestamp_ms as nat);
    assert(!p.contains('|')) by {
        if p.contains('|') {
            let i = choose|i: int| 0 <= i < p.len() && p[i] == '|';
            lemma_float_text_plain(p, i);
        }
    }
    assert forall|i: int| 0 <= i < p.len() implies !is_whitespace(#[trigger] p[i]) by {
        lemma_float_text_plain(p, i);
    }
    assert forall|i: int| 0 <= i < dv.len() implies !is_whitespace(#[trigger] dv[i]) && dv[i]
        != '|' by {
        lemma_digits_plain(dv, i);
    }
    assert forall|i: int| 0 <= i < dt.len() implies !is_whitespace(#[trigger] dt[i]) && dt[i]
        != '|' by {
        lemma_digits_plain(dt, i);
    }
    assert(!dv.contains('|'));
    assert(!dt.contains('|'));
    lemma_trim_no_whitespace(p);
    lemma_trim_no_whitespace(dv);
    lemma_trim_no_whitespace(dt);
    lemma_split_single(dt, '|');
    lemma_split_cons(dv, '|', dt);
    lemma_split_cons(p, '|', dv + seq!['|'] + dt);
    lemma_split_cons(t, '|', p + seq!['|'] + dv + seq!['|'] + dt);
    assert(q.line() =~= t + seq!['|'] + (p + seq!['|'] + (dv + seq!['|'] + dt)));
    assert(p + seq!['|'] + dv + seq!['|'] + dt =~= p + seq!['|'] + (dv + seq!['|'] + dt));
    let f = split(q.line(), '|');
    assert(f =~= seq![t, p, dv, dt]);
}

/// A quote whose price is written as decimal digits with a point, as `f64`'s
/// `Display` writes any finite price, is read back from its line with that
/// price, whatever the number of digits on either side.
pub proof fn lemma_decimal_price_reads_back(q: StockQuote, a: Seq<char>, b: Seq<char>)
    requires
        q.ticker@.len() > 0,
        trim(q.ticker@) == q.ticker@,
        !q.ticker@.contains('|'),
        digit_run(a),
        digit_run(b),
        q.price@ == a + seq!['.'] + b,
    ensures
        read_quote(q.line()) == Ok::<(Seq<char>, Seq<char>, u32, u64), QuoteFailure>(
            (q.ticker@, q.price@, q.volume, q.timestamp_ms),
        ),
{
    lemma_decimal_texts_are_float_text(Seq::empty(), a, b, a);
    assert(Seq::<char>::empty() + (a + seq!['.'] + b) =~= q.price@);
    lemma_quote_round_trip(q);
}

} // verus!
