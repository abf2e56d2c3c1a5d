use yp_streaming_quotes::error::QuoteParseError;
use yp_streaming_quotes::quote::StockQuote;

#[test]
fn test_quote_round_trip() {
    let quote = StockQuote {
        ticker: "AAPL".to_string(),
        price: 150.50_f64.to_string(),
        volume: 1000,
        timestamp_ms: 1718123654876,
    };

    let serialized = quote.to_string();
    assert_eq!(serialized, "AAPL|150.5|1000|1718123654876");

    let deserialized = serialized.parse::<StockQuote>();
    assert!(deserialized.is_ok());
    assert_eq!(deserialized.unwrap(), quote);
}

#[test]
fn test_quote_parse_errors() {
    let bad_format = "AAPL|150.5|1000";
    assert!(matches!(
        bad_format.parse::<StockQuote>(),
        Err(QuoteParseError::InvalidFormat)
    ));

    let empty_ticker = "|150.5|1000|1718123654876";
    assert!(matches!(
        empty_ticker.parse::<StockQuote>(),
        Err(QuoteParseError::InvalidField {
            field: "ticker",
            ..
        })
    ));

    let bad_price = "AAPL|abc|1000|1718123654876";
    assert!(matches!(
        bad_price.parse::<StockQuote>(),
        Err(QuoteParseError::InvalidField { field: "price", .. })
    ));
}

#[test]
fn fields_are_trimmed() {
    let q = StockQuote::parse("  MSFT \t| 3.25 |+7| 0 ").unwrap();
    assert_eq!(q.ticker, "MSFT");
    assert_eq!(q.price, "3.25");
    assert_eq!(q.volume, 7);
    assert_eq!(q.timestamp_ms, 0);
}

#[test]
fn volume_and_timestamp_errors() {
    match StockQuote::parse("A|1|4294967296|5") {
        Err(QuoteParseError::InvalidField { field, reason }) => {
            assert_eq!(field, "volume");
            assert_eq!(reason, "the field must be a valid unsigned integer");
        }
        _ => panic!("expected a volume error"),
    }
    assert!(StockQuote::parse("A|1|4294967295|5").is_ok());
    match StockQuote::parse("A|1|2|18446744073709551616") {
        Err(QuoteParseError::InvalidField { field, .. }) => assert_eq!(field, "timestamp_ms"),
        _ => panic!("expected a timestamp error"),
    }
    assert_eq!(StockQuote::parse("A|1|2|18446744073709551615").unwrap().timestamp_ms, u64::MAX);
    for bad in ["A|1|-1|5", "A|1||5", "A|1|+|5", "A|1|1 2|5", "A|1|0x10|5"] {
        assert!(
            matches!(StockQuote::parse(bad), Err(QuoteParseError::InvalidField { field: "volume", .. })),
            "{bad}"
        );
    }
}

#[test]
fn first_failing_field_decides() {
    assert!(matches!(
        StockQuote::parse(" |x|y|z"),
        Err(QuoteParseError::InvalidField { field: "ticker", .. })
    ));
    assert!(matches!(
        StockQuote::parse("A|x|y|z"),
        Err(QuoteParseError::InvalidField { field: "price", .. })
    ));
    assert!(matches!(
        StockQuote::parse("A|1|y|z"),
        Err(QuoteParseError::InvalidField { field: "volume", .. })
    ));
    assert!(matches!(StockQuote::parse("A|1|2|3|4"), Err(QuoteParseError::InvalidFormat)));
    assert!(matches!(StockQuote::parse(""), Err(QuoteParseError::InvalidFormat)));
}

#[test]
fn price_follows_float_grammar() {
    for good in [
        "1", "1.", ".5", "1.5", "-2.5", "+3", "1e10", "1E-3", "2.5e+7", "inf", "-Infinity", "NaN",
        "iNf", "0.000",
    ] {
        let line = format!("T|{good}|1|1");
        assert!(StockQuote::parse(&line).is_ok(), "{good}");
        assert!(good.parse::<f64>().is_ok(), "{good}");
    }
    for bad in ["", ".", "e5", "1e", "1e+", "1..2", "1.2.3", "--1", "in", "infinit", "nan1", "1_0", "0x1"] {
        let line = format!("T|{bad}|1|1");
        assert!(
            matches!(StockQuote::parse(&line), Err(QuoteParseError::InvalidField { field: "price", .. })),
            "{bad}"
        );
        assert!(bad.parse::<f64>().is_err(), "{bad}");
    }
}

#[test]
fn error_texts() {
    assert_eq!(
        QuoteParseError::InvalidFormat.to_string(),
        "Invalid format. Expected: \"ticker|price|volume|timestamp_ms\""
    );
    let e = StockQuote::parse("|1|1|1").unwrap_err();
    assert_eq!(e.to_string(), "Invalid field 'ticker': the field can't be empty");
    let e = StockQuote::parse("A|x|1|1").unwrap_err();
    assert_eq!(
        e.to_string(),
        "Invalid field 'price': the field must be a valid floating point number"
    );
}

#[test]
fn quote_round_trip_with_extremes() {
    let q = StockQuote {
        ticker: "YDEX".to_string(),
        price: "-1e-7".to_string(),
        volume: u32::MAX,
        timestamp_ms: u64::MAX,
    };
    let line = q.to_string();
    assert_eq!(line, "YDEX|-1e-7|4294967295|18446744073709551615");
    assert_eq!(StockQuote::parse(&line).unwrap(), q);
    let zero = StockQuote { ticker: "Z".to_string(), price: "0".to_string(), volume: 0, timestamp_ms: 0 };
    assert_eq!(zero.to_string(), "Z|0|0|0");
    assert_eq!(StockQuote::parse(&zero.to_string()).unwrap(), zero.clone());
}
