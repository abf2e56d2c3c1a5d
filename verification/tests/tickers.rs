use yp_streaming_quotes::tickers::{default_tickers, from_names, load_tickers, TickerSet};

#[test]
fn test_load_tickers() {
    let data = "  aapl  \nMSFT\n\ntsla\n";

    let tickers = load_tickers(data);
    assert_eq!(tickers.len(), 3);

    assert!(tickers.contains("AAPL"));
    assert!(tickers.contains("MSFT"));
    assert!(tickers.contains("TSLA"));
}

#[test]
fn load_tickers_keeps_first_occurrences() {
    let tickers = load_tickers("msft\r\nAapl\n  MSFT \n\t\n\nnvda");
    assert_eq!(
        tickers.names(),
        vec!["MSFT".to_string(), "AAPL".to_string(), "NVDA".to_string()]
    );
    assert!(load_tickers("").is_empty());
    assert!(load_tickers("\n \n\t\n").is_empty());
}

#[test]
fn names_are_uppercased_with_unicode_rules() {
    let tickers = load_tickers("straße\n");
    assert!(tickers.contains("STRASSE"));
}

#[test]
fn ticker_set_insert() {
    let mut set = TickerSet::new();
    assert!(set.insert("A".to_string()));
    assert!(set.insert("B".to_string()));
    assert!(!set.insert("A".to_string()));
    assert_eq!(set.len(), 2);
    assert_eq!(set.get(1), "B");
    assert!(!set.contains("C"));
}

#[test]
fn names_from_arguments() {
    let names = vec![" aapl".to_string(), "msft ".to_string(), "AAPL".to_string(), " ".to_string()];
    let set = from_names(&names);
    assert_eq!(set.names(), vec!["AAPL".to_string(), "MSFT".to_string(), String::new()]);
}

#[test]
fn default_set() {
    let set = default_tickers();
    assert_eq!(set.len(), 7);
    for t in ["AAPL", "MSFT", "AMZN", "NVDA", "GOOGL", "YNDX", "YDEX"] {
        assert!(set.contains(t));
    }
}
