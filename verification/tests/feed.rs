use yp_streaming_quotes::error::QuoteParseError;
use yp_streaming_quotes::feed::{
    classify_datagram, clock_reading, current_timestamp_millis, current_timestamp_seconds,
    draw_volume, expired_clients, is_expired, millis_of, pick_ticker, recipients, seconds_of,
    volume_bounds, Datagram,
};
use yp_streaming_quotes::tickers::load_tickers;

#[test]
fn datagrams() {
    assert!(matches!(classify_datagram(b"HELLO\n"), Datagram::Hello));
    match classify_datagram(b"AAPL|150.5|1000|1718123654876\n") {
        Datagram::Quote(q) => {
            assert_eq!(q.ticker, "AAPL");
            assert_eq!(q.price, "150.5");
            assert_eq!(q.volume, 1000);
            assert_eq!(q.timestamp_ms, 1718123654876);
        }
        _ => panic!("expected a quote"),
    }
    assert!(matches!(
        classify_datagram(b"HELLO there"),
        Datagram::Invalid(QuoteParseError::InvalidFormat)
    ));
}

#[test]
fn datagrams_with_invalid_utf8() {
    match classify_datagram(b"A\xffB|1|2|3") {
        Datagram::Quote(q) => assert_eq!(q.ticker, "A\u{fffd}B"),
        _ => panic!("expected a quote"),
    }
}

#[test]
fn volume_rule() {
    assert_eq!(volume_bounds("AAPL"), (1000, 6000));
    assert_eq!(volume_bounds("YDEX"), (1000, 6000));
    assert_eq!(volume_bounds("NVDA"), (100, 1100));
    assert_eq!(volume_bounds("aapl"), (100, 1100));
    let mut rng = rand::rng();
    for _ in 0..200 {
        let v = draw_volume(&mut rng, "TSLA");
        assert!((1000..6000).contains(&v));
        let w = draw_volume(&mut rng, "GOOGL");
        assert!((100..1100).contains(&w));
    }
}

#[test]
fn picks_listed_tickers() {
    let set = load_tickers("A\nB\nC\n");
    let mut rng = rand::rng();
    for _ in 0..100 {
        let t = pick_ticker(&set, &mut rng);
        assert!(set.contains(t));
    }
}

#[test]
fn expiry() {
    assert!(!is_expired(100, 95));
    assert!(is_expired(100, 94));
    assert!(!is_expired(7, 7));
    let seen = vec![("a", 10u64), ("b", 3), ("c", 5), ("d", 0)];
    assert_eq!(expired_clients(10, &seen), vec!["b", "d"]);
}

#[test]
fn keep_alive_after_clock_read_is_fresh() {
    assert!(!is_expired(5, 10));
    assert!(!is_expired(0, u64::MAX));
    let seen = vec![("late", 12u64), ("old", 1)];
    assert_eq!(expired_clients(10, &seen), vec!["old"]);
}

#[test]
fn reading_conversions() {
    assert_eq!(seconds_of(1718123654, 876_543_210), 1718123654);
    assert_eq!(millis_of(1718123654, 876_543_210), 1718123654876);
    assert_eq!(millis_of(0, 999_999), 0);
    assert_eq!(millis_of(u64::MAX, 0), u64::MAX.wrapping_mul(1000));
    let (s, n) = clock_reading().unwrap();
    assert!(n < 1_000_000_000);
    assert_eq!(millis_of(s, n) / 1000, seconds_of(s, n));
}

#[test]
fn clock_readings() {
    let s = current_timestamp_seconds().unwrap();
    let ms = current_timestamp_millis().unwrap();
    assert!(s > 1_600_000_000);
    assert!(ms / 1000 >= s);
}

#[test]
fn quotes_go_only_to_subscribers_of_their_ticker() {
    let a = load_tickers("AAPL\nMSFT\n");
    let b = load_tickers("TSLA\n");
    let c = load_tickers("MSFT\nTSLA\n");
    let subs = vec![(1u32, &a), (2, &b), (3, &c)];
    assert_eq!(recipients(&subs, "MSFT"), vec![1, 3]);
    assert_eq!(recipients(&subs, "TSLA"), vec![2, 3]);
    assert_eq!(recipients(&subs, "AAPL"), vec![1]);
    assert!(recipients(&subs, "NVDA").is_empty());
}
