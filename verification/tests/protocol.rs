use yp_streaming_quotes::error::RequestError;
use yp_streaming_quotes::protocol::{
    classify_reply, is_ping_datagram, parse_ticker_field, read_request_line, review_request,
    Admission, Message, Reply, RequestLine, Response,
};
use yp_streaming_quotes::tickers::load_tickers;

/// An IPv4 socket address `a.b.c.d:port`, standing in here for the
/// standard library's socket-address parser.
type SocketAddr = ([u8; 4], u16);

fn parse_socket_addr(token: &str) -> Option<SocketAddr> {
    let (ip, port) = token.split_once(':')?;
    let octets: Vec<u8> = ip.split('.').map(|o| o.parse::<u8>().ok()).collect::<Option<_>>()?;
    let octets: [u8; 4] = octets.try_into().ok()?;
    Some((octets, port.parse::<u16>().ok()?))
}

fn parse_message(s: &str) -> Result<Message<SocketAddr>, RequestError> {
    let line = read_request_line(s)?;
    let address = match &line {
        RequestLine::Stream { address, .. } => parse_socket_addr(address),
        RequestLine::Ping => None,
    };
    Message::from_request_line(line, address)
}

#[test]
fn test_parse_subscribe_request() {
    let raw_stream = "STREAM 127.0.0.1:5001 AAPL, MSFT, TSLA";
    let expected_addr = parse_socket_addr("127.0.0.1:5001").unwrap();

    let parsed = parse_message(raw_stream).unwrap();

    let Message::SubscribeRequest {
        udp_address,
        tickers,
    } = parsed
    else {
        panic!("Expected Message::SubscribeRequest");
    };

    assert_eq!(udp_address, expected_addr);
    assert_eq!(tickers.len(), 3);
    assert!(tickers.contains("AAPL"));
    assert!(tickers.contains("MSFT"));
    assert!(tickers.contains("TSLA"));
}

#[test]
fn test_parse_ping() {
    assert!(matches!(parse_message("PING"), Ok(Message::Ping)));
}

#[test]
fn test_message_parse_errors() {
    assert!(matches!(
        parse_message("INVALID_CMD 127.0.0.1:5001 AAPL"),
        Err(RequestError::InvalidCommand)
    ));

    assert!(matches!(
        parse_message("STREAM 999.999.999.999:5001 AAPL"),
        Err(RequestError::InvalidUdpAddress)
    ));

    assert!(matches!(
        parse_message("STREAM 127.0.0.1:5001"),
        Err(RequestError::EmptyTickerList)
    ));

    assert!(matches!(
        parse_message("STREAM 127.0.0.1:5001 , , "),
        Err(RequestError::EmptyTickerList)
    ));
}

#[test]
fn request_line_parts() {
    match read_request_line("  STREAM 10.0.0.1:9 a, b ,c  \r\n").unwrap() {
        RequestLine::Stream { address, tickers } => {
            assert_eq!(address, "10.0.0.1:9");
            assert_eq!(tickers.as_deref(), Some("a, b ,c"));
        }
        RequestLine::Ping => panic!("expected a STREAM line"),
    }
    match read_request_line("STREAM 10.0.0.1:9").unwrap() {
        RequestLine::Stream { address, tickers } => {
            assert_eq!(address, "10.0.0.1:9");
            assert!(tickers.is_none());
        }
        RequestLine::Ping => panic!("expected a STREAM line"),
    }
    assert!(matches!(read_request_line(" PING \n"), Ok(RequestLine::Ping)));
    assert!(matches!(read_request_line("PING x"), Err(RequestError::InvalidCommand)));
    assert!(matches!(read_request_line("STREAM"), Err(RequestError::InvalidCommand)));
    assert!(matches!(read_request_line("stream 1.2.3.4:5 A"), Err(RequestError::InvalidCommand)));
}

#[test]
fn bad_address_is_reported_before_missing_tickers() {
    assert!(matches!(
        parse_message("STREAM 999.999.999.999:5001"),
        Err(RequestError::InvalidUdpAddress)
    ));
    assert!(matches!(
        parse_message("STREAM  127.0.0.1:5001 AAPL"),
        Err(RequestError::InvalidUdpAddress)
    ));
}

#[test]
fn ticker_field_dedups_and_trims() {
    let set = parse_ticker_field(" AAPL ,MSFT,, AAPL,\tTSLA ");
    assert_eq!(set.len(), 3);
    assert_eq!(set.names(), vec!["AAPL".to_string(), "MSFT".to_string(), "TSLA".to_string()]);
    assert!(parse_ticker_field(" , ,").is_empty());
}

#[test]
fn message_lines() {
    let ping: Message<String> = Message::Ping;
    assert_eq!(ping.to_string(), "PING");
    let sub: Message<String> = Message::SubscribeRequest {
        udp_address: "127.0.0.1:5001".to_string(),
        tickers: parse_ticker_field("AAPL,MSFT"),
    };
    assert_eq!(sub.to_string(), "STREAM 127.0.0.1:5001 AAPL, MSFT");
}

#[test]
fn subscribe_line_reads_back() {
    let tickers = parse_ticker_field("AAPL, MSFT, TSLA");
    let sub: Message<String> = Message::SubscribeRequest {
        udp_address: "127.0.0.1:5001".to_string(),
        tickers,
    };
    let line = format!("{}\n", sub.to_string());
    match parse_message(&line).unwrap() {
        Message::SubscribeRequest { udp_address, tickers } => {
            assert_eq!(udp_address, parse_socket_addr("127.0.0.1:5001").unwrap());
            assert_eq!(
                tickers.names(),
                vec!["AAPL".to_string(), "MSFT".to_string(), "TSLA".to_string()]
            );
        }
        Message::Ping => panic!("expected a subscription"),
    }
}

#[test]
fn response_lines() {
    assert_eq!(Response::Accepted.to_string(), "OK");
    assert_eq!(Response::Error(RequestError::InvalidCommand).to_string(), "ERR invalid command");
    assert_eq!(
        Response::Error(RequestError::InvalidUdpAddress).to_string(),
        "ERR invalid udp address"
    );
    assert_eq!(
        Response::Error(RequestError::EmptyTickerList).to_string(),
        "ERR empty ticker list"
    );
    assert_eq!(
        Response::Error(RequestError::UnknownTicker("X, Y".to_string())).to_string(),
        "ERR unknown ticker: X, Y"
    );
}

#[test]
fn review_registers_known_tickers() {
    let valid = load_tickers("AAPL\nMSFT\nTSLA\n");
    match review_request(parse_message("STREAM 127.0.0.1:5001 MSFT,AAPL"), &valid) {
        Admission::Register { udp_address, tickers } => {
            assert_eq!(udp_address, parse_socket_addr("127.0.0.1:5001").unwrap());
            assert_eq!(tickers.len(), 2);
        }
        Admission::Refuse(_) => panic!("expected registration"),
    }
}

#[test]
fn review_refuses_unknown_tickers() {
    let valid = load_tickers("AAPL\nMSFT\n");
    match review_request(parse_message("STREAM 127.0.0.1:5001 ZZZ, AAPL, QQQ"), &valid) {
        Admission::Refuse(Response::Error(RequestError::UnknownTicker(list))) => {
            assert_eq!(list, "ZZZ, QQQ");
        }
        _ => panic!("expected an unknown-ticker refusal"),
    }
    match review_request(parse_message("PING"), &valid) {
        Admission::Refuse(r) => assert_eq!(r.to_string(), "ERR invalid command"),
        Admission::Register { .. } => panic!("PING over TCP must be refused"),
    }
    match review_request(parse_message("HELLO"), &valid) {
        Admission::Refuse(r) => assert_eq!(r.to_string(), "ERR invalid command"),
        Admission::Register { .. } => panic!("expected a refusal"),
    }
}

#[test]
fn client_reads_answers() {
    assert!(matches!(classify_reply("OK\n"), Reply::Subscribed));
    match classify_reply("ERR unknown ticker: ZZZ\n") {
        Reply::Refused(reason) => assert_eq!(reason, "unknown ticker: ZZZ"),
        _ => panic!("expected a refusal"),
    }
    match classify_reply("  WHAT  \n") {
        Reply::Unrecognized(text) => assert_eq!(text, "WHAT"),
        _ => panic!("expected an unrecognized answer"),
    }
    match classify_reply("OKAY") {
        Reply::Unrecognized(text) => assert_eq!(text, "OKAY"),
        _ => panic!("expected an unrecognized answer"),
    }
}

#[test]
fn refusal_reaches_client() {
    let answer = format!("{}\n", Response::Error(RequestError::EmptyTickerList).to_string());
    match classify_reply(&answer) {
        Reply::Refused(reason) => {
            assert_eq!(reason, RequestError::EmptyTickerList.to_string())
        }
        _ => panic!("expected a refusal"),
    }
    let answer = format!("{}\n", Response::Accepted.to_string());
    assert!(matches!(classify_reply(&answer), Reply::Subscribed));
}

#[test]
fn ping_datagrams() {
    assert!(is_ping_datagram(b"PING\n"));
    assert!(!is_ping_datagram(b"PING"));
    assert!(!is_ping_datagram(b"PING\n\n"));
    assert!(!is_ping_datagram(b"ping\n"));
}
