# yp_streaming_quotes

A streaming stock-quote service: a server generates quotes and streams each
subscriber the quotes of the tickers it asked for, one quote per UDP datagram
(`ticker|price|volume|timestamp_ms`); clients subscribe over TCP with
`STREAM <udp_addr> <ticker1>,<ticker2>...`, are answered `OK` or
`ERR <reason>`, and keep themselves alive with UDP `PING` datagrams.

## Layout

- `src/` — the library, verified with Verus:
  - `text.rs` — trimming (Unicode `White_Space`), splitting, joining;
  - `number.rs` — unsigned integers read and written in decimal, and the
    grammar of floating-point text that `f64::from_str` accepts;
  - `error.rs` — the errors and their texts;
  - `tickers.rs` — `TickerSet`, ticker lists (`load_tickers`, defaults);
  - `quote.rs` — `StockQuote` and its wire form, with the round-trip law;
  - `protocol.rs` — request lines, `Message`, `Response`, the server's
    decision on a request, the client's reading of the answer, and the laws
    that tie what one side writes to what the other reads;
  - `feed.rs` — datagram reading on the client, quote generation draws,
    keep-alive expiry, clock readings.
- `app/` — the programs (`server` and `client` roles): sockets, threads,
  locks, files, logging, command-line options, and the floating-point price
  walk.
- `tests/` — tests of the library.

Socket addresses are parsed by the standard library in `app/`; the library
takes the outcome (`Message::from_request_line`). Prices travel as text that
is checked against the float grammar and kept as written.
