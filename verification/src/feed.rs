//! Decisions taken while quotes stream: how the client reads a datagram,
//! how the server draws the next quote's ticker and volume, when a
//! subscriber that stopped sending keep-alives is dropped, and the wall
//! clock readings the service stamps things with.

use vstd::prelude::*;
use vstd::utf8::{decode_utf8, encode_utf8, encode_utf8_decode_utf8, encode_utf8_valid_utf8, valid_utf8};
use rand::RngExt;
use crate::error::QuoteParseError;
use crate::number::{decimal, lemma_decimal_reads_back, lemma_digits_plain};
use crate::quote::{
    lemma_quote_round_trip, quote_is_writable, read_quote, reports, QuoteFailure, StockQuote,
};
use crate::text::{
    chars_of, lemma_trim_newline, lemma_trimmed_ends, starts_with_at, string_of, trim,
    trimmed_range,
};
use crate::tickers::TickerSet;

verus! {

/// Text that `String::from_utf8_lossy` makes of some bytes: the decoding,
/// with each invalid sequence replaced by U+FFFD.
pub uninterp spec fn utf8_lossy(bytes: Seq<u8>) -> Seq<char>;

/// `String::from_utf8_lossy`: the result is the lossy decoding of `bytes`,
/// and, as its documentation states, valid UTF-8 is decoded as it is. What
/// replaces invalid sequences is left to the standard library.
#[verifier::external_body]
fn decode_lossy(bytes: &[u8]) -> (r: String)
    ensures
        r@ == utf8_lossy(bytes@),
        valid_utf8(bytes@) ==> r@ == decode_utf8(bytes@),
{
    String::from_utf8_lossy(bytes).into_owned()
}

/// What a client makes of one datagram from the server.
pub enum Datagram {
    /// The greeting the server sends once after a subscription.
    Hello,
    Quote(StockQuote),
    Invalid(QuoteParseError),
}

/// Reads a datagram: its bytes decoded (invalid UTF-8 replaced) and
/// trimmed; `HELLO` is the greeting, anything else a quote line.
pub fn classify_datagram(bytes: &[u8]) -> (r: Datagram)
    ensures
        trim(utf8_lossy(bytes@)) == "HELLO"@ ==> r is Hello,
        trim(utf8_lossy(bytes@)) != "HELLO"@ ==> match (r, read_quote(trim(utf8_lossy(bytes@)))) {
            (Datagram::Quote(q), Ok(f)) => q.ticker@ == f.0 && q.price@ == f.1 && q.volume == f.2
                && q.timestamp_ms == f.3,
            (Datagram::Invalid(e), Err(failure)) => reports(e, failure),
            _ => false,
        },
{
    let text = decode_lossy(bytes);
    let v = chars_of(text.as_str());
    let (a, b) = trimmed_range(&v, 0, v.len());
    assert(v@.subrange(0, v@.len() as int) =~= text@);
    proof {
        reveal_strlit("HELLO");
    }
    if b - a == 5 && starts_with_at(&v, a, b, "HELLO") {
        assert(v@.subrange(a as int, b as int) =~= v@.subrange(a as int, a + 5int));
        return Datagram::Hello;
    }
    let line = string_of(&v, a, b);
    match StockQuote::parse(line.as_str()) {
        Ok(q) => Datagram::Quote(q),
        Err(e) => Datagram::Invalid(e),
    }
}

/// A quote the server sends, the UTF-8 bytes of its line and a newline in
/// one datagram, is decoded and read by the client as that same quote.
pub proof fn lemma_sent_quote_is_received(q: StockQuote)
    requires
        quote_is_writable(q),
    ensures
        valid_utf8(encode_utf8(q.line() + seq!['\n'])),
        trim(decode_utf8(encode_utf8(q.line() + seq!['\n']))) == q.line(),
        q.line() != "HELLO"@,
        read_quote(q.line()) == Ok::<(Seq<char>, Seq<char>, u32, u64), QuoteFailure>(
            (q.ticker@, q.price@, q.volume, q.timestamp_ms),
        ),
{
    let sent = q.line() + seq!['\n'];
    encode_utf8_valid_utf8(sent);
    encode_utf8_decode_utf8(sent);
    let line = q.line();
    lemma_trimmed_ends(q.ticker@);
    assert(line[0] == q.ticker@[0]);
    let dt = decimal(q.timestamp_ms as nat);
    lemma_decimal_reads_back(q.timestamp_ms as nat);
    lemma_digits_plain(dt, dt.len() - 1);
    assert(line.last() == dt.last());
    lemma_trim_newline(line);
    reveal_strlit("HELLO");
    assert(line[q.ticker@.len() as int] == '|');
    if line == "HELLO"@ {
        assert("HELLO"@[q.ticker@.len() as int] != '|');
    }
    lemma_quote_round_trip(q);
}

/// The greeting the server sends after a subscription, `HELLO` and a
/// newline in UTF-8, is read by the client as the greeting.
pub proof fn lemma_greeting_is_received()
    ensures
        valid_utf8(encode_utf8("HELLO"@ + seq!['\n'])),
        trim(decode_utf8(encode_utf8("HELLO"@ + seq!['\n']))) == "HELLO"@,
{
    reveal_strlit("HELLO");
    encode_utf8_valid_utf8("HELLO"@ + seq!['\n']);
    encode_utf8_decode_utf8("HELLO"@ + seq!['\n']);
    lemma_trim_newline("HELLO"@);
}

#[verifier::external_type_specification]
#[verifier::external_body]
pub struct ExThreadRng(rand::rngs::ThreadRng);

/// `RngExt::random_range` over `low..high`: the sample lies in the range;
/// which one it is rests on chance. An empty range panics there, so it is
/// excluded here.
#[verifier::external_body]
fn random_below(rng: &mut rand::rngs::ThreadRng, low: u64, high: u64) -> (r: u64)
    requires
        low < high,
    ensures
        low <= r < high,
{
    rng.random_range(low..high)
}

/// The tickers that trade in larger lots.
pub open spec fn is_heavy_ticker(t: Seq<char>) -> bool {
    t == "AAPL"@ || t == "MSFT"@ || t == "TSLA"@ || t == "YNDX"@ || t == "YDEX"@
}

/// The range, `low..high`, a generated quote's volume is drawn from.
pub open spec fn volume_range(t: Seq<char>) -> (u32, u32) {
    if is_heavy_ticker(t) {
        (1000, 6000)
    } else {
        (100, 1100)
    }
}

/// The range, `low..high`, a generated quote's volume is drawn from.
pub fn volume_bounds(ticker: &str) -> (r: (u32, u32))
    ensures
        r == volume_range(ticker@),
{
    let t = String::from_str(ticker);
    if t == String::from_str("AAPL") || t == String::from_str("MSFT") || t == String::from_str(
        "TSLA",
    ) || t == String::from_str("YNDX") || t == String::from_str("YDEX") {
        (1000, 6000)
    } else {
        (100, 1100)
    }
}

/// AAPL, MSFT, TSLA, YNDX and YDEX trade in lots drawn from `1000..6000`;
/// every other ticker in lots drawn from `100..1100`.
pub proof fn lemma_volume_ranges(t: Seq<char>)
    ensures
        t == "AAPL"@ ==> volume_range(t) == (1000u32, 6000u32),
        t == "MSFT"@ ==> volume_range(t) == (1000u32, 6000u32),
        t == "TSLA"@ ==> volume_range(t) == (1000u32, 6000u32),
        t == "YNDX"@ ==> volume_range(t) == (1000u32, 6000u32),
        t == "YDEX"@ ==> volume_range(t) == (1000u32, 6000u32),
        t != "AAPL"@ && t != "MSFT"@ && t != "TSLA"@ && t != "YNDX"@ && t != "YDEX"@
            ==> volume_range(t) == (100u32, 1100u32),
{
}

/// Draws the volume of a generated quote for `ticker`.
pub fn draw_volume(rng: &mut rand::rngs::ThreadRng, ticker: &str) -> (r: u32)
    ensures
        volume_range(ticker@).0 <= r < volume_range(ticker@).1,
{
    let (low, high) = volume_bounds(ticker);
    random_below(rng, low as u64, high as u64) as u32
}

/// The ticker a draw of `draw` from `0..tickers.len()` selects.
pub fn ticker_for_draw<'a>(tickers: &'a TickerSet, draw: u64) -> (r: &'a String)
    requires
        draw < tickers@.len(),
    ensures
        r@ == tickers@[draw as int],
{
    let n = tickers.len();
    assert(draw < n);
    tickers.get(draw as usize)
}

/// Draws the ticker of the next generated quote: a draw from the whole range
/// `0..len`, turned into a ticker by `ticker_for_draw`.
pub fn pick_ticker<'a>(tickers: &'a TickerSet, rng: &mut rand::rngs::ThreadRng) -> (r: &'a String)
    requires
        tickers@.len() > 0,
    ensures
        tickers@.contains(r@),
{
    let n = tickers.len();
    let draw = random_below(rng, 0, n as u64);
    let r = ticker_for_draw(tickers, draw);
    assert(tickers@[draw as int] == r@);
    r
}

/// The subscribers of `subs` whose tickers include `ticker`, in order.
pub open spec fn recipients_of<A>(subs: Seq<(A, Seq<Seq<char>>)>, ticker: Seq<char>) -> Seq<A>
    decreases subs.len(),
{
    if subs.len() == 0 {
        Seq::empty()
    } else {
        let rest = recipients_of(subs.drop_last(), ticker);
        if subs.last().1.contains(ticker) {
            rest.push(subs.last().0)
        } else {
            rest
        }
    }
}

/// The subscribers a quote of `ticker` goes to: exactly those whose ticker
/// sets hold it, each once, in the order given.
pub fn recipients<'a, A: Copy>(subs: &Vec<(A, &'a TickerSet)>, ticker: &str) -> (r: Vec<A>)
    ensures
        r@ == recipients_of(subs@.map_values(|e: (A, &'a TickerSet)| (e.0, e.1@)), ticker@),
{
    let ghost all = subs@.map_values(|e: (A, &'a TickerSet)| (e.0, e.1@));
    let mut out: Vec<A> = Vec::new();
    let mut i: usize = 0;
    while i < subs.len()
        invariant
            0 <= i <= subs@.len(),
            all == subs@.map_values(|e: (A, &'a TickerSet)| (e.0, e.1@)),
            out@ == recipients_of(all.take(i as int), ticker@),
        decreases subs@.len() - i,
    {
        let (client, tickers) = subs[i];
        let ghost prefix = all.take(i + 1int);
        assert(prefix.drop_last() =~= all.take(i as int));
        assert(prefix.last() == (client, tickers@));
        if tickers.contains(ticker) {
            out.push(client);
        }
        i = i + 1;
    }
    assert(all.take(subs@.len() as int) =~= all);
    out
}

/// A quote reaches a subscriber exactly when the subscriber asked for its
/// ticker (subscribers being told apart by their addresses).
pub proof fn lemma_only_requested_tickers_reach<A>(
    subs: Seq<(A, Seq<Seq<char>>)>,
    ticker: Seq<char>,
    k: int,
)
    requires
        0 <= k < subs.len(),
        forall|i: int, j: int| 0 <= i < j < subs.len() ==> subs[i].0 != subs[j].0,
    ensures
        recipients_of(subs, ticker).contains(subs[k].0) <==> subs[k].1.contains(ticker),
    decreases subs.len(),
{
    let init = subs.drop_last();
    let rest = recipients_of(init, ticker);
    lemma_recipients_within(init, ticker);
    if k < subs.len() - 1 {
        lemma_only_requested_tickers_reach(init, ticker, k);
        assert(init[k] == subs[k]);
        if subs.last().1.contains(ticker) {
            let r = rest.push(subs.last().0);
            if rest.contains(subs[k].0) {
                let j = choose|j: int| 0 <= j < rest.len() && rest[j] == subs[k].0;
                assert(r[j] == subs[k].0);
            }
            if r.contains(subs[k].0) {
                let j = choose|j: int| 0 <= j < r.len() && r[j] == subs[k].0;
                if j == rest.len() {
                    assert(subs[k].0 == subs[subs.len() - 1].0);
                } else {
                    assert(rest[j] == subs[k].0);
                }
            }
        }
    } else {
        assert(!rest.contains(subs[k].0)) by {
            if rest.contains(subs[k].0) {
                let j = choose|j: int| 0 <= j < rest.len() && rest[j] == subs[k].0;
                let m = choose|m: int| 0 <= m < init.len() && init[m].0 == rest[j];
                assert(subs[m].0 == subs[k].0);
            }
        }
        if subs.last().1.contains(ticker) {
            assert(rest.push(subs.last().0)[rest.len() as int] == subs[k].0);
        }
    }
}

/// Every recipient is one of the subscribers.
proof fn lemma_recipients_within<A>(subs: Seq<(A, Seq<Seq<char>>)>, ticker: Seq<char>)
    ensures
        forall|j: int|
            0 <= j < recipients_of(subs, ticker).len() ==> exists|m: int|
                0 <= m < subs.len() && subs[m].0 == #[trigger] recipients_of(subs, ticker)[j],
    decreases subs.len(),
{
    if subs.len() > 0 {
        let init = subs.drop_last();
        lemma_recipients_within(init, ticker);
        let rest = recipients_of(init, ticker);
        assert forall|j: int| 0 <= j < recipients_of(subs, ticker).len() implies exists|m: int|
            0 <= m < subs.len() && subs[m].0 == #[trigger] recipients_of(subs, ticker)[j] by {
            if j < rest.len() {
                assert(recipients_of(subs, ticker)[j] == rest[j]);
                let m = choose|m: int| 0 <= m < init.len() && init[m].0 == rest[j];
                assert(subs[m] == init[m]);
            } else {
                assert(subs[subs.len() - 1].0 == recipients_of(subs, ticker)[j]);
            }
        }
    }
}

/// Seconds without a keep-alive after which a subscriber is dropped.
pub const CLIENT_TIMEOUT_SECS: u64 = 5;

/// A subscriber last heard from at `last_seen` has timed out at `now`: more
/// than the timeout has passed since. A keep-alive stamped after `now` (one
/// that arrived while the clock was being read) counts as fresh.
pub open spec fn timed_out(now: u64, last_seen: u64) -> bool {
    last_seen < now && now - last_seen > CLIENT_TIMEOUT_SECS
}

/// Whether a subscriber last heard from at `last_seen` has timed out at
/// `now` (both in seconds).
pub fn is_expired(now: u64, last_seen: u64) -> (r: bool)
    ensures
        r == timed_out(now, last_seen),
{
    last_seen < now && now - last_seen > CLIENT_TIMEOUT_SECS
}

/// The clients of `seen` that have timed out at `now`, in order.
pub open spec fn timed_out_clients<A>(now: u64, seen: Seq<(A, u64)>) -> Seq<A>
    decreases seen.len(),
{
    if seen.len() == 0 {
        Seq::empty()
    } else {
        let rest = timed_out_clients(now, seen.drop_last());
        if timed_out(now, seen.last().1) {
            rest.push(seen.last().0)
        } else {
            rest
        }
    }
}

/// The clients whose last keep-alive, as listed in `seen`, is too old at
/// `now`.
pub fn expired_clients<A: Copy>(now: u64, seen: &Vec<(A, u64)>) -> (r: Vec<A>)
    ensures
        r@ == timed_out_clients(now, seen@),
{
    let mut out: Vec<A> = Vec::new();
    let mut i: usize = 0;
    while i < seen.len()
        invariant
            0 <= i <= seen@.len(),
            out@ == timed_out_clients(now, seen@.take(i as int)),
        decreases seen@.len() - i,
    {
        let (client, last_seen) = seen[i];
        let ghost prefix = seen@.take(i + 1int);
        assert(prefix.drop_last() =~= seen@.take(i as int));
        assert(prefix.last() == seen@[i as int]);
        if is_expired(now, last_seen) {
            out.push(client);
        }
        i = i + 1;
    }
    assert(seen@.take(seen@.len() as int) =~= seen@);
    out
}

/// The watcher drops exactly the subscribers silent for more than five
/// seconds: every listed client whose last keep-alive is more than five
/// seconds before `now` is reported, the first included, and every
/// reported client is one of those.
pub proof fn lemma_expired_exactly<A>(now: u64, seen: Seq<(A, u64)>)
    ensures
        forall|k: int|
            0 <= k < seen.len() && seen[k].1 + 5 < now ==> timed_out_clients(now, seen).contains(
                #[trigger] seen[k].0,
            ),
        forall|x: A|
            #[trigger] timed_out_clients(now, seen).contains(x) ==> exists|k: int|
                0 <= k < seen.len() && seen[k].1 + 5 < now && seen[k].0 == x,
    decreases seen.len(),
{
    let r = timed_out_clients(now, seen);
    if seen.len() > 0 {
        let init = seen.drop_last();
        lemma_expired_exactly(now, init);
        let rest = timed_out_clients(now, init);
        assert forall|k: int| 0 <= k < seen.len() && seen[k].1 + 5 < now implies r.contains(
            #[trigger] seen[k].0,
        ) by {
            if k < seen.len() - 1 {
                assert(init[k] == seen[k]);
                assert(rest.contains(init[k].0));
                let j = choose|j: int| 0 <= j < rest.len() && rest[j] == seen[k].0;
                if timed_out(now, seen.last().1) {
                    assert(r[j] == seen[k].0);
                }
            } else {
                assert(r[rest.len() as int] == seen[k].0);
            }
        }
        assert forall|x: A| #[trigger] r.contains(x) implies exists|k: int|
            0 <= k < seen.len() && seen[k].1 + 5 < now && seen[k].0 == x by {
            let j = choose|j: int| 0 <= j < r.len() && r[j] == x;
            if j < rest.len() {
                assert(rest[j] == x);
                assert(rest.contains(x));
                let k = choose|k: int| 0 <= k < init.len() && init[k].1 + 5 < now && init[k].0 == x;
                assert(seen[k] == init[k]);
            } else {
                assert(timed_out(now, seen.last().1));
                assert(seen[seen.len() - 1].0 == x);
            }
        }
    }
}

#[verifier::external_type_specification]
#[verifier::external_body]
pub struct ExSystemTime(std::time::SystemTime);

/// `SystemTime::now`: the wall clock, about which nothing can be promised.
#[verifier::external_body]
fn system_now() -> std::time::SystemTime {
    std::time::SystemTime::now()
}

/// `SystemTime::duration_since(UNIX_EPOCH)`, `None` for a time before the
/// epoch; what it measures rests on the clock.
#[verifier::external_body]
fn since_unix_epoch(t: &std::time::SystemTime) -> Option<std::time::Duration> {
    t.duration_since(std::time::UNIX_EPOCH).ok()
}

/// `Duration::as_secs`: the whole seconds of the duration; what they are
/// rests on the clock reading the duration came from.
#[verifier::external_body]
fn whole_seconds(d: &std::time::Duration) -> u64 {
    d.as_secs()
}

/// `Duration::subsec_nanos`: the nanoseconds past the whole seconds, which
/// its documentation states are always less than one billion.
#[verifier::external_body]
fn subsec_nanos(d: &std::time::Duration) -> (r: u32)
    ensures
        r < 1_000_000_000,
{
    d.subsec_nanos()
}

/// Reads the wall clock as whole seconds and nanoseconds past them since the
/// Unix epoch; `None` when the clock reads a time before the epoch.
pub fn clock_reading() -> (r: Option<(u64, u32)>)
    ensures
        r matches Some(p) ==> p.1 < 1_000_000_000,
{
    match since_unix_epoch(&system_now()) {
        Some(d) => Some((whole_seconds(&d), subsec_nanos(&d))),
        None => None,
    }
}

/// Whole seconds of a reading of `secs` seconds and `nanos` nanoseconds.
pub open spec fn seconds_value(secs: u64, nanos: u32) -> int {
    secs as int
}

/// Whole milliseconds of a reading of `secs` seconds and `nanos` nanoseconds.
pub open spec fn millis_value(secs: u64, nanos: u32) -> int {
    secs * 1000 + nanos / 1_000_000
}

/// The number `2^64`, where a count of milliseconds is cut to 64 bits.
pub open spec fn u64_modulus() -> int {
    0x1_0000_0000_0000_0000
}

/// Whole seconds of a reading.
pub fn seconds_of(secs: u64, nanos: u32) -> (r: u64)
    ensures
        r as int == seconds_value(secs, nanos),
{
    secs
}

/// Whole milliseconds of a reading, cut to 64 bits.
pub fn millis_of(secs: u64, nanos: u32) -> (r: u64)
    ensures
        r as int == millis_value(secs, nanos) % u64_modulus(),
{
    let total: u128 = (secs as u128) * 1000 + (nanos as u128) / 1_000_000;
    assert(total as u64 == total % 0x1_0000_0000_0000_0000) by (bit_vector);
    total as u64
}

/// A reading of the clock converts, in milliseconds, to its seconds times a
/// thousand and the milliseconds past them, whenever no cut to 64 bits
/// happens: the two conversions of one reading agree.
pub proof fn lemma_millis_agree_with_seconds(secs: u64, nanos: u32)
    requires
        nanos < 1_000_000_000,
        millis_value(secs, nanos) < u64_modulus(),
    ensures
        (millis_value(secs, nanos) % u64_modulus()) / 1000 == seconds_value(secs, nanos),
{
    assert(nanos / 1_000_000 < 1000);
}

/// A later reading never gives fewer milliseconds, while no cut to 64 bits
/// happens.
pub proof fn lemma_millis_monotonic(s1: u64, n1: u32, s2: u64, n2: u32)
    requires
        n1 < 1_000_000_000,
        n2 < 1_000_000_000,
        s1 < s2 || (s1 == s2 && n1 <= n2),
        millis_value(s2, n2) < u64_modulus(),
    ensures
        millis_value(s1, n1) % u64_modulus() <= millis_value(s2, n2) % u64_modulus(),
{
    assert(n1 / 1_000_000 < 1000);
    assert(n1 <= n2 ==> n1 / 1_000_000 <= n2 / 1_000_000) by (nonlinear_arith);
}

/// Seconds since the Unix epoch by the wall clock: the whole seconds of one
/// clock reading; `None` when the clock reads a time before the epoch.
///
/// Which reading the clock gives rests on the clock alone, so nothing is
/// promised of the value; `clock_reading` and `seconds_of` give the reading
/// and its conversion separately.
pub fn current_timestamp_seconds() -> Option<u64> {
    match clock_reading() {
        Some((secs, nanos)) => {
            Some(seconds_of(secs, nanos))
        },
        None => None,
    }
}

/// Milliseconds since the Unix epoch by the wall clock: the whole
/// milliseconds of one clock reading, cut to 64 bits; `None` when the clock
/// reads a time before the epoch.
///
/// Which reading the clock gives rests on the clock alone, so nothing is
/// promised of the value; `clock_reading` and `millis_of` give the reading
/// and its conversion separately.
pub fn current_timestamp_millis() -> Option<u64> {
    match clock_reading() {
        Some((secs, nanos)) => {
            Some(millis_of(secs, nanos))
        },
        None => None,
    }
}

} // verus!
