//! The subscription protocol. A client sends one line over TCP,
//! `STREAM <udp_addr> <ticker1>,<ticker2>...`, the server answers `OK` or
//! `ERR <reason>`; after that the client keeps itself alive with UDP `PING`
//! datagrams.
//!
//! The UDP address is read by the standard library's socket-address parser,
//! which this library does not hold: reading a request is therefore done in
//! two steps, `read_request_line`, which cuts the line into its parts, then
//! `Message::from_request_line`, which takes the outcome of parsing the
//! address token and finishes the request.

use vstd::prelude::*;
use crate::error::RequestError;
use crate::text::{
    chars_of, find_char, index_of, is_whitespace, join, join_strings, lemma_index_of,
    lemma_index_of_bounds, lemma_join_last, lemma_split_comma_join, lemma_trim_after_space,
    lemma_split_no_separator, lemma_trim_idempotent, lemma_trim_newline, lemma_trim_plain,
    lemma_trim_within, lemma_trimmed_ends, pieces, ranges_within, split,
    split_ranges, starts_with_at, string_of, trim, trimmed_range,
};
use crate::tickers::{dedup, lemma_dedup, lemma_dedup_distinct, TickerSet};

verus! {

/// A request line cut into its parts, before the address is checked.
pub enum RequestLine {
    Ping,
    Stream {
        /// The address token, as written.
        address: String,
        /// What follows the address, if anything does.
        tickers: Option<String>,
    },
}

/// A request the server understands. `A` is the socket-address type the
/// caller parsed the address token into.
pub enum Message<A> {
    SubscribeRequest { udp_address: A, tickers: TickerSet },
    Ping,
}

/// The server's one-line answer to a request.
pub enum Response {
    /// Answered as `OK`.
    Accepted,
    /// Answered as `ERR <reason>`.
    Error(RequestError),
}

/// The trimmed line is the word `PING`.
pub open spec fn is_ping_line(s: Seq<char>) -> bool {
    trim(s) == "PING"@
}

/// The trimmed line starts with `STREAM `.
pub open spec fn is_stream_line(s: Seq<char>) -> bool {
    let t = trim(s);
    t.len() >= 7 && t.take(7) == "STREAM "@
}

/// What follows `STREAM ` in the trimmed line.
pub open spec fn stream_rest(s: Seq<char>) -> Seq<char> {
    trim(s).skip(7)
}

/// The address token: the rest up to its first space.
pub open spec fn address_token(s: Seq<char>) -> Seq<char> {
    let r = stream_rest(s);
    r.take(index_of(r, ' '))
}

/// What follows the address token and its space, when there is a space.
pub open spec fn ticker_field(s: Seq<char>) -> Option<Seq<char>> {
    let r = stream_rest(s);
    let j = index_of(r, ' ');
    if j < r.len() {
        Some(r.skip(j + 1))
    } else {
        None
    }
}

/// The ticker names of a comma-separated field: each piece trimmed, empty
/// pieces skipped.
pub open spec fn field_names(pieces: Seq<Seq<char>>) -> Seq<Seq<char>>
    decreases pieces.len(),
{
    if pieces.len() == 0 {
        Seq::empty()
    } else {
        let rest = field_names(pieces.drop_last());
        let t = trim(pieces.last());
        if t.len() > 0 {
            rest.push(t)
        } else {
            rest
        }
    }
}

/// The tickers a request's ticker field names, repeats kept once.
pub open spec fn requested(field: Seq<char>) -> Seq<Seq<char>> {
    dedup(field_names(split(field, ',')))
}

/// Cuts a request line into its parts: `PING`, or `STREAM ` followed by the
/// address token and, after the next space, the ticker field. The line is
/// trimmed first; anything else is an invalid command.
pub fn read_request_line(s: &str) -> (r: Result<RequestLine, RequestError>)
    ensures
        is_ping_line(s@) ==> r matches Ok(RequestLine::Ping),
        !is_ping_line(s@) && !is_stream_line(s@) ==> r matches Err(RequestError::InvalidCommand),
        !is_ping_line(s@) && is_stream_line(s@) ==> (r matches Ok(
            RequestLine::Stream { address, tickers },
        ) && address@ == address_token(s@) && match tickers {
            Some(t) => ticker_field(s@) == Some(t@),
            None => ticker_field(s@) is None,
        }),
{
    let v = chars_of(s);
    let (a, b) = trimmed_range(&v, 0, v.len());
    assert(v@.subrange(0, v@.len() as int) =~= s@);
    let ghost t = trim(s@);
    proof {
        reveal_strlit("PING");
    }
    if b - a == 4 && starts_with_at(&v, a, b, "PING") {
        assert(v@.subrange(a as int, b as int) =~= v@.subrange(a as int, a + 4int));
        return Ok(RequestLine::Ping);
    }
    assert(!is_ping_line(s@));
    if !starts_with_at(&v, a, b, "STREAM ") {
        proof {
            reveal_strlit("STREAM ");
            if is_stream_line(s@) {
                assert(t.take(7) =~= v@.subrange(a as int, a + 7int));
            }
        }
        return Err(RequestError::InvalidCommand);
    }
    proof {
        reveal_strlit("STREAM ");
        assert(t.take(7) =~= v@.subrange(a as int, a + 7int));
    }
    let rs = a + 7;
    let ghost rest = stream_rest(s@);
    assert(rest =~= v@.subrange(rs as int, b as int));
    let j = find_char(&v, rs, b, ' ');
    proof {
        lemma_index_of_bounds(rest, ' ');
    }
    let address = string_of(&v, rs, j);
    assert(address@ =~= address_token(s@));
    let tickers = if j < b {
        let field = string_of(&v, j + 1, b);
        assert(field@ =~= rest.skip(j - rs + 1));
        Some(field)
    } else {
        None
    };
    Ok(RequestLine::Stream { address, tickers })
}

/// The set of tickers a ticker field names.
pub fn parse_ticker_field(field: &str) -> (r: TickerSet)
    ensures
        r@ == requested(field@),
{
    let v = chars_of(field);
    let ranges = split_ranges(&v, 0, v.len(), ',');
    assert(v@.subrange(0, v@.len() as int) =~= field@);
    let ghost parts = pieces(v@, ranges@);
    let mut set = TickerSet::new();
    let mut k: usize = 0;
    while k < ranges.len()
        invariant
            0 <= k <= ranges@.len(),
            parts == pieces(v@, ranges@),
            parts.len() == ranges@.len(),
            ranges_within(ranges@, 0, v@.len() as int),
            set@ == dedup(field_names(parts.take(k as int))),
        decreases ranges@.len() - k,
    {
        let (lo, hi) = ranges[k];
        assert(lo <= hi <= v@.len()) by {
            assert(ranges@[k as int].0 <= ranges@[k as int].1);
        }
        let (a, b) = trimmed_range(&v, lo, hi);
        let ghost prefix = parts.take(k + 1int);
        let ghost before = field_names(parts.take(k as int));
        assert(prefix.drop_last() =~= parts.take(k as int));
        assert(prefix.last() == v@.subrange(lo as int, hi as int));
        if a < b {
            let name = string_of(&v, a, b);
            assert(before.push(name@).drop_last() =~= before);
            set.insert(name);
        }
        k = k + 1;
    }
    assert(parts.take(ranges@.len() as int) =~= parts);
    set
}

impl<A> Message<A> {
    /// Finishes reading a request, given the outcome of parsing its address
    /// token (`None` when the token is no socket address). A `STREAM` line
    /// with a bad address is refused as such before its tickers are looked
    /// at; one without tickers, or whose ticker field names none, is refused
    /// for an empty ticker list.
    pub fn from_request_line(line: RequestLine, udp_address: Option<A>) -> (r: Result<
        Message<A>,
        RequestError,
    >)
        ensures
            line is Ping ==> r matches Ok(Message::Ping),
            line is Stream && udp_address is None ==> r matches Err(
                RequestError::InvalidUdpAddress,
            ),
            line is Stream && udp_address is Some ==> match line->tickers {
                None => r matches Err(RequestError::EmptyTickerList),
                Some(field) => if requested(field@).len() == 0 {
                    r matches Err(RequestError::EmptyTickerList)
                } else {
                    r matches Ok(Message::SubscribeRequest { udp_address: a, tickers })
                        && udp_address == Some(a) && tickers@ == requested(field@)
                },
            },
    {
        match line {
            RequestLine::Ping => Ok(Message::Ping),
            RequestLine::Stream { address: _, tickers } => {
                let a = match udp_address {
                    Some(a) => a,
                    None => {
                        return Err(RequestError::InvalidUdpAddress);
                    },
                };
                let field = match tickers {
                    Some(f) => f,
                    None => {
                        return Err(RequestError::EmptyTickerList);
                    },
                };
                let set = parse_ticker_field(field.as_str());
                if set.is_empty() {
                    return Err(RequestError::EmptyTickerList);
                }
                Ok(Message::SubscribeRequest { udp_address: a, tickers: set })
            },
        }
    }
}

impl Response {
    /// The answer line, without its newline.
    pub open spec fn text(self) -> Seq<char> {
        match self {
            Response::Accepted => "OK"@,
            Response::Error(e) => "ERR "@ + e.message(),
        }
    }

    /// The answer line as text: `OK`, or `ERR ` and the error text.
    pub fn to_string(&self) -> (r: String)
        ensures
            r@ == self.text(),
    {
        match self {
            Response::Accepted => String::from_str("OK"),
            Response::Error(e) => {
                let mut r = String::from_str("ERR ");
                let m = e.to_string();
                r.append(m.as_str());
                r
            },
        }
    }
}

/// The request line a client sends to subscribe, without its newline.
pub open spec fn subscribe_text(address: Seq<char>, tickers: Seq<Seq<char>>) -> Seq<char> {
    "STREAM "@ + address + " "@ + join(tickers, ", "@)
}

impl Message<String> {
    /// The request line, without its newline; the address is given as the
    /// text the socket address is written as.
    pub open spec fn text(self) -> Seq<char> {
        match self {
            Message::SubscribeRequest { udp_address, tickers } => subscribe_text(
                udp_address@,
                tickers@,
            ),
            Message::Ping => "PING"@,
        }
    }

    /// The request line as text: `PING`, or `STREAM`, the address and the
    /// tickers joined by `, `.
    pub fn to_string(&self) -> (r: String)
        ensures
            r@ == self.text(),
    {
        match self {
            Message::SubscribeRequest { udp_address, tickers } => {
                let mut r = String::from_str("STREAM ");
                r.append(udp_address.as_str());
                r.append(" ");
                let names = tickers.names();
                let list = join_strings(&names, ", ");
                r.append(list.as_str());
                r
            },
            Message::Ping => String::from_str("PING"),
        }
    }
}

/// What the server does with a request.
pub enum Admission<A> {
    /// Start streaming `tickers` to `udp_address`, and answer `OK`.
    Register { udp_address: A, tickers: TickerSet },
    /// Answer with this response and do nothing more.
    Refuse(Response),
}

/// The requested tickers that `valid` does not hold, in request order.
pub open spec fn missing(requested: Seq<Seq<char>>, valid: Seq<Seq<char>>) -> Seq<Seq<char>>
    decreases requested.len(),
{
    if requested.len() == 0 {
        Seq::empty()
    } else {
        let rest = missing(requested.drop_last(), valid);
        if valid.contains(requested.last()) {
            rest
        } else {
            rest.push(requested.last())
        }
    }
}

/// The requested tickers that `valid` does not hold.
fn unknown_tickers(requested: &TickerSet, valid: &TickerSet) -> (r: Vec<String>)
    ensures
        r@.map_values(|s: String| s@) == missing(requested@, valid@),
{
    let mut out: Vec<String> = Vec::new();
    let mut i: usize = 0;
    let n = requested.len();
    while i < n
        invariant
            0 <= i <= n,
            n == requested@.len(),
            out@.map_values(|s: String| s@) == missing(requested@.take(i as int), valid@),
        decreases n - i,
    {
        let name = requested.get(i);
        let ghost before = out@.map_values(|s: String| s@);
        let ghost prefix = requested@.take(i + 1int);
        assert(prefix.drop_last() =~= requested@.take(i as int));
        assert(prefix.last() == name@);
        if !valid.contains(name.as_str()) {
            out.push(name.clone());
            assert(out@.map_values(|s: String| s@) =~= before.push(name@));
        }
        i = i + 1;
    }
    assert(requested@.take(n as int) =~= requested@);
    out
}

/// Decides a request: a subscription whose tickers are all in `valid` is
/// registered; one naming tickers outside `valid` is refused with those
/// tickers, joined by `, `; `PING` over TCP is an invalid command; a request
/// that could not be read is refused with its error.
pub fn review_request<A>(request: Result<Message<A>, RequestError>, valid: &TickerSet) -> (r:
    Admission<A>)
    ensures
        request matches Err(e) ==> r == Admission::<A>::Refuse(Response::Error(e)),
        request matches Ok(Message::Ping) ==> r matches Admission::Refuse(
            Response::Error(RequestError::InvalidCommand),
        ),
        request matches Ok(Message::SubscribeRequest { udp_address, tickers }) ==> if missing(
            tickers@,
            valid@,
        ).len() == 0 {
            r == Admission::Register { udp_address, tickers }
        } else {
            r matches Admission::Refuse(Response::Error(RequestError::UnknownTicker(list)))
                && list@ == join(missing(tickers@, valid@), ", "@)
        },
{
    match request {
        Err(e) => Admission::Refuse(Response::Error(e)),
        Ok(Message::Ping) => Admission::Refuse(Response::Error(RequestError::InvalidCommand)),
        Ok(Message::SubscribeRequest { udp_address, tickers }) => {
            let unknown = unknown_tickers(&tickers, valid);
            if unknown.len() == 0 {
                Admission::Register { udp_address, tickers }
            } else {
                let list = join_strings(&unknown, ", ");
                Admission::Refuse(Response::Error(RequestError::UnknownTicker(list)))
            }
        },
    }
}

/// The client's reading of the server's answer.
pub enum Reply {
    /// `OK`.
    Subscribed,
    /// `ERR ` and this reason.
    Refused(String),
    /// Anything else, trimmed.
    Unrecognized(String),
}

/// The trimmed answer is `OK`.
pub open spec fn reads_as_subscribed(s: Seq<char>) -> bool {
    trim(s) == "OK"@
}

/// The trimmed answer, not `OK`, starts with `ERR `.
pub open spec fn reads_as_refused(s: Seq<char>) -> bool {
    !reads_as_subscribed(s) && trim(s).len() >= 4 && trim(s).take(4) == "ERR "@
}

/// Reads the server's one-line answer to a subscription.
pub fn classify_reply(line: &str) -> (r: Reply)
    ensures
        reads_as_subscribed(line@) ==> r is Subscribed,
        reads_as_refused(line@) ==> (r matches Reply::Refused(reason) && reason@ == trim(
            line@,
        ).skip(4)),
        !reads_as_subscribed(line@) && !reads_as_refused(line@) ==> (
        r matches Reply::Unrecognized(text) && text@ == trim(line@)),
{
    let v = chars_of(line);
    let (a, b) = trimmed_range(&v, 0, v.len());
    assert(v@.subrange(0, v@.len() as int) =~= line@);
    proof {
        reveal_strlit("OK");
        reveal_strlit("ERR ");
    }
    if b - a == 2 && starts_with_at(&v, a, b, "OK") {
        assert(v@.subrange(a as int, b as int) =~= v@.subrange(a as int, a + 2int));
        return Reply::Subscribed;
    }
    if starts_with_at(&v, a, b, "ERR ") {
        let reason = string_of(&v, a + 4, b);
        assert(reason@ =~= trim(line@).skip(4));
        assert(trim(line@).take(4) =~= v@.subrange(a as int, a + 4int));
        return Reply::Refused(reason);
    }
    proof {
        if trim(line@).len() >= 4 {
            assert(trim(line@).take(4) =~= v@.subrange(a as int, a + 4int));
        }
    }
    Reply::Unrecognized(string_of(&v, a, b))
}

/// The keep-alive datagram, `PING` and a newline.
pub open spec fn ping_datagram() -> Seq<u8> {
    seq![0x50u8, 0x49u8, 0x4eu8, 0x47u8, 0x0au8]
}

/// Whether a datagram is exactly the keep-alive `PING\n`.
pub fn is_ping_datagram(bytes: &[u8]) -> (r: bool)
    ensures
        r == (bytes@ == ping_datagram()),
{
    let r = bytes.len() == 5 && bytes[0] == 0x50u8 && bytes[1] == 0x49u8 && bytes[2] == 0x4eu8
        && bytes[3] == 0x47u8 && bytes[4] == 0x0au8;
    if r {
        assert(bytes@ =~= ping_datagram());
    }
    r
}

/// The client reads the server's answers as they were meant: `OK` as a
/// subscription, and the answer to a refused request as a refusal carrying
/// the error's text, whenever that text ends in something other than
/// whitespace (true of every error but an unknown-ticker list that is empty
/// or ends in whitespace).
pub proof fn lemma_answers_read_back(e: RequestError)
    requires
        e.message().len() > 0,
        !is_whitespace(e.message().last()),
    ensures
        reads_as_subscribed(Response::Accepted.text() + seq!['\n']),
        reads_as_refused(Response::Error(e).text() + seq!['\n']),
        trim(Response::Error(e).text() + seq!['\n']).skip(4) == e.message(),
{
    reveal_strlit("OK");
    reveal_strlit("ERR ");
    let ok = Response::Accepted.text();
    lemma_trim_newline(ok);
    let m = e.message();
    let x = Response::Error(e).text();
    assert(x =~= "ERR "@ + m);
    assert(x.last() == m.last());
    lemma_trim_newline(x);
    assert(x.take(4) =~= "ERR "@);
    assert(x.skip(4) =~= m);
}

/// The keep-alive request line `PING`, with or without its newline, is read
/// as `PING`.
pub proof fn lemma_ping_line_reads_back()
    ensures
        is_ping_line(Message::<String>::Ping.text()),
        is_ping_line(Message::<String>::Ping.text() + seq!['\n']),
{
    reveal_strlit("PING");
    let p = Message::<String>::Ping.text();
    assert(p[0] == 'P' && p.last() == 'G');
    lemma_trim_plain(p);
    lemma_trim_newline(p);
}

/// A ticker that can be written into a request and read back: non-empty,
/// no whitespace at its ends, no comma.
pub open spec fn writable_ticker(t: Seq<char>) -> bool {
    t.len() > 0 && trim(t) == t && !t.contains(',')
}

proof fn lemma_field_names_exact(parts: Seq<Seq<char>>, names: Seq<Seq<char>>)
    requires
        parts.len() == names.len(),
        forall|i: int|
            0 <= i < parts.len() ==> trim(#[trigger] parts[i]) == names[i] && names[i].len() > 0,
    ensures
        field_names(parts) == names,
    decreases parts.len(),
{
    if parts.len() > 0 {
        lemma_field_names_exact(parts.drop_last(), names.drop_last());
        assert(trim(parts[parts.len() - 1]) == names[names.len() - 1]);
        assert(names.drop_last().push(names.last()) =~= names);
    }
}

/// The server reads back what a client writes: the subscribe line for an
/// address with no space and a non-empty, repeat-free list of writable
/// tickers is a `STREAM` line whose address token is that address and whose
/// ticker field names exactly those tickers, in the same order; sent with
/// its newline, it reads the same.
pub proof fn lemma_subscribe_line_reads_back(address: Seq<char>, tickers: Seq<Seq<char>>)
    requires
        !address.contains(' '),
        tickers.len() > 0,
        tickers.no_duplicates(),
        forall|i: int| 0 <= i < tickers.len() ==> writable_ticker(#[trigger] tickers[i]),
    ensures
        !is_ping_line(subscribe_text(address, tickers)),
        is_stream_line(subscribe_text(address, tickers)),
        address_token(subscribe_text(address, tickers)) == address,
        ticker_field(subscribe_text(address, tickers)) == Some(join(tickers, ", "@)),
        requested(join(tickers, ", "@)) == tickers,
        trim(subscribe_text(address, tickers) + seq!['\n']) == trim(
            subscribe_text(address, tickers),
        ),
{
    reveal_strlit("STREAM ");
    reveal_strlit(" ");
    reveal_strlit(", ");
    reveal_strlit("PING");
    let sep = ", "@;
    assert(sep =~= seq![',', ' ']);
    let j = join(tickers, sep);
    let line = subscribe_text(address, tickers);
    assert(writable_ticker(tickers[tickers.len() - 1]));
    lemma_trimmed_ends(tickers.last());
    lemma_join_last(tickers, sep);
    assert(line.last() == j.last());
    assert(line[0] == 'S');
    lemma_trim_plain(line);
    lemma_trim_newline(line);
    assert(line.take(7) =~= "STREAM "@);
    let rest = stream_rest(line);
    assert(rest =~= address + seq![' '] + j);
    assert forall|k: int| 0 <= k < address.len() implies rest[k] != ' ' by {
        assert(rest[k] == address[k]);
    }
    lemma_index_of(rest, ' ', address.len() as int);
    assert(rest.take(address.len() as int) =~= address);
    assert(rest.skip(address.len() + 1int) =~= j);
    assert forall|i: int| 0 <= i < tickers.len() implies !(#[trigger] tickers[i]).contains(',') by {
        assert(writable_ticker(tickers[i]));
    }
    lemma_split_comma_join(Seq::empty(), tickers);
    assert(Seq::<char>::empty() + j =~= j);
    let parts = split(j, ',');
    assert forall|i: int| 0 <= i < parts.len() implies trim(#[trigger] parts[i]) == tickers[i]
        && tickers[i].len() > 0 by {
        assert(writable_ticker(tickers[i]));
        if i == 0 {
            assert(parts[0] =~= tickers[0]);
        } else {
            assert(parts[i] == seq![' '] + tickers[i]);
            lemma_trim_after_space(tickers[i]);
        }
    }
    lemma_field_names_exact(parts, tickers);
    lemma_dedup_distinct(tickers);
}

proof fn lemma_field_names_writable(parts: Seq<Seq<char>>)
    requires
        forall|i: int| 0 <= i < parts.len() ==> !(#[trigger] parts[i]).contains(','),
    ensures
        forall|i: int|
            0 <= i < field_names(parts).len() ==> writable_ticker(#[trigger] field_names(parts)[i]),
    decreases parts.len(),
{
    if parts.len() > 0 {
        let init = parts.drop_last();
        assert forall|i: int| 0 <= i < init.len() implies !(#[trigger] init[i]).contains(',') by {
            assert(init[i] == parts[i]);
        }
        lemma_field_names_writable(init);
        let p = parts.last();
        let t = trim(p);
        assert(!p.contains(','));
        lemma_trim_idempotent(p);
        lemma_trim_within(p);
        assert(!t.contains(',')) by {
            if t.contains(',') {
                let k = choose|k: int| 0 <= k < t.len() && t[k] == ',';
                assert(p.contains(t[k]));
            }
        }
        let rest = field_names(init);
        assert forall|i: int| 0 <= i < field_names(parts).len() implies writable_ticker(
            #[trigger] field_names(parts)[i],
        ) by {
            if i < rest.len() {
                assert(field_names(parts)[i] == rest[i]);
            }
        }
    }
}

/// Every ticker the server reads from a request can be written into a
/// request and read back: it is non-empty, has no whitespace at its ends
/// and no comma, and none is read twice.
pub proof fn lemma_requested_writable(field: Seq<char>)
    ensures
        requested(field).no_duplicates(),
        forall|i: int|
            0 <= i < requested(field).len() ==> writable_ticker(#[trigger] requested(field)[i]),
{
    let parts = split(field, ',');
    lemma_split_no_separator(field, ',');
    lemma_field_names_writable(parts);
    let names = field_names(parts);
    lemma_dedup(names);
    assert forall|i: int| 0 <= i < requested(field).len() implies writable_ticker(
        #[trigger] requested(field)[i],
    ) by {
        let t = requested(field)[i];
        assert(requested(field).contains(t));
        assert(names.contains(t));
        let j = choose|j: int| 0 <= j < names.len() && names[j] == t;
        assert(writable_ticker(names[j]));
    }
}

/// A subscription the server has read, written back by a client with an
/// address that holds no space, is read as the same subscription.
pub proof fn lemma_request_rewrites_identically(address: Seq<char>, field: Seq<char>)
    requires
        !address.contains(' '),
        requested(field).len() > 0,
    ensures
        is_stream_line(subscribe_text(address, requested(field))),
        address_token(subscribe_text(address, requested(field))) == address,
        ticker_field(subscribe_text(address, requested(field))) matches Some(f) && requested(f)
            == requested(field),
{
    lemma_requested_writable(field);
    lemma_subscribe_line_reads_back(address, requested(field));
}

/// The tickers reported unknown are exactly the requested tickers that the
/// valid set does not hold; so a request is registered exactly when every
/// ticker it names is valid.
pub proof fn lemma_missing_exactly(requested: Seq<Seq<char>>, valid: Seq<Seq<char>>)
    ensures
        forall|t: Seq<char>|
            #[trigger] missing(requested, valid).contains(t) <==> (requested.contains(t)
                && !valid.contains(t)),
        missing(requested, valid).len() == 0 <==> forall|i: int|
            0 <= i < requested.len() ==> valid.contains(#[trigger] requested[i]),
    decreases requested.len(),
{
    let m = missing(requested, valid);
    if requested.len() > 0 {
        let init = requested.drop_last();
        let l = requested.last();
        lemma_missing_exactly(init, valid);
        let rest = missing(init, valid);
        assert forall|t: Seq<char>| #[trigger] m.contains(t) <==> (requested.contains(t)
            && !valid.contains(t)) by {
            if m.contains(t) {
                let k = choose|k: int| 0 <= k < m.len() && m[k] == t;
                if k < rest.len() {
                    assert(rest[k] == t);
                    assert(rest.contains(t));
                    let j = choose|j: int| 0 <= j < init.len() && init[j] == t;
                    assert(requested[j] == t);
                } else {
                    assert(requested[requested.len() - 1] == t);
                }
            }
            if requested.contains(t) && !valid.contains(t) {
                let j = choose|j: int| 0 <= j < requested.len() && requested[j] == t;
                if j < requested.len() - 1 {
                    assert(init[j] == t);
                    assert(init.contains(t));
                    assert(rest.contains(t));
                    let k = choose|k: int| 0 <= k < rest.len() && rest[k] == t;
                    if !valid.contains(l) {
                        assert(m[k] == t);
                    }
                } else {
                    assert(m[rest.len() as int] == t);
                }
            }
        }
    }
    if m.len() == 0 {
        assert forall|i: int| 0 <= i < requested.len() implies valid.contains(
            #[trigger] requested[i],
        ) by {
            assert(requested.contains(requested[i]));
            if !valid.contains(requested[i]) {
                assert(m.contains(requested[i]));
            }
        }
    } else {
        let t = m[0];
        assert(m.contains(t));
        let j = choose|j: int| 0 <= j < requested.len() && requested[j] == t;
        assert(!valid.contains(requested[j]));
    }
}

} // verus!
