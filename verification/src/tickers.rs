//! Ticker symbols: the duplicate-free, insertion-ordered set that requests
//! and ticker lists are read into, and the ways the service builds one.

use vstd::prelude::*;
use crate::text::{chars_of, pieces, ranges_within, split, split_ranges, string_of, trim, trimmed_range};

verus! {

/// Uppercase mapping of a string, as `str::to_uppercase` computes it from
/// the Unicode tables of the standard library.
pub uninterp spec fn uppercase(s: Seq<char>) -> Seq<char>;

/// Every character is ASCII.
pub open spec fn is_ascii_text(s: Seq<char>) -> bool {
    forall|i: int| 0 <= i < s.len() ==> (#[trigger] s[i] as u32) < 128
}

/// `c` with an ASCII lowercase letter replaced by its uppercase letter.
pub open spec fn ascii_upper(c: char) -> char {
    if 'a' <= c <= 'z' {
        ((c as u32) - 32) as char
    } else {
        c
    }
}

/// `str::to_uppercase`: the result is the uppercase mapping of `s`. Of that
/// mapping its documentation and the Unicode `Uppercase` property it names
/// give plainly: the empty string stays empty, and in ASCII text the letters
/// `a` to `z` become `A` to `Z` while every other character stays. The
/// mapping of other characters (Unicode case tables) is left unsaid.
#[verifier::external_body]
fn to_uppercase(s: &str) -> (r: String)
    ensures
        r@ == uppercase(s@),
        s@.len() == 0 ==> r@.len() == 0,
        is_ascii_text(s@) ==> r@ == s@.map_values(|c: char| ascii_upper(c)),
{
    s.to_uppercase()
}

/// `s` with later repetitions of an element dropped, first occurrences kept
/// in order.
pub open spec fn dedup(s: Seq<Seq<char>>) -> Seq<Seq<char>>
    decreases s.len(),
{
    if s.len() == 0 {
        s
    } else {
        let rest = dedup(s.drop_last());
        if rest.contains(s.last()) {
            rest
        } else {
            rest.push(s.last())
        }
    }
}

/// `dedup` keeps exactly the elements of its argument and no duplicates.
pub proof fn lemma_dedup(s: Seq<Seq<char>>)
    ensures
        dedup(s).no_duplicates(),
        forall|x: Seq<char>| dedup(s).contains(x) <==> s.contains(x),
        dedup(s).to_set() == s.to_set(),
    decreases s.len(),
{
    if s.len() > 0 {
        lemma_dedup(s.drop_last());
        let rest = dedup(s.drop_last());
        let l = s.last();
        let d = dedup(s);
        assert forall|x: Seq<char>| d.contains(x) <==> s.contains(x) by {
            if s.contains(x) {
                let k = choose|k: int| 0 <= k < s.len() && s[k] == x;
                if k < s.len() - 1 {
                    assert(s.drop_last()[k] == x);
                    assert(s.drop_last().contains(x));
                    assert(rest.contains(x));
                    let j = choose|j: int| 0 <= j < rest.len() && rest[j] == x;
                    if !rest.contains(l) {
                        assert(d[j] == x);
                    }
                } else if !rest.contains(l) {
                    assert(d[rest.len() as int] == x);
                }
            }
            if d.contains(x) {
                let k = choose|k: int| 0 <= k < d.len() && d[k] == x;
                if k < rest.len() {
                    assert(rest[k] == x);
                    assert(s.drop_last().contains(x));
                    let j = choose|j: int| 0 <= j < s.drop_last().len() && s.drop_last()[j] == x;
                    assert(s[j] == x);
                } else {
                    assert(s[s.len() - 1] == x);
                }
            }
        }
    }
    assert(dedup(s).to_set() =~= s.to_set());
}

/// A list without repeats is its own `dedup`.
pub proof fn lemma_dedup_distinct(s: Seq<Seq<char>>)
    requires
        s.no_duplicates(),
    ensures
        dedup(s) == s,
    decreases s.len(),
{
    if s.len() > 0 {
        let d = s.drop_last();
        assert(d.no_duplicates());
        lemma_dedup_distinct(d);
        assert(!d.contains(s.last())) by {
            if d.contains(s.last()) {
                let k = choose|k: int| 0 <= k < d.len() && d[k] == s.last();
                assert(s[k] == s[s.len() - 1]);
            }
        }
        assert(d.push(s.last()) =~= s);
    }
}

/// A duplicate-free list of ticker symbols, kept in the order they were
/// first added.
pub struct TickerSet {
    items: Vec<String>,
}

impl View for TickerSet {
    type V = Seq<Seq<char>>;

    closed spec fn view(&self) -> Seq<Seq<char>> {
        self.items@.map_values(|s: String| s@)
    }
}

impl TickerSet {
    #[verifier::type_invariant]
    closed spec fn no_repeats(self) -> bool {
        self@.no_duplicates()
    }

    /// The empty set.
    pub fn new() -> (r: TickerSet)
        ensures
            r@ == Seq::<Seq<char>>::empty(),
    {
        let r = TickerSet { items: Vec::new() };
        assert(r@ =~= Seq::<Seq<char>>::empty());
        r
    }

    /// Every value of the type lists no ticker twice.
    pub fn len(&self) -> (r: usize)
        ensures
            r == self@.len(),
            self@.no_duplicates(),
    {
        proof {
            use_type_invariant(self);
        }
        self.items.len()
    }

    pub fn is_empty(&self) -> (r: bool)
        ensures
            r == (self@.len() == 0),
    {
        self.items.len() == 0
    }

    /// The `i`-th ticker, in insertion order.
    pub fn get(&self, i: usize) -> (r: &String)
        requires
            i < self@.len(),
        ensures
            r@ == self@[i as int],
    {
        &self.items[i]
    }

    /// Whether `ticker` is in the set.
    pub fn contains(&self, ticker: &str) -> (r: bool)
        ensures
            r == self@.contains(ticker@),
    {
        let t = String::from_str(ticker);
        let mut i: usize = 0;
        while i < self.items.len()
            invariant
                0 <= i <= self.items@.len(),
                t@ == ticker@,
                forall|k: int| 0 <= k < i ==> self@[k] != ticker@,
            decreases self.items@.len() - i,
        {
            if self.items[i] == t {
                assert(self@[i as int] == ticker@);
                return true;
            }
            i = i + 1;
        }
        false
    }

    /// Adds `ticker` unless it is already present; says whether it was added.
    pub fn insert(&mut self, ticker: String) -> (r: bool)
        ensures
            r == !old(self)@.contains(ticker@),
            final(self)@ == (if r {
                old(self)@.push(ticker@)
            } else {
                old(self)@
            }),
    {
        proof {
            use_type_invariant(&*self);
        }
        if self.contains(ticker.as_str()) {
            return false;
        }
        let ghost before = self@;
        let mut items: Vec<String> = Vec::new();
        std::mem::swap(&mut items, &mut self.items);
        items.push(ticker);
        proof {
            let after = items@.map_values(|s: String| s@);
            assert(after =~= before.push(ticker@));
        }
        self.items = items;
        true
    }
}

impl TickerSet {
    /// The tickers, in order.
    pub fn names(&self) -> (r: Vec<String>)
        ensures
            r@.map_values(|s: String| s@) == self@,
    {
        let mut out: Vec<String> = Vec::new();
        let mut i: usize = 0;
        while i < self.items.len()
            invariant
                0 <= i <= self.items@.len(),
                out@.map_values(|s: String| s@) == self@.take(i as int),
            decreases self.items@.len() - i,
        {
            let ghost before = out@.map_values(|s: String| s@);
            out.push(self.items[i].clone());
            assert(out@.map_values(|s: String| s@) =~= before.push(self@[i as int]));
            assert(self@.take(i + 1int) =~= self@.take(i as int).push(self@[i as int]));
            i = i + 1;
        }
        assert(self@.take(self.items@.len() as int) =~= self@);
        out
    }
}

/// The tickers a list of lines names: each line trimmed and uppercased,
/// lines left empty skipped.
pub open spec fn ticker_lines(lines: Seq<Seq<char>>) -> Seq<Seq<char>>
    decreases lines.len(),
{
    if lines.len() == 0 {
        Seq::empty()
    } else {
        let rest = ticker_lines(lines.drop_last());
        let t = uppercase(trim(lines.last()));
        if t.len() > 0 {
            rest.push(t)
        } else {
            rest
        }
    }
}

/// What is known of the uppercase mapping of `t`: empty stays empty, and
/// ASCII text has its lowercase letters raised.
pub open spec fn uppercase_known(t: Seq<char>) -> bool {
    &&& t.len() == 0 ==> uppercase(t).len() == 0
    &&& is_ascii_text(t) ==> uppercase(t) == t.map_values(|c: char| ascii_upper(c))
}

/// Trimmed and uppercased text of `v[lo..hi]`.
fn clean_name(v: &Vec<char>, lo: usize, hi: usize) -> (r: String)
    requires
        lo <= hi <= v@.len(),
    ensures
        r@ == uppercase(trim(v@.subrange(lo as int, hi as int))),
        uppercase_known(trim(v@.subrange(lo as int, hi as int))),
{
    let (a, b) = trimmed_range(v, lo, hi);
    let s = string_of(v, a, b);
    to_uppercase(s.as_str())
}

/// The ticker list held in `text`, one ticker per line: each line is trimmed
/// and uppercased, and lines left empty are skipped. Repeats are kept once,
/// in the order they first appear.
pub fn load_tickers(text: &str) -> (r: TickerSet)
    ensures
        r@ == dedup(ticker_lines(split(text@, '\n'))),
        forall|i: int|
            0 <= i < split(text@, '\n').len() ==> uppercase_known(
                trim(#[trigger] split(text@, '\n')[i]),
            ),
{
    let v = chars_of(text);
    let ranges = split_ranges(&v, 0, v.len(), '\n');
    assert(v@.subrange(0, v@.len() as int) =~= text@);
    let ghost lines = pieces(v@, ranges@);
    let mut set = TickerSet::new();
    let mut k: usize = 0;
    while k < ranges.len()
        invariant
            0 <= k <= ranges@.len(),
            lines == pieces(v@, ranges@),
            lines.len() == ranges@.len(),
            ranges_within(ranges@, 0, v@.len() as int),
            set@ == dedup(ticker_lines(lines.take(k as int))),
            forall|i: int| 0 <= i < k ==> uppercase_known(trim(#[trigger] lines[i])),
        decreases ranges@.len() - k,
    {
        let (lo, hi) = ranges[k];
        assert(lo <= hi <= v@.len()) by {
            assert(ranges@[k as int].0 <= ranges@[k as int].1);
        }
        let name = clean_name(&v, lo, hi);
        let ghost prefix = lines.take(k + 1int);
        let ghost before = ticker_lines(lines.take(k as int));
        assert(prefix.drop_last() =~= lines.take(k as int));
        assert(prefix.last() == v@.subrange(lo as int, hi as int));
        assert(before.push(name@).drop_last() =~= before);
        if !name.as_str().is_empty() {
            set.insert(name);
        }
        k = k + 1;
    }
    assert(lines.take(ranges@.len() as int) =~= lines);
    set
}

/// The set a list of names gives when each is trimmed and uppercased.
pub fn from_names(names: &Vec<String>) -> (r: TickerSet)
    ensures
        r@ == dedup(names@.map_values(|s: String| uppercase(trim(s@)))),
        forall|i: int| 0 <= i < names@.len() ==> uppercase_known(trim(#[trigger] names@[i]@)),
{
    let ghost all = names@.map_values(|s: String| uppercase(trim(s@)));
    let mut set = TickerSet::new();
    let mut k: usize = 0;
    while k < names.len()
        invariant
            0 <= k <= names@.len(),
            all == names@.map_values(|s: String| uppercase(trim(s@))),
            set@ == dedup(all.take(k as int)),
            forall|i: int| 0 <= i < k ==> uppercase_known(trim(#[trigger] names@[i]@)),
        decreases names@.len() - k,
    {
        let v = chars_of(names[k].as_str());
        let name = clean_name(&v, 0, v.len());
        assert(v@.subrange(0, v@.len() as int) =~= names@[k as int]@);
        assert(all.take(k + 1int).drop_last() =~= all.take(k as int));
        set.insert(name);
        k = k + 1;
    }
    assert(all.take(names@.len() as int) =~= all);
    set
}

/// The tickers a client follows when it is given none.
pub open spec fn default_names() -> Seq<Seq<char>> {
    seq!["AAPL"@, "MSFT"@, "AMZN"@, "NVDA"@, "GOOGL"@, "YNDX"@, "YDEX"@]
}

/// No two default names are the same.
proof fn lemma_default_names_distinct()
    ensures
        default_names().no_duplicates(),
{
    reveal_strlit("AAPL");
    reveal_strlit("MSFT");
    reveal_strlit("AMZN");
    reveal_strlit("NVDA");
    reveal_strlit("GOOGL");
    reveal_strlit("YNDX");
    reveal_strlit("YDEX");
    let d = default_names();
    assert forall|i: int, j: int| 0 <= i < d.len() && 0 <= j < d.len() && i != j implies d[i]
        != d[j] by {
        assert(d[i][0] != d[j][0] || d[i][1] != d[j][1] || d[i].len() != d[j].len());
    }
}

/// In a list without repeats, no element occurs before its own position.
proof fn lemma_not_earlier(d: Seq<Seq<char>>, k: int)
    requires
        d.no_duplicates(),
        0 <= k < d.len(),
    ensures
        !d.take(k).contains(d[k]),
{
    if d.take(k).contains(d[k]) {
        let j = choose|j: int| 0 <= j < k && d.take(k)[j] == d[k];
        assert(d[j] == d[k]);
    }
}

/// The set of `default_names`, in that order.
pub fn default_tickers() -> (r: TickerSet)
    ensures
        r@ == default_names(),
{
    let names: [&str; 7] = ["AAPL", "MSFT", "AMZN", "NVDA", "GOOGL", "YNDX", "YDEX"];
    let ghost d = default_names();
    assert(names@.map_values(|s: &str| s@) =~= d);
    proof {
        lemma_default_names_distinct();
    }
    let mut set = TickerSet::new();
    let mut i: usize = 0;
    while i < 7
        invariant
            0 <= i <= 7,
            d == default_names(),
            d.len() == 7,
            d.no_duplicates(),
            names@.map_values(|s: &str| s@) == d,
            set@ == d.take(i as int),
        decreases 7 - i,
    {
        proof {
            lemma_not_earlier(d, i as int);
        }
        assert(names@.map_values(|s: &str| s@)[i as int] == names[i as int]@);
        set.insert(String::from_str(names[i]));
        assert(d.take(i + 1int) =~= d.take(i as int).push(d[i as int]));
        i = i + 1;
    }
    assert(d.take(7) =~= d);
    set
}

} // verus!
