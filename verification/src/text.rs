//! Character-level building blocks shared by the wire formats: Unicode
//! whitespace trimming, splitting on a separator, and the exec helpers that
//! work on a string's characters by index.

use vstd::prelude::*;
use vstd::std_specs::iter::IteratorSpec;

verus! {

broadcast use vstd::string::group_string_axioms;

/// Unicode `White_Space` property, the definition `str::trim` uses.
pub open spec fn is_whitespace(c: char) -> bool {
    let u = c as u32;
    ||| 0x9 <= u <= 0xd
    ||| u == 0x20
    ||| u == 0x85
    ||| u == 0xa0
    ||| u == 0x1680
    ||| 0x2000 <= u <= 0x200a
    ||| u == 0x2028
    ||| u == 0x2029
    ||| u == 0x202f
    ||| u == 0x205f
    ||| u == 0x3000
}

/// `s` without its leading whitespace.
pub open spec fn trim_start(s: Seq<char>) -> Seq<char>
    decreases s.len(),
{
    if s.len() > 0 && is_whitespace(s[0]) {
        trim_start(s.drop_first())
    } else {
        s
    }
}

/// `s` without its trailing whitespace.
pub open spec fn trim_end(s: Seq<char>) -> Seq<char>
    decreases s.len(),
{
    if s.len() > 0 && is_whitespace(s.last()) {
        trim_end(s.drop_last())
    } else {
        s
    }
}

/// `s` without leading and trailing whitespace.
pub open spec fn trim(s: Seq<char>) -> Seq<char> {
    trim_end(trim_start(s))
}

pub(crate) fn char_is_whitespace(c: char) -> (r: bool)
    ensures
        r == is_whitespace(c),
{
    let u = c as u32;
    (0x9 <= u && u <= 0xd) || u == 0x20 || u == 0x85 || u == 0xa0 || u == 0x1680 || (0x2000 <= u
        && u <= 0x200a) || u == 0x2028 || u == 0x2029 || u == 0x202f || u == 0x205f || u == 0x3000
}

/// The characters of `s`, in order.
pub(crate) fn chars_of(s: &str) -> (v: Vec<char>)
    ensures
        v@ == s@,
{
    let mut v: Vec<char> = Vec::new();
    let mut it = s.chars();
    loop
        invariant
            it.remaining() == s@.skip(v@.len() as int),
            v@ == s@.take(v@.len() as int),
            v@.len() <= s@.len(),
        decreases s@.len() - v@.len(),
    {
        match it.next() {
            Some(c) => {
                assert(s@.skip(v@.len() as int).drop_first() =~= s@.skip(v@.len() + 1int));
                v.push(c);
                assert(v@ =~= s@.take(v@.len() as int));
            },
            None => {
                assert(v@ =~= s@);
                return v;
            },
        }
    }
}


/// Bounds of `trim(v[lo..hi])` inside `v`.
pub(crate) fn trimmed_range(v: &Vec<char>, lo: usize, hi: usize) -> (r: (usize, usize))
    requires
        lo <= hi <= v@.len(),
    ensures
        lo <= r.0 <= r.1 <= hi,
        v@.subrange(r.0 as int, r.1 as int) == trim(v@.subrange(lo as int, hi as int)),
{
    let mut a = lo;
    while a < hi && char_is_whitespace(v[a])
        invariant
            lo <= a <= hi <= v@.len(),
            trim_start(v@.subrange(lo as int, hi as int)) == trim_start(
                v@.subrange(a as int, hi as int),
            ),
        decreases hi - a,
    {
        assert(v@.subrange(a as int, hi as int).drop_first() =~= v@.subrange(
            a + 1int,
            hi as int,
        ));
        a = a + 1;
    }
    assert(trim_start(v@.subrange(a as int, hi as int)) == v@.subrange(a as int, hi as int));
    let mut b = hi;
    while b > a && char_is_whitespace(v[b - 1])
        invariant
            lo <= a <= b <= hi <= v@.len(),
            trim_end(v@.subrange(a as int, hi as int)) == trim_end(v@.subrange(a as int, b as int)),
        decreases b - a,
    {
        assert(v@.subrange(a as int, b as int).drop_last() =~= v@.subrange(
            a as int,
            b - 1int,
        ));
        b = b - 1;
    }
    (a, b)
}

/// Position of the first `c` in `s`, or `s.len()` when `s` holds none.
pub open spec fn index_of(s: Seq<char>, c: char) -> int
    decreases s.len(),
{
    if s.len() == 0 {
        0
    } else if s[0] == c {
        0
    } else {
        1 + index_of(s.drop_first(), c)
    }
}

/// `index_of` is the least position holding `c`, or the length.
pub proof fn lemma_index_of(s: Seq<char>, c: char, i: int)
    requires
        0 <= i <= s.len(),
        forall|k: int| 0 <= k < i ==> s[k] != c,
        i == s.len() || s[i] == c,
    ensures
        index_of(s, c) == i,
    decreases s.len(),
{
    if s.len() > 0 && s[0] != c {
        lemma_index_of(s.drop_first(), c, i - 1);
    }
}

/// Facts about `index_of` that callers use.
pub proof fn lemma_index_of_bounds(s: Seq<char>, c: char)
    ensures
        0 <= index_of(s, c) <= s.len(),
        forall|k: int| 0 <= k < index_of(s, c) ==> s[k] != c,
        index_of(s, c) < s.len() ==> s[index_of(s, c)] == c,
    decreases s.len(),
{
    if s.len() > 0 && s[0] != c {
        lemma_index_of_bounds(s.drop_first(), c);
        assert forall|k: int| 0 <= k < index_of(s, c) implies s[k] != c by {
            if k > 0 {
                assert(s[k] == s.drop_first()[k - 1]);
            }
        }
    }
}

/// First position at or after `from` (and before `hi`) that holds `c`, or `hi`.
pub(crate) fn find_char(v: &Vec<char>, from: usize, hi: usize, c: char) -> (r: usize)
    requires
        from <= hi <= v@.len(),
    ensures
        from <= r <= hi,
        r - from == index_of(v@.subrange(from as int, hi as int), c),
{
    let mut i = from;
    while i < hi && v[i] != c
        invariant
            from <= i <= hi <= v@.len(),
            forall|k: int| from <= k < i ==> v@[k] != c,
        decreases hi - i,
    {
        i = i + 1;
    }
    proof {
        lemma_index_of(v@.subrange(from as int, hi as int), c, i - from);
    }
    i
}

/// The pieces of `s` between occurrences of `sep`, as `str::split` yields them:
/// always at least one piece, empty pieces included.
pub open spec fn split(s: Seq<char>, sep: char) -> Seq<Seq<char>>
    decreases s.len(),
{
    let i = index_of(s, sep);
    if i >= s.len() {
        seq![s]
    } else {
        proof {
            lemma_index_of_bounds(s, sep);
        }
        seq![s.take(i)] + split(s.skip(i + 1), sep)
    }
}

/// The text that each range of `ranges` covers in `v`.
pub open spec fn pieces(v: Seq<char>, ranges: Seq<(usize, usize)>) -> Seq<Seq<char>> {
    ranges.map_values(|r: (usize, usize)| v.subrange(r.0 as int, r.1 as int))
}

/// Every range lies inside `lo..hi`.
pub open spec fn ranges_within(ranges: Seq<(usize, usize)>, lo: int, hi: int) -> bool {
    forall|k: int| 0 <= k < ranges.len() ==> lo <= #[trigger] ranges[k].0 <= ranges[k].1 <= hi
}

/// Ranges, inside `v`, of the pieces of `v[lo..hi]` split on `sep`.
pub(crate) fn split_ranges(v: &Vec<char>, lo: usize, hi: usize, sep: char) -> (r: Vec<(usize, usize)>)
    requires
        lo <= hi <= v@.len(),
    ensures
        ranges_within(r@, lo as int, hi as int),
        pieces(v@, r@) == split(v@.subrange(lo as int, hi as int), sep),
{
    let mut out: Vec<(usize, usize)> = Vec::new();
    let mut start = lo;
    loop
        invariant
            lo <= start <= hi <= v@.len(),
            ranges_within(out@, lo as int, hi as int),
            split(v@.subrange(lo as int, hi as int), sep) == pieces(v@, out@) + split(
                v@.subrange(start as int, hi as int),
                sep,
            ),
        decreases hi - start,
    {
        let j = find_char(v, start, hi, sep);
        let ghost rest = v@.subrange(start as int, hi as int);
        let ghost before = pieces(v@, out@);
        proof {
            lemma_index_of_bounds(rest, sep);
        }
        out.push((start, j));
        assert(pieces(v@, out@) =~= before.push(v@.subrange(start as int, j as int)));
        if j == hi {
            assert(split(rest, sep) == seq![rest]);
            assert(pieces(v@, out@) =~= before + seq![rest]);
            return out;
        }
        assert(rest.take(j - start) =~= v@.subrange(start as int, j as int));
        assert(rest.skip(j - start + 1) =~= v@.subrange(j + 1int, hi as int));
        assert(split(rest, sep) == seq![v@.subrange(start as int, j as int)] + split(
            v@.subrange(j + 1int, hi as int),
            sep,
        ));
        assert(before + split(rest, sep) =~= pieces(v@, out@) + split(
            v@.subrange(j + 1int, hi as int),
            sep,
        ));
        start = j + 1;
    }
}

/// The characters `v[lo..hi]` as a `String`; `String: FromIterator<&char>`
/// collects the characters in order, and the range is checked by `requires`
/// so that the slice cannot panic.
#[verifier::external_body]
pub(crate) fn string_of(v: &Vec<char>, lo: usize, hi: usize) -> (r: String)
    requires
        lo <= hi <= v@.len(),
    ensures
        r@ == v@.subrange(lo as int, hi as int),
{
    v[lo..hi].iter().collect()
}

/// A piece holding no separator splits into itself alone.
pub proof fn lemma_split_single(a: Seq<char>, c: char)
    requires
        !a.contains(c),
    ensures
        split(a, c) == seq![a],
{
    lemma_index_of(a, c, a.len() as int);
}

/// Splitting `a`, a separator, then `b`, when `a` holds no separator.
pub proof fn lemma_split_cons(a: Seq<char>, c: char, b: Seq<char>)
    requires
        !a.contains(c),
    ensures
        split(a + seq![c] + b, c) == seq![a] + split(b, c),
{
    let s = a + seq![c] + b;
    assert forall|k: int| 0 <= k < a.len() implies s[k] != c by {
        assert(s[k] == a[k]);
    }
    lemma_index_of(s, c, a.len() as int);
    assert(s.take(a.len() as int) =~= a);
    assert(s.skip(a.len() + 1int) =~= b);
}

/// Text with no whitespace at either end is its own trim.
pub proof fn lemma_trim_plain(s: Seq<char>)
    requires
        s.len() > 0 ==> !is_whitespace(s[0]) && !is_whitespace(s.last()),
    ensures
        trim(s) == s,
{
}

/// Text without whitespace is its own trim.
pub proof fn lemma_trim_no_whitespace(s: Seq<char>)
    requires
        forall|i: int| 0 <= i < s.len() ==> !is_whitespace(#[trigger] s[i]),
    ensures
        trim(s) == s,
{
    if s.len() > 0 {
        assert(!is_whitespace(s[s.len() - 1]));
    }
    lemma_trim_plain(s);
}

/// The pieces written one after another with `sep` between neighbours, as
/// `[&str]::join` does.
pub open spec fn join(items: Seq<Seq<char>>, sep: Seq<char>) -> Seq<char>
    decreases items.len(),
{
    if items.len() == 0 {
        Seq::empty()
    } else if items.len() == 1 {
        items[0]
    } else {
        join(items.drop_last(), sep) + sep + items.last()
    }
}

/// `join` unfolded from the front.
pub proof fn lemma_join_front(items: Seq<Seq<char>>, sep: Seq<char>)
    requires
        items.len() >= 2,
    ensures
        join(items, sep) == items[0] + sep + join(items.drop_first(), sep),
    decreases items.len(),
{
    let dl = items.drop_last();
    let df = items.drop_first();
    assert(dl[0] == items[0]);
    assert(df.last() == items.last());
    if items.len() == 2 {
        assert(df[0] == items[1]);
        assert(join(dl, sep) == items[0]);
        assert(join(df, sep) == items[1]);
        assert(join(items, sep) == join(dl, sep) + sep + items.last());
    } else {
        lemma_join_front(dl, sep);
        assert(dl.drop_first() =~= df.drop_last());
        assert(join(items, sep) =~= items[0] + sep + (join(df.drop_last(), sep) + sep + df.last()));
        assert(join(df, sep) == join(df.drop_last(), sep) + sep + df.last());
    }
}

/// The strings of `list` joined with `sep`.
pub(crate) fn join_strings(list: &Vec<String>, sep: &str) -> (r: String)
    ensures
        r@ == join(list@.map_values(|s: String| s@), sep@),
{
    let ghost items = list@.map_values(|s: String| s@);
    let mut out = String::new();
    let mut k: usize = 0;
    while k < list.len()
        invariant
            0 <= k <= list@.len(),
            items == list@.map_values(|s: String| s@),
            out@ == join(items.take(k as int), sep@),
        decreases list@.len() - k,
    {
        let ghost prefix = items.take(k + 1int);
        assert(prefix.drop_last() =~= items.take(k as int));
        if k > 0 {
            out.append(sep);
        } else {
            assert(out@ + list@[0]@ =~= list@[0]@);
        }
        out.append(list[k].as_str());
        k = k + 1;
    }
    assert(items.take(list@.len() as int) =~= items);
    out
}

/// Splitting on `,` a list joined with `", "`, behind a prefix `p`: the
/// first piece carries the prefix, every later one a leading space.
pub proof fn lemma_split_comma_join(p: Seq<char>, names: Seq<Seq<char>>)
    requires
        names.len() > 0,
        !p.contains(','),
        forall|i: int| 0 <= i < names.len() ==> !(#[trigger] names[i]).contains(','),
    ensures
        split(p + join(names, seq![',', ' ']), ',') == seq![p + names[0]]
            + names.drop_first().map_values(|t: Seq<char>| seq![' '] + t),
    decreases names.len(),
{
    let sep = seq![',', ' '];
    let first = p + names[0];
    assert(!first.contains(',')) by {
        if first.contains(',') {
            let i = choose|i: int| 0 <= i < first.len() && first[i] == ',';
            if i < p.len() {
                assert(p[i] == ',');
            } else {
                assert(names[0][i - p.len()] == ',');
            }
        }
    }
    if names.len() == 1 {
        assert(p + join(names, sep) =~= first);
        lemma_split_single(first, ',');
        assert(names.drop_first().map_values(|t: Seq<char>| seq![' '] + t) =~= Seq::<
            Seq<char>,
        >::empty());
    } else {
        lemma_join_front(names, sep);
        let rest = names.drop_first();
        assert(p + join(names, sep) =~= first + seq![','] + (seq![' '] + join(rest, sep)));
        lemma_split_cons(first, ',', seq![' '] + join(rest, sep));
        assert forall|i: int| 0 <= i < rest.len() implies !(#[trigger] rest[i]).contains(',') by {
            assert(rest[i] == names[i + 1]);
        }
        lemma_split_comma_join(seq![' '], rest);
        assert(names.drop_first().map_values(|t: Seq<char>| seq![' '] + t) =~= seq![seq![' ']
            + rest[0]] + rest.drop_first().map_values(|t: Seq<char>| seq![' '] + t));
    }
}

/// A non-empty piece without whitespace at its ends is the trim of itself
/// behind a space.
pub proof fn lemma_trim_after_space(t: Seq<char>)
    requires
        t.len() > 0,
        trim(t) == t,
    ensures
        trim(seq![' '] + t) == t,
{
    let s = seq![' '] + t;
    assert(s.drop_first() =~= t);
    if is_whitespace(t[0]) {
        lemma_trim_start_drops(t);
    }
    assert(trim_start(t) == t);
    assert(trim_start(s) == t);
}

/// A piece that starts with whitespace loses it to its trim.
proof fn lemma_trim_start_drops(t: Seq<char>)
    requires
        t.len() > 0,
        is_whitespace(t[0]),
    ensures
        trim(t) != t,
{
    lemma_trim_start_shorter(t.drop_first());
    lemma_trim_end_shorter(trim_start(t));
}

proof fn lemma_trim_start_shorter(t: Seq<char>)
    ensures
        trim_start(t).len() <= t.len(),
    decreases t.len(),
{
    if t.len() > 0 && is_whitespace(t[0]) {
        lemma_trim_start_shorter(t.drop_first());
    }
}

proof fn lemma_trim_end_shorter(t: Seq<char>)
    ensures
        trim_end(t).len() <= t.len(),
    decreases t.len(),
{
    if t.len() > 0 && is_whitespace(t.last()) {
        lemma_trim_end_shorter(t.drop_last());
    }
}

/// The last character of a join is the last character of its last piece.
pub proof fn lemma_join_last(items: Seq<Seq<char>>, sep: Seq<char>)
    requires
        items.len() > 0,
        items.last().len() > 0,
    ensures
        join(items, sep).len() > 0,
        join(items, sep).last() == items.last().last(),
{
}

/// A non-empty text that is its own trim starts and ends with no whitespace.
pub proof fn lemma_trimmed_ends(t: Seq<char>)
    requires
        t.len() > 0,
        trim(t) == t,
    ensures
        !is_whitespace(t[0]),
        !is_whitespace(t.last()),
{
    if is_whitespace(t[0]) {
        lemma_trim_start_drops(t);
    }
    assert(trim_start(t) == t);
    if is_whitespace(t.last()) {
        lemma_trim_end_shorter(t.drop_last());
    }
}

/// A line ending in a newline trims to the line without it, when the line
/// starts and ends with no whitespace.
pub proof fn lemma_trim_newline(x: Seq<char>)
    requires
        x.len() > 0,
        !is_whitespace(x[0]),
        !is_whitespace(x.last()),
    ensures
        trim(x + seq!['\n']) == x,
{
    let y = x + seq!['\n'];
    assert(y.drop_last() =~= x);
    assert(trim_start(y) == y);
    assert(trim_end(x) == x);
}

/// Whether `v[lo..]` starts with the characters of `word`.
pub(crate) fn starts_with_at(v: &Vec<char>, lo: usize, hi: usize, word: &str) -> (r: bool)
    requires
        lo <= hi <= v@.len(),
    ensures
        r == (hi - lo >= word@.len() && v@.subrange(lo as int, lo + word@.len()) == word@),
{
    let w = chars_of(word);
    if hi - lo < w.len() {
        return false;
    }
    let mut i: usize = 0;
    while i < w.len()
        invariant
            0 <= i <= w@.len(),
            w@ == word@,
            lo + w@.len() <= hi <= v@.len(),
            forall|k: int| 0 <= k < i ==> v@[lo + k] == w@[k],
        decreases w@.len() - i,
    {
        if v[lo + i] != w[i] {
            assert(v@.subrange(lo as int, lo + w@.len())[i as int] != w@[i as int]);
            return false;
        }
        i = i + 1;
    }
    assert(v@.subrange(lo as int, lo + w@.len()) =~= w@);
    true
}

/// No piece of a split holds the separator.
pub proof fn lemma_split_no_separator(s: Seq<char>, c: char)
    ensures
        forall|i: int| 0 <= i < split(s, c).len() ==> !(#[trigger] split(s, c)[i]).contains(c),
    decreases s.len(),
{
    lemma_index_of_bounds(s, c);
    let i = index_of(s, c);
    if i >= s.len() {
        assert(split(s, c) == seq![s]);
        assert(!s.contains(c)) by {
            if s.contains(c) {
                let k = choose|k: int| 0 <= k < s.len() && s[k] == c;
                assert(s[k] != c);
            }
        }
    } else {
        let head = s.take(i);
        lemma_split_no_separator(s.skip(i + 1), c);
        assert(!head.contains(c)) by {
            if head.contains(c) {
                let k = choose|k: int| 0 <= k < head.len() && head[k] == c;
                assert(s[k] == c);
            }
        }
        let parts = split(s, c);
        assert forall|j: int| 0 <= j < parts.len() implies !(#[trigger] parts[j]).contains(c) by {
            if j > 0 {
                assert(parts[j] == split(s.skip(i + 1), c)[j - 1]);
            }
        }
    }
}

/// Every character of `trim_start(s)` is a character of `s`.
proof fn lemma_trim_start_within(s: Seq<char>)
    ensures
        forall|k: int| 0 <= k < trim_start(s).len() ==> s.contains(#[trigger] trim_start(s)[k]),
    decreases s.len(),
{
    if s.len() > 0 && is_whitespace(s[0]) {
        lemma_trim_start_within(s.drop_first());
        assert forall|k: int| 0 <= k < trim_start(s).len() implies s.contains(
            #[trigger] trim_start(s)[k],
        ) by {
            let x = trim_start(s)[k];
            assert(trim_start(s) == trim_start(s.drop_first()));
            assert(x == trim_start(s.drop_first())[k]);
            assert(s.drop_first().contains(x));
            let j = choose|j: int| 0 <= j < s.drop_first().len() && s.drop_first()[j] == x;
            assert(s[j + 1] == x);
        }
    } else {
        assert forall|k: int| 0 <= k < trim_start(s).len() implies s.contains(
            #[trigger] trim_start(s)[k],
        ) by {
            assert(s[k] == trim_start(s)[k]);
        }
    }
}

/// `trim_end(s)` is a prefix of `s`.
proof fn lemma_trim_end_prefix(s: Seq<char>)
    ensures
        trim_end(s).len() <= s.len(),
        trim_end(s) == s.take(trim_end(s).len() as int),
    decreases s.len(),
{
    if s.len() > 0 && is_whitespace(s.last()) {
        lemma_trim_end_prefix(s.drop_last());
        assert(s.drop_last().take(trim_end(s).len() as int) =~= s.take(trim_end(s).len() as int));
    } else {
        assert(s.take(s.len() as int) =~= s);
    }
}

/// Every character of `trim(s)` is a character of `s`.
pub proof fn lemma_trim_within(s: Seq<char>)
    ensures
        forall|k: int| 0 <= k < trim(s).len() ==> s.contains(#[trigger] trim(s)[k]),
{
    let t = trim_start(s);
    lemma_trim_start_within(s);
    lemma_trim_end_prefix(t);
    assert forall|k: int| 0 <= k < trim(s).len() implies s.contains(#[trigger] trim(s)[k]) by {
        assert(trim(s)[k] == t[k]);
    }
}

/// Trimming twice is trimming once.
pub proof fn lemma_trim_idempotent(s: Seq<char>)
    ensures
        trim(trim(s)) == trim(s),
{
    let t = trim_start(s);
    let u = trim_end(t);
    lemma_trim_end_prefix(t);
    if u.len() > 0 {
        assert(!is_whitespace(t[0])) by {
            lemma_trim_start_stops(s);
        }
        assert(u[0] == t[0]);
        assert(!is_whitespace(u.last())) by {
            lemma_trim_end_stops(t);
        }
    }
    lemma_trim_plain(u);
}

proof fn lemma_trim_start_stops(s: Seq<char>)
    ensures
        trim_start(s).len() > 0 ==> !is_whitespace(trim_start(s)[0]),
    decreases s.len(),
{
    if s.len() > 0 && is_whitespace(s[0]) {
        lemma_trim_start_stops(s.drop_first());
    }
}

proof fn lemma_trim_end_stops(s: Seq<char>)
    ensures
        trim_end(s).len() > 0 ==> !is_whitespace(trim_end(s).last()),
    decreases s.len(),
{
    if s.len() > 0 && is_whitespace(s.last()) {
        lemma_trim_end_stops(s.drop_last());
    }
}

} // verus!
