//! Decimal numbers on the wire: reading unsigned integers the way
//! `str::parse` does, writing them the way `Display` does, and recognising
//! the text of a floating-point number by the grammar that `f64::from_str`
//! documents.

use vstd::prelude::*;
use crate::text::{chars_of, find_char, index_of, is_whitespace, lemma_index_of, lemma_index_of_bounds};

verus! {

pub open spec fn is_digit(c: char) -> bool {
    '0' <= c <= '9'
}

pub open spec fn digit_value(c: char) -> nat {
    (c as u32 - '0' as u32) as nat
}

pub open spec fn all_digits(s: Seq<char>) -> bool {
    forall|i: int| 0 <= i < s.len() ==> is_digit(#[trigger] s[i])
}

/// Value of a run of decimal digits, most significant first.
pub open spec fn digits_value(s: Seq<char>) -> nat
    decreases s.len(),
{
    if s.len() == 0 {
        0
    } else {
        digits_value(s.drop_last()) * 10 + digit_value(s.last())
    }
}

/// `s` without one leading `+`.
pub open spec fn strip_plus(s: Seq<char>) -> Seq<char> {
    if s.len() > 0 && s[0] == '+' {
        s.drop_first()
    } else {
        s
    }
}

/// What `str::parse` reads as an unsigned integer: an optional `+`, then one
/// or more decimal digits. `None` for anything else.
pub open spec fn unsigned_value(s: Seq<char>) -> Option<nat> {
    let body = strip_plus(s);
    if body.len() > 0 && all_digits(body) {
        Some(digits_value(body))
    } else {
        None
    }
}

/// The digit character for `d < 10`.
pub open spec fn digit_char(d: nat) -> char {
    if d == 0 {
        '0'
    } else if d == 1 {
        '1'
    } else if d == 2 {
        '2'
    } else if d == 3 {
        '3'
    } else if d == 4 {
        '4'
    } else if d == 5 {
        '5'
    } else if d == 6 {
        '6'
    } else if d == 7 {
        '7'
    } else if d == 8 {
        '8'
    } else {
        '9'
    }
}

proof fn lemma_digit_char(d: nat)
    requires
        d < 10,
    ensures
        is_digit(digit_char(d)),
        digit_value(digit_char(d)) == d,
{
}

/// Decimal text of `n` as `Display` writes it: no sign, no leading zeros.
pub open spec fn decimal(n: nat) -> Seq<char>
    decreases n,
{
    if n < 10 {
        seq![digit_char(n)]
    } else {
        decimal(n / 10).push(digit_char(n % 10))
    }
}

/// The decimal text of a number is read back as that number.
pub proof fn lemma_decimal_reads_back(n: nat)
    ensures
        decimal(n).len() > 0,
        all_digits(decimal(n)),
        decimal(n)[0] != '+',
        digits_value(decimal(n)) == n,
        unsigned_value(decimal(n)) == Some(n),
    decreases n,
{
    lemma_digit_char(n % 10);
    let s = decimal(n);
    if n < 10 {
        assert(s.drop_last() =~= Seq::<char>::empty());
        assert(digits_value(s.drop_last()) == 0);
        assert(digits_value(s) == n);
    } else {
        lemma_decimal_reads_back(n / 10);
        assert(s.drop_last() =~= decimal(n / 10));
        assert(n == (n / 10) * 10 + n % 10);
        assert(digits_value(s) == n);
        assert(all_digits(s)) by {
            assert forall|i: int| 0 <= i < s.len() implies is_digit(#[trigger] s[i]) by {
                if i < s.len() - 1 {
                    assert(s[i] == decimal(n / 10)[i]);
                }
            }
        }
    }
    assert(is_digit(s[0]));
    assert(strip_plus(s) == s);
}

/// The digits of a number carry no whitespace and no separator characters.
pub proof fn lemma_digits_plain(s: Seq<char>, i: int)
    requires
        all_digits(s),
        0 <= i < s.len(),
    ensures
        !is_whitespace(s[i]),
        s[i] != '|',
        s[i] != ',',
        s[i] != ' ',
{
    assert(is_digit(s[i]));
}

/// A longer run of digits is worth at least as much as its prefix.
pub proof fn lemma_digits_value_prefix(s: Seq<char>, k: int)
    requires
        0 <= k <= s.len(),
    ensures
        digits_value(s.take(k)) <= digits_value(s),
    decreases s.len(),
{
    if k < s.len() {
        lemma_digits_value_prefix(s.drop_last(), k);
        assert(s.drop_last().take(k) =~= s.take(k));
    } else {
        assert(s.take(k) =~= s);
    }
}

fn digit_of(c: char) -> (r: u64)
    requires
        is_digit(c),
    ensures
        r == digit_value(c),
        r < 10,
{
    (c as u32 - '0' as u32) as u64
}

/// Reads `v[lo..hi]` as an unsigned integer no greater than `max`.
pub(crate) fn parse_unsigned(v: &Vec<char>, lo: usize, hi: usize, max: u64) -> (r: Option<u64>)
    requires
        lo <= hi <= v@.len(),
    ensures
        r matches Some(n) ==> unsigned_value(v@.subrange(lo as int, hi as int)) == Some(n as nat)
            && n <= max,
        r is None ==> !(unsigned_value(v@.subrange(lo as int, hi as int)) matches Some(m) && m
            <= max),
{
    let ghost s = v@.subrange(lo as int, hi as int);
    let start = if lo < hi && v[lo] == '+' {
        lo + 1
    } else {
        lo
    };
    let ghost body = v@.subrange(start as int, hi as int);
    assert(body =~= strip_plus(s));
    if start == hi {
        return None;
    }
    let mut i = start;
    while i < hi
        invariant
            start <= i <= hi <= v@.len(),
            body == v@.subrange(start as int, hi as int),
            body == strip_plus(v@.subrange(lo as int, hi as int)),
            forall|k: int| start <= k < i ==> is_digit(#[trigger] v@[k]),
        decreases hi - i,
    {
        if !(v[i] >= '0' && v[i] <= '9') {
            assert(!is_digit(body[i - start]));
            return None;
        }
        i = i + 1;
    }
    assert(all_digits(body)) by {
        assert forall|k: int| 0 <= k < body.len() implies is_digit(#[trigger] body[k]) by {
            assert(body[k] == v@[start + k]);
        }
    }
    let mut acc: u64 = 0;
    let mut j = start;
    while j < hi
        invariant
            start <= j <= hi <= v@.len(),
            body == v@.subrange(start as int, hi as int),
            body == strip_plus(v@.subrange(lo as int, hi as int)),
            all_digits(body),
            acc == digits_value(body.take(j - start)),
            acc <= max,
        decreases hi - j,
    {
        let ghost prefix = body.take(j + 1 - start);
        assert(prefix.drop_last() =~= body.take(j - start));
        assert(prefix.last() == v@[j as int]);
        assert(is_digit(body[j - start]));
        let d = digit_of(v[j]);
        proof {
            lemma_digits_value_prefix(body, j + 1 - start);
        }
        let next = match acc.checked_mul(10) {
            Some(t) => t.checked_add(d),
            None => None,
        };
        match next {
            Some(t) => {
                if t > max {
                    return None;
                }
                acc = t;
            },
            None => {
                return None;
            },
        }
        j = j + 1;
    }
    assert(body.take(hi - start) =~= body);
    Some(acc)
}

fn digit_text(d: u64) -> (r: &'static str)
    requires
        d < 10,
    ensures
        r@ == seq![digit_char(d as nat)],
{
    if d == 0 {
        proof {
            reveal_strlit("0");
        }
        "0"
    } else if d == 1 {
        proof {
            reveal_strlit("1");
        }
        "1"
    } else if d == 2 {
        proof {
            reveal_strlit("2");
        }
        "2"
    } else if d == 3 {
        proof {
            reveal_strlit("3");
        }
        "3"
    } else if d == 4 {
        proof {
            reveal_strlit("4");
        }
        "4"
    } else if d == 5 {
        proof {
            reveal_strlit("5");
        }
        "5"
    } else if d == 6 {
        proof {
            reveal_strlit("6");
        }
        "6"
    } else if d == 7 {
        proof {
            reveal_strlit("7");
        }
        "7"
    } else if d == 8 {
        proof {
            reveal_strlit("8");
        }
        "8"
    } else {
        proof {
            reveal_strlit("9");
        }
        "9"
    }
}

/// Appends the decimal text of `n` to `out`.
pub(crate) fn push_decimal(out: &mut String, n: u64)
    ensures
        final(out)@ == old(out)@ + decimal(n as nat),
    decreases n,
{
    if n >= 10 {
        push_decimal(out, n / 10);
    }
    out.append(digit_text(n % 10));
}

pub open spec fn is_sign(c: char) -> bool {
    c == '+' || c == '-'
}

/// `s` without one leading sign.
pub open spec fn strip_sign(s: Seq<char>) -> Seq<char> {
    if s.len() > 0 && is_sign(s[0]) {
        s.drop_first()
    } else {
        s
    }
}

/// `s` spells the lowercase ASCII word `w`, in any mix of ASCII case.
pub open spec fn spells(s: Seq<char>, w: Seq<char>) -> bool {
    &&& s.len() == w.len()
    &&& forall|i: int|
        0 <= i < s.len() ==> (s[i] == w[i] || s[i] as u32 + 32 == #[trigger] w[i] as u32)
}

/// Position of the first `e` or `E` in `s`, or `s.len()`.
pub open spec fn exponent_index(s: Seq<char>) -> int
    decreases s.len(),
{
    if s.len() == 0 {
        0
    } else if s[0] == 'e' || s[0] == 'E' {
        0
    } else {
        1 + exponent_index(s.drop_first())
    }
}

pub proof fn lemma_exponent_index(s: Seq<char>, i: int)
    requires
        0 <= i <= s.len(),
        forall|k: int| 0 <= k < i ==> s[k] != 'e' && s[k] != 'E',
        i == s.len() || s[i] == 'e' || s[i] == 'E',
    ensures
        exponent_index(s) == i,
    decreases s.len(),
{
    if s.len() > 0 && s[0] != 'e' && s[0] != 'E' {
        lemma_exponent_index(s.drop_first(), i - 1);
    }
}

/// `Digit+ | Digit+ '.' Digit* | Digit* '.' Digit+`: digits with at most one
/// point and at least one digit.
pub open spec fn is_mantissa(m: Seq<char>) -> bool {
    let d = index_of(m, '.');
    if d >= m.len() {
        m.len() > 0 && all_digits(m)
    } else {
        all_digits(m.take(d)) && all_digits(m.skip(d + 1)) && m.len() > 1
    }
}

/// `Sign? Digit+`, what follows the `e` of an exponent.
pub open spec fn is_exponent(e: Seq<char>) -> bool {
    strip_sign(e).len() > 0 && all_digits(strip_sign(e))
}

/// `Number ::= Mantissa Exp?`
pub open spec fn is_number(b: Seq<char>) -> bool {
    let e = exponent_index(b);
    is_mantissa(b.take(e)) && (e >= b.len() || is_exponent(b.skip(e + 1)))
}

/// The text that `f64::from_str` accepts, by the grammar its documentation
/// gives (case-insensitively):
/// `Sign? ( 'inf' | 'infinity' | 'nan' | Number )`.
pub open spec fn is_float_text(s: Seq<char>) -> bool {
    let b = strip_sign(s);
    ||| spells(b, seq!['i', 'n', 'f'])
    ||| spells(b, seq!['i', 'n', 'f', 'i', 'n', 'i', 't', 'y'])
    ||| spells(b, seq!['n', 'a', 'n'])
    ||| is_number(b)
}

/// A float's text carries no whitespace and none of the wire separators.
pub proof fn lemma_float_text_plain(s: Seq<char>, i: int)
    requires
        is_float_text(s),
        0 <= i < s.len(),
    ensures
        !is_whitespace(s[i]),
        s[i] != '|',
{
    let b = strip_sign(s);
    let j = if s.len() > 0 && is_sign(s[0]) {
        i - 1
    } else {
        i
    };
    if j >= 0 {
        assert(s[i] == b[j]);
        if spells(b, seq!['i', 'n', 'f']) || spells(b, seq!['i', 'n', 'f', 'i', 'n', 'i', 't', 'y'])
            || spells(b, seq!['n', 'a', 'n']) {
        } else {
            let e = exponent_index(b);
            lemma_exponent_bounds(b);
            let m = b.take(e);
            if j < e {
                assert(b[j] == m[j]);
                lemma_index_of_bounds(m, '.');
                let d = index_of(m, '.');
                if d >= m.len() {
                    assert(is_digit(m[j]));
                } else if j < d {
                    assert(m[j] == m.take(d)[j]);
                    assert(is_digit(m.take(d)[j]));
                } else if j > d {
                    assert(m[j] == m.skip(d + 1)[j - d - 1]);
                    assert(is_digit(m.skip(d + 1)[j - d - 1]));
                }
            } else if j > e {
                let x = b.skip(e + 1);
                assert(b[j] == x[j - e - 1]);
                if x.len() > 0 && is_sign(x[0]) {
                    if j - e - 1 > 0 {
                        assert(x[j - e - 1] == strip_sign(x)[j - e - 2]);
                        assert(is_digit(strip_sign(x)[j - e - 2]));
                    }
                } else {
                    assert(is_digit(strip_sign(x)[j - e - 1]));
                }
            }
        }
    }
}

pub proof fn lemma_exponent_bounds(s: Seq<char>)
    ensures
        0 <= exponent_index(s) <= s.len(),
        exponent_index(s) < s.len() ==> (s[exponent_index(s)] == 'e' || s[exponent_index(s)]
            == 'E'),
    decreases s.len(),
{
    if s.len() > 0 && s[0] != 'e' && s[0] != 'E' {
        lemma_exponent_bounds(s.drop_first());
    }
}

/// Whether every character of `v[lo..hi]` is a decimal digit.
pub(crate) fn digits_at(v: &Vec<char>, lo: usize, hi: usize) -> (r: bool)
    requires
        lo <= hi <= v@.len(),
    ensures
        r == all_digits(v@.subrange(lo as int, hi as int)),
{
    let mut i = lo;
    while i < hi
        invariant
            lo <= i <= hi <= v@.len(),
            forall|k: int| lo <= k < i ==> is_digit(#[trigger] v@[k]),
        decreases hi - i,
    {
        if !(v[i] >= '0' && v[i] <= '9') {
            assert(!is_digit(v@.subrange(lo as int, hi as int)[i - lo]));
            return false;
        }
        i = i + 1;
    }
    assert forall|k: int| 0 <= k < hi - lo implies is_digit(
        #[trigger] v@.subrange(lo as int, hi as int)[k],
    ) by {
        assert(v@.subrange(lo as int, hi as int)[k] == v@[lo + k]);
    }
    true
}

fn same_letter(c: char, w: char) -> (r: bool)
    ensures
        r == (c == w || c as u32 + 32 == w as u32),
{
    c == w || (c as u32) + 32 == (w as u32)
}

/// Whether `v[lo..hi]` spells the lowercase ASCII word `word`, in any mix of
/// ASCII case.
fn spells_at(v: &Vec<char>, lo: usize, hi: usize, word: &str) -> (r: bool)
    requires
        lo <= hi <= v@.len(),
    ensures
        r == spells(v@.subrange(lo as int, hi as int), word@),
{
    let ghost b = v@.subrange(lo as int, hi as int);
    let w = chars_of(word);
    if hi - lo != w.len() {
        return false;
    }
    let mut i: usize = 0;
    while i < w.len()
        invariant
            0 <= i <= w@.len(),
            w@ == word@,
            b == v@.subrange(lo as int, hi as int),
            hi - lo == w@.len(),
            lo <= hi <= v@.len(),
            forall|k: int| 0 <= k < i ==> (b[k] == w@[k] || b[k] as u32 + 32 == #[trigger] w@[k] as u32),
        decreases w@.len() - i,
    {
        assert(b[i as int] == v@[lo + i]);
        if !same_letter(v[lo + i], w[i]) {
            return false;
        }
        i = i + 1;
    }
    true
}

/// Whether `v[lo..hi]` spells one of the special float words.
fn special_float_word(v: &Vec<char>, lo: usize, hi: usize) -> (r: bool)
    requires
        lo <= hi <= v@.len(),
    ensures
        r == ({
            let b = v@.subrange(lo as int, hi as int);
            ||| spells(b, seq!['i', 'n', 'f'])
            ||| spells(b, seq!['i', 'n', 'f', 'i', 'n', 'i', 't', 'y'])
            ||| spells(b, seq!['n', 'a', 'n'])
        }),
{
    proof {
        reveal_strlit("inf");
        reveal_strlit("infinity");
        reveal_strlit("nan");
        assert("inf"@ =~= seq!['i', 'n', 'f']);
        assert("infinity"@ =~= seq!['i', 'n', 'f', 'i', 'n', 'i', 't', 'y']);
        assert("nan"@ =~= seq!['n', 'a', 'n']);
    }
    spells_at(v, lo, hi, "inf") || spells_at(v, lo, hi, "infinity") || spells_at(v, lo, hi, "nan")
}

/// Position of the first `e` or `E` at or after `lo` (and before `hi`), or `hi`.
fn find_exponent(v: &Vec<char>, lo: usize, hi: usize) -> (r: usize)
    requires
        lo <= hi <= v@.len(),
    ensures
        lo <= r <= hi,
        r - lo == exponent_index(v@.subrange(lo as int, hi as int)),
{
    let mut i = lo;
    while i < hi && v[i] != 'e' && v[i] != 'E'
        invariant
            lo <= i <= hi <= v@.len(),
            forall|k: int| lo <= k < i ==> v@[k] != 'e' && v@[k] != 'E',
        decreases hi - i,
    {
        i = i + 1;
    }
    proof {
        lemma_exponent_index(v@.subrange(lo as int, hi as int), i - lo);
    }
    i
}

/// Whether `v[lo..hi]` is text that `f64::from_str` accepts.
pub(crate) fn float_text_at(v: &Vec<char>, lo: usize, hi: usize) -> (r: bool)
    requires
        lo <= hi <= v@.len(),
    ensures
        r == is_float_text(v@.subrange(lo as int, hi as int)),
{
    let ghost s = v@.subrange(lo as int, hi as int);
    let b = if lo < hi && (v[lo] == '+' || v[lo] == '-') {
        lo + 1
    } else {
        lo
    };
    let ghost body = v@.subrange(b as int, hi as int);
    assert(body =~= strip_sign(s));
    if special_float_word(v, b, hi) {
        return true;
    }
    let e = find_exponent(v, b, hi);
    let d = find_char(v, b, e, '.');
    let ghost m = body.take(e - b);
    assert(m =~= v@.subrange(b as int, e as int));
    proof {
        lemma_index_of_bounds(m, '.');
    }
    let mantissa = if d == e {
        e > b && digits_at(v, b, e)
    } else {
        assert(m.take(d - b) =~= v@.subrange(b as int, d as int));
        assert(m.skip(d - b + 1) =~= v@.subrange(d + 1int, e as int));
        digits_at(v, b, d) && digits_at(v, d + 1, e) && e - b > 1
    };
    assert(mantissa == is_mantissa(m));
    if !mantissa {
        return false;
    }
    if e == hi {
        return true;
    }
    let x = e + 1;
    let ghost ex = body.skip(e - b + 1);
    assert(ex =~= v@.subrange(x as int, hi as int));
    let xs = if x < hi && (v[x] == '+' || v[x] == '-') {
        x + 1
    } else {
        x
    };
    assert(strip_sign(ex) =~= v@.subrange(xs as int, hi as int));
    xs < hi && digits_at(v, xs, hi)
}

/// A non-empty run of the ASCII digits `0` to `9`.
pub open spec fn digit_run(s: Seq<char>) -> bool {
    s.len() > 0 && forall|i: int| 0 <= i < s.len() ==> '0' <= #[trigger] s[i] <= '9'
}

/// `m` (digits, possibly with one point) has no `e` or `E`.
proof fn lemma_no_exponent_mark(m: Seq<char>)
    requires
        forall|i: int| 0 <= i < m.len() ==> ('0' <= #[trigger] m[i] <= '9' || m[i] == '.'),
    ensures
        exponent_index(m) == m.len(),
{
    lemma_exponent_index(m, m.len() as int);
}

/// Digits, then a point, then digits, are a mantissa.
proof fn lemma_point_mantissa(a: Seq<char>, b: Seq<char>)
    requires
        digit_run(a),
        digit_run(b),
    ensures
        is_mantissa(a + seq!['.'] + b),
        is_mantissa(a),
{
    let m = a + seq!['.'] + b;
    assert forall|k: int| 0 <= k < a.len() implies m[k] != '.' by {
        assert(m[k] == a[k]);
    }
    lemma_index_of(m, '.', a.len() as int);
    assert(m.take(a.len() as int) =~= a);
    assert(m.skip(a.len() + 1int) =~= b);
    assert forall|k: int| 0 <= k < a.len() implies a[k] != '.' by {}
    lemma_index_of(a, '.', a.len() as int);
}

/// Every decimal text `f64`'s `Display` can write is float text: digits
/// alone, or digits, a point and digits, with any number of digits on
/// either side, after an optional sign, and with an optional exponent.
pub proof fn lemma_decimal_texts_are_float_text(
    sign: Seq<char>,
    a: Seq<char>,
    b: Seq<char>,
    x: Seq<char>,
)
    requires
        sign == Seq::<char>::empty() || sign == seq!['-'] || sign == seq!['+'],
        digit_run(a),
        digit_run(b),
        digit_run(x),
    ensures
        is_float_text(sign + a),
        is_float_text(sign + (a + seq!['.'] + b)),
        is_float_text(sign + (a + seq!['.'] + b + seq!['e'] + x)),
{
    lemma_point_mantissa(a, b);
    let whole = a;
    let frac = a + seq!['.'] + b;
    let expo = a + seq!['.'] + b + seq!['e'] + x;
    assert forall|i: int| 0 <= i < whole.len() implies ('0' <= #[trigger] whole[i] <= '9'
        || whole[i] == '.') by {}
    assert forall|i: int| 0 <= i < frac.len() implies ('0' <= #[trigger] frac[i] <= '9'
        || frac[i] == '.') by {
        if i < a.len() {
            assert(frac[i] == a[i]);
        } else if i > a.len() {
            assert(frac[i] == b[i - a.len() - 1]);
        }
    }
    lemma_no_exponent_mark(whole);
    lemma_no_exponent_mark(frac);
    assert(whole.take(whole.len() as int) =~= whole);
    assert(frac.take(frac.len() as int) =~= frac);
    assert forall|k: int| 0 <= k < frac.len() implies expo[k] != 'e' && expo[k] != 'E' by {
        assert(expo[k] == frac[k]);
    }
    lemma_exponent_index(expo, frac.len() as int);
    assert(expo.take(frac.len() as int) =~= frac);
    assert(expo.skip(frac.len() + 1int) =~= x);
    assert(x[0] != '+' && x[0] != '-');
    assert(strip_sign(x) == x);
    assert(all_digits(x));
    assert(is_number(whole) && is_number(frac) && is_number(expo));
    assert(whole[0] != '+' && whole[0] != '-');
    assert(frac[0] == a[0]);
    assert(expo[0] == a[0]);
    if sign.len() == 0 {
        assert(sign + whole =~= whole);
        assert(sign + frac =~= frac);
        assert(sign + expo =~= expo);
    } else {
        assert((sign + whole).drop_first() =~= whole);
        assert((sign + frac).drop_first() =~= frac);
        assert((sign + expo).drop_first() =~= expo);
    }
}

} // verus!
