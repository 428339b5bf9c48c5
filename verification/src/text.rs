//! Character-level scanning used by the schema and attribute parsers.
//!
//! Text is modelled as `Seq<char>`; the executable helpers work on `&[char]`
//! and are proved against the spec functions of this module.
use vstd::prelude::*;

verus! {

/// A class of characters that a scanner skips over or stops at.
#[derive(Clone, Copy)]
pub enum CharClass {
    Whitespace,
    NotWhitespace,
    Is(char),
    IsNot(char),
}

/// Unicode `White_Space`, the property behind `char::is_whitespace`.
pub open spec fn is_whitespace(c: char) -> bool {
    ||| ('\u{9}' <= c && c <= '\u{d}')
    ||| c == ' '
    ||| c == '\u{85}'
    ||| c == '\u{a0}'
    ||| c == '\u{1680}'
    ||| ('\u{2000}' <= c && c <= '\u{200a}')
    ||| c == '\u{2028}'
    ||| c == '\u{2029}'
    ||| c == '\u{202f}'
    ||| c == '\u{205f}'
    ||| c == '\u{3000}'
}

pub open spec fn in_class(c: char, k: CharClass) -> bool {
    match k {
        CharClass::Whitespace => is_whitespace(c),
        CharClass::NotWhitespace => !is_whitespace(c),
        CharClass::Is(x) => c == x,
        CharClass::IsNot(x) => c != x,
    }
}

/// Number of leading characters of `s` that are in class `k`.
pub open spec fn lead(s: Seq<char>, k: CharClass) -> nat
    decreases s.len(),
{
    if s.len() > 0 && in_class(s[0], k) {
        1 + lead(s.drop_first(), k)
    } else {
        0
    }
}

/// Number of trailing characters of `s` that are in class `k`.
pub open spec fn trail(s: Seq<char>, k: CharClass) -> nat
    decreases s.len(),
{
    if s.len() > 0 && in_class(s.last(), k) {
        1 + trail(s.drop_last(), k)
    } else {
        0
    }
}

/// `s` without the characters of class `k` at both of its ends.
pub open spec fn strip(s: Seq<char>, k: CharClass) -> Seq<char> {
    let t = s.skip(lead(s, k) as int);
    t.take(t.len() - trail(t, k))
}

/// What `str::trim` gives.
pub open spec fn trim(s: Seq<char>) -> Seq<char> {
    strip(s, CharClass::Whitespace)
}

pub open spec fn starts_with(s: Seq<char>, p: Seq<char>) -> bool {
    p.len() <= s.len() && s.take(p.len() as int) == p
}

/// The index of the first `c` in `s`, as `str::find` gives it for a char.
pub open spec fn find(s: Seq<char>, c: char) -> Option<int> {
    let k = lead(s, CharClass::IsNot(c));
    if k < s.len() {
        Some(k as int)
    } else {
        None
    }
}

/// The pieces of `s` between the occurrences of `c`, as `str::split` gives them.
pub open spec fn split(s: Seq<char>, c: char) -> Seq<Seq<char>>
    decreases s.len(),
{
    let k = lead(s, CharClass::IsNot(c));
    if k >= s.len() {
        seq![s]
    } else {
        proof {
            lemma_lead(s, CharClass::IsNot(c));
        }
        seq![s.take(k as int)] + split(s.subrange(k as int + 1, s.len() as int), c)
    }
}

pub open spec fn is_digit(c: char) -> bool {
    '0' <= c && c <= '9'
}

pub open spec fn digit_value(c: char) -> nat {
    (c as int - '0' as int) as nat
}

pub open spec fn digit_char(d: nat) -> char {
    if d == 0 { '0' }
    else if d == 1 { '1' }
    else if d == 2 { '2' }
    else if d == 3 { '3' }
    else if d == 4 { '4' }
    else if d == 5 { '5' }
    else if d == 6 { '6' }
    else if d == 7 { '7' }
    else if d == 8 { '8' }
    else { '9' }
}

/// The decimal digits of `n`, most significant first, without leading zeros.
pub open spec fn decimal(n: nat) -> Seq<char>
    decreases n,
{
    if n < 10 {
        seq![digit_char(n)]
    } else {
        decimal(n / 10).push(digit_char(n % 10))
    }
}

pub open spec fn all_digits(s: Seq<char>) -> bool {
    forall|i: int| 0 <= i < s.len() ==> is_digit(#[trigger] s[i])
}

/// The number that the decimal digits `s` write.
pub open spec fn digits_value(s: Seq<char>) -> nat
    decreases s.len(),
{
    if s.len() == 0 {
        0
    } else {
        digits_value(s.drop_last()) * 10 + digit_value(s.last())
    }
}

/// What `str::parse::<usize>` gives: an optional `+`, then one or more ASCII
/// digits whose value fits in a `usize`.
pub open spec fn parse_usize(s: Seq<char>) -> Option<usize> {
    let d = if s.len() > 0 && s[0] == '+' { s.drop_first() } else { s };
    if d.len() > 0 && all_digits(d) && digits_value(d) <= usize::MAX {
        Some(digits_value(d) as usize)
    } else {
        None
    }
}

pub proof fn lemma_lead(s: Seq<char>, k: CharClass)
    ensures
        0 <= lead(s, k) <= s.len(),
        forall|j: int| 0 <= j < lead(s, k) ==> in_class(#[trigger] s[j], k),
        lead(s, k) < s.len() ==> !in_class(s[lead(s, k) as int], k),
    decreases s.len(),
{
    if s.len() > 0 && in_class(s[0], k) {
        lemma_lead(s.drop_first(), k);
        assert forall|j: int| 0 <= j < lead(s, k) implies in_class(#[trigger] s[j], k) by {
            if j > 0 {
                assert(s[j] == s.drop_first()[j - 1]);
            }
        }
    }
}

pub proof fn lemma_lead_is(s: Seq<char>, k: CharClass, n: nat)
    requires
        n <= s.len(),
        forall|j: int| 0 <= j < n ==> in_class(#[trigger] s[j], k),
        n < s.len() ==> !in_class(s[n as int], k),
    ensures
        lead(s, k) == n,
    decreases n,
{
    if n > 0 {
        assert(in_class(s[0], k));
        assert forall|j: int| 0 <= j < n - 1 implies in_class(#[trigger] s.drop_first()[j], k) by {
            assert(s.drop_first()[j] == s[j + 1]);
        }
        lemma_lead_is(s.drop_first(), k, (n - 1) as nat);
    }
}

pub proof fn lemma_trail(s: Seq<char>, k: CharClass)
    ensures
        trail(s, k) <= s.len(),
        forall|j: int| s.len() - trail(s, k) <= j < s.len() ==> in_class(#[trigger] s[j], k),
        trail(s, k) < s.len() ==> !in_class(s[s.len() - trail(s, k) - 1], k),
    decreases s.len(),
{
    if s.len() > 0 && in_class(s.last(), k) {
        lemma_trail(s.drop_last(), k);
        assert forall|j: int| s.len() - trail(s, k) <= j < s.len() implies in_class(
            #[trigger] s[j],
            k,
        ) by {
            if j < s.len() - 1 {
                assert(s[j] == s.drop_last()[j]);
            }
        }
        if trail(s, k) < s.len() {
            assert(s[s.len() - trail(s, k) - 1] == s.drop_last()[s.drop_last().len() - trail(
                s.drop_last(),
                k,
            ) - 1]);
        }
    }
}

pub proof fn lemma_trail_is(s: Seq<char>, k: CharClass, n: nat)
    requires
        n <= s.len(),
        forall|j: int| s.len() - n <= j < s.len() ==> in_class(#[trigger] s[j], k),
        n < s.len() ==> !in_class(s[s.len() - n - 1], k),
    ensures
        trail(s, k) == n,
    decreases n,
{
    if n > 0 {
        assert(in_class(s[s.len() - 1], k));
        let t = s.drop_last();
        assert forall|j: int| t.len() - (n - 1) <= j < t.len() implies in_class(
            #[trigger] t[j],
            k,
        ) by {
            assert(t[j] == s[j]);
        }
        if n - 1 < t.len() {
            assert(t[t.len() - (n - 1) - 1] == s[s.len() - n - 1]);
        }
        lemma_trail_is(t, k, (n - 1) as nat);
    }
}

/// `strip(s, k)` is the part of `s` between `a` leading and `b` trailing
/// characters of class `k`, when those are exactly the ones at its ends.
pub proof fn lemma_strip_is(s: Seq<char>, k: CharClass, a: nat, b: nat)
    requires
        a < s.len(),
        a + b < s.len(),
        forall|j: int| 0 <= j < a ==> in_class(#[trigger] s[j], k),
        !in_class(s[a as int], k),
        forall|j: int| s.len() - b <= j < s.len() ==> in_class(#[trigger] s[j], k),
        !in_class(s[s.len() - b - 1], k),
    ensures
        strip(s, k) == s.subrange(a as int, s.len() - b),
{
    lemma_lead_is(s, k, a);
    let t = s.skip(a as int);
    assert forall|j: int| t.len() - b <= j < t.len() implies in_class(#[trigger] t[j], k) by {
        assert(t[j] == s[j + a]);
    }
    assert(t[t.len() - b - 1] == s[s.len() - b - 1]);
    lemma_trail_is(t, k, b);
}

/// Splitting text with no separator in it gives the text itself.
pub proof fn lemma_split_none(s: Seq<char>, c: char)
    requires
        forall|j: int| 0 <= j < s.len() ==> #[trigger] s[j] != c,
    ensures
        split(s, c) == seq![s],
{
    lemma_lead_is(s, CharClass::IsNot(c), s.len());
}

/// Splitting text at its first separator, at `k`.
pub proof fn lemma_split_first(s: Seq<char>, c: char, k: nat)
    requires
        k < s.len(),
        s[k as int] == c,
        forall|j: int| 0 <= j < k ==> #[trigger] s[j] != c,
    ensures
        split(s, c) == seq![s.take(k as int)] + split(s.subrange(k as int + 1, s.len() as int), c),
{
    lemma_lead_is(s, CharClass::IsNot(c), k);
}

/// Reading back the decimal digits of `n` gives `n`: `decimal` writes every
/// digit of its number, and only digits.
pub proof fn lemma_decimal_round_trip(n: nat)
    ensures
        decimal(n).len() > 0,
        all_digits(decimal(n)),
        digits_value(decimal(n)) == n,
    decreases n,
{
    if n >= 10 {
        lemma_decimal_round_trip(n / 10);
        let s = decimal(n / 10);
        let t = decimal(n);
        assert(t == s.push(digit_char(n % 10)));
        assert(t.drop_last() == s);
        assert forall|i: int| 0 <= i < t.len() implies is_digit(#[trigger] t[i]) by {
            if i < s.len() {
                assert(t[i] == s[i]);
            }
        }
        assert(t.last() == digit_char(n % 10));
        assert(digit_value(digit_char(n % 10)) == n % 10);
        assert(digits_value(t) == digits_value(s) * 10 + digit_value(t.last()));
        assert(n == (n / 10) * 10 + n % 10);
    } else {
        let t = decimal(n);
        assert(t.drop_last() =~= Seq::<char>::empty());
        assert(t.last() == digit_char(n));
        assert(digit_value(digit_char(n)) == n);
        assert(digits_value(t.drop_last()) == 0);
        assert(digits_value(t) == digits_value(t.drop_last()) * 10 + digit_value(t.last()));
    }
}

/// `str::parse::<usize>` reads back the decimal digits of any `usize`.
pub proof fn law_parse_usize_reads_decimal(n: usize)
    ensures
        parse_usize(decimal(n as nat)) == Some(n),
{
    lemma_decimal_round_trip(n as nat);
    let d = decimal(n as nat);
    assert(is_digit(d[0]));
}

/// Different numbers have different decimal digits.
pub proof fn law_decimal_injective(m: nat, n: nat)
    requires
        m != n,
    ensures
        decimal(m) != decimal(n),
{
    lemma_decimal_round_trip(m);
    lemma_decimal_round_trip(n);
}

pub proof fn lemma_digits_value_prefix(s: Seq<char>, j: int)
    requires
        0 <= j <= s.len(),
    ensures
        digits_value(s.take(j)) <= digits_value(s),
    decreases s.len(),
{
    if j < s.len() {
        assert(s.drop_last().take(j) == s.take(j));
        lemma_digits_value_prefix(s.drop_last(), j);
    } else {
        assert(s.take(j) == s);
    }
}

pub fn is_whitespace_char(c: char) -> (r: bool)
    ensures
        r == is_whitespace(c),
{
    ('\u{9}' <= c && c <= '\u{d}') || c == ' ' || c == '\u{85}' || c == '\u{a0}' || c
        == '\u{1680}' || ('\u{2000}' <= c && c <= '\u{200a}') || c == '\u{2028}' || c
        == '\u{2029}' || c == '\u{202f}' || c == '\u{205f}' || c == '\u{3000}'
}

pub fn in_class_char(c: char, k: CharClass) -> (r: bool)
    ensures
        r == in_class(c, k),
{
    match k {
        CharClass::Whitespace => is_whitespace_char(c),
        CharClass::NotWhitespace => !is_whitespace_char(c),
        CharClass::Is(x) => c == x,
        CharClass::IsNot(x) => c != x,
    }
}

/// Counts the leading characters of `s` in class `k`.
pub fn lead_count(s: &[char], k: CharClass) -> (n: usize)
    ensures
        n == lead(s@, k),
{
    let mut i: usize = 0;
    while i < s.len() && in_class_char(s[i], k)
        invariant
            i <= s@.len(),
            forall|j: int| 0 <= j < i ==> in_class(#[trigger] s@[j], k),
        decreases s.len() - i,
    {
        i = i + 1;
    }
    proof {
        lemma_lead_is(s@, k, i as nat);
    }
    i
}

/// Counts the trailing characters of `s` in class `k`.
pub fn trail_count(s: &[char], k: CharClass) -> (n: usize)
    ensures
        n == trail(s@, k),
{
    let mut n: usize = 0;
    while n < s.len() && in_class_char(s[s.len() - 1 - n], k)
        invariant
            n <= s@.len(),
            forall|j: int| s@.len() - n <= j < s@.len() ==> in_class(#[trigger] s@[j], k),
        decreases s.len() - n,
    {
        n = n + 1;
    }
    proof {
        lemma_trail_is(s@, k, n as nat);
    }
    n
}

/// The bounds `(a, b)` of `strip(s, k)` within `s`.
pub fn strip_bounds(s: &[char], k: CharClass) -> (r: (usize, usize))
    ensures
        r.0 <= r.1 <= s@.len(),
        s@.subrange(r.0 as int, r.1 as int) == strip(s@, k),
{
    let a = lead_count(s, k);
    proof {
        lemma_lead(s@, k);
    }
    let t = &s[a..s.len()];
    let m = trail_count(t, k);
    proof {
        lemma_trail(t@, k);
        assert(s@.skip(a as int) == t@);
        assert(s@.subrange(a as int, (s.len() - m) as int) == t@.take(t@.len() - m));
    }
    (a, s.len() - m)
}

pub fn strip_chars(s: &[char], k: CharClass) -> (r: Vec<char>)
    ensures
        r@ == strip(s@, k),
{
    let (a, b) = strip_bounds(s, k);
    vstd::slice::slice_to_vec(&s[a..b])
}

pub fn trim_chars(s: &[char]) -> (r: Vec<char>)
    ensures
        r@ == trim(s@),
{
    strip_chars(s, CharClass::Whitespace)
}

/// The index of the first `c` in `s`.
pub fn find_char(s: &[char], c: char) -> (r: Option<usize>)
    ensures
        match r {
            Some(p) => find(s@, c) == Some(p as int),
            None => find(s@, c) is None,
        },
{
    let k = lead_count(s, CharClass::IsNot(c));
    if k < s.len() {
        Some(k)
    } else {
        None
    }
}

pub fn starts_with_chars(s: &[char], p: &[char]) -> (r: bool)
    ensures
        r == starts_with(s@, p@),
{
    if p.len() > s.len() {
        return false;
    }
    let mut i: usize = 0;
    while i < p.len()
        invariant
            p@.len() <= s@.len(),
            i <= p@.len(),
            forall|j: int| 0 <= j < i ==> s@[j] == p@[j],
        decreases p.len() - i,
    {
        if s[i] != p[i] {
            assert(s@.take(p@.len() as int)[i as int] != p@[i as int]);
            return false;
        }
        i = i + 1;
    }
    assert(s@.take(p@.len() as int) == p@);
    true
}

pub fn chars_eq(a: &[char], b: &[char]) -> (r: bool)
    ensures
        r == (a@ == b@),
{
    if a.len() != b.len() {
        return false;
    }
    let r = starts_with_chars(a, b);
    assert(a@.take(b@.len() as int) == a@);
    r
}

/// The characters of `s`, in order.
pub fn to_chars(s: &str) -> (r: Vec<char>)
    ensures
        r@ == s@,
{
    let n = s.unicode_len();
    let mut r: Vec<char> = Vec::new();
    let mut i: usize = 0;
    while i < n
        invariant
            n == s@.len(),
            i <= n,
            r@ == s@.take(i as int),
        decreases n - i,
    {
        r.push(s.get_char(i));
        assert(s@.take(i + 1) == s@.take(i as int).push(s@[i as int]));
        i = i + 1;
    }
    assert(s@.take(n as int) == s@);
    r
}

/// Appends one character to a `String`.
///
/// Calls `String::push`, which std documents as appending the char to the
/// end of the string; the contract claims exactly that.
#[verifier::external_body]
pub fn push_char(s: &mut String, c: char)
    ensures
        final(s)@ == old(s)@.push(c),
{
    s.push(c);
}

/// Appends the characters of `cs` to `s`.
pub fn push_chars(s: &mut String, cs: &[char])
    ensures
        final(s)@ == old(s)@ + cs@,
{
    let ghost start = s@;
    let mut i: usize = 0;
    while i < cs.len()
        invariant
            i <= cs@.len(),
            s@ == start + cs@.take(i as int),
        decreases cs.len() - i,
    {
        push_char(s, cs[i]);
        assert(cs@.take(i + 1) == cs@.take(i as int).push(cs@[i as int]));
        i = i + 1;
    }
    assert(cs@.take(cs@.len() as int) == cs@);
}

pub fn string_of_chars(cs: &[char]) -> (r: String)
    ensures
        r@ == cs@,
{
    let mut s = String::new();
    push_chars(&mut s, cs);
    assert(Seq::<char>::empty() + cs@ == cs@);
    s
}

pub fn digit_char_of(d: usize) -> (c: char)
    requires
        d < 10,
    ensures
        c == digit_char(d as nat),
{
    if d == 0 { '0' }
    else if d == 1 { '1' }
    else if d == 2 { '2' }
    else if d == 3 { '3' }
    else if d == 4 { '4' }
    else if d == 5 { '5' }
    else if d == 6 { '6' }
    else if d == 7 { '7' }
    else if d == 8 { '8' }
    else { '9' }
}

/// The decimal digits of `n`.
pub fn decimal_chars(n: usize) -> (r: Vec<char>)
    ensures
        r@ == decimal(n as nat),
    decreases n,
{
    if n < 10 {
        vec![digit_char_of(n)]
    } else {
        let mut r = decimal_chars(n / 10);
        r.push(digit_char_of(n % 10));
        r
    }
}

/// Parses `s` as `str::parse::<usize>` does.
pub fn parse_usize_chars(s: &[char]) -> (r: Option<usize>)
    ensures
        r == parse_usize(s@),
{
    let start: usize = if s.len() > 0 && s[0] == '+' { 1 } else { 0 };
    let ghost d = if s@.len() > 0 && s@[0] == '+' { s@.drop_first() } else { s@ };
    assert(d == s@.skip(start as int));
    if start >= s.len() {
        return None;
    }
    let mut v: usize = 0;
    let mut i: usize = start;
    while i < s.len()
        invariant
            start <= i <= s@.len(),
            d == s@.skip(start as int),
            d == (if s@.len() > 0 && s@[0] == '+' { s@.drop_first() } else { s@ }),
            all_digits(d.take(i - start)),
            v as nat == digits_value(d.take(i - start)),
        decreases s.len() - i,
    {
        let c = s[i];
        let ghost p = d.take(i - start);
        let ghost q = d.take(i - start + 1);
        assert(q.drop_last() == p);
        assert(q.last() == c);
        if !('0' <= c && c <= '9') {
            assert(!is_digit(d[i - start]));
            assert(!all_digits(d));
            assert(parse_usize(s@) is None);
            return None;
        }
        let dv: usize = if c == '0' { 0 } else if c == '1' { 1 } else if c == '2' { 2 } else if c
            == '3' { 3 } else if c == '4' { 4 } else if c == '5' { 5 } else if c == '6' {
            6
        } else if c == '7' { 7 } else if c == '8' { 8 } else { 9 };
        assert(dv == digit_value(c));
        if v > (usize::MAX - dv) / 10 {
            proof {
                lemma_digits_value_prefix(d, i - start + 1);
                assert(v * 10 + dv > usize::MAX) by (nonlinear_arith)
                    requires
                        v > (usize::MAX - dv) / 10,
                        dv <= 9,
                ;
                assert(digits_value(q) == v * 10 + dv);
                assert(parse_usize(s@) is None);
            }
            return None;
        }
        v = v * 10 + dv;
        i = i + 1;
    }
    assert(d.take(i - start) == d);
    Some(v)
}

/// Whether `a` and `b` hold the same text, compared through their UTF-8 bytes.
pub fn str_eq(a: &str, b: &str) -> (r: bool)
    ensures
        r == (a@ == b@),
{
    let x = a.as_bytes();
    let y = b.as_bytes();
    assert(x@ == vstd::utf8::encode_utf8(a@));
    assert(y@ == vstd::utf8::encode_utf8(b@));
    proof {
        vstd::utf8::encode_utf8_decode_utf8(a@);
        vstd::utf8::encode_utf8_decode_utf8(b@);
    }
    if x.len() != y.len() {
        return false;
    }
    let mut i: usize = 0;
    while i < x.len()
        invariant
            x@ == vstd::utf8::encode_utf8(a@),
            y@ == vstd::utf8::encode_utf8(b@),
            x@.len() == y@.len(),
            i <= x@.len(),
            forall|j: int| 0 <= j < i ==> x@[j] == y@[j],
        decreases x.len() - i,
    {
        if x[i] != y[i] {
            assert(x@ != y@);
            return false;
        }
        i = i + 1;
    }
    assert(x@ == y@);
    true
}

/// The pieces of `t` between the occurrences of `c`.
pub fn split_chars(t: &[char], c: char) -> (r: Vec<Vec<char>>)
    ensures
        r.len() == split(t@, c).len(),
        forall|j: int| 0 <= j < r.len() ==> (#[trigger] r[j])@ == split(t@, c)[j],
{
    let mut r: Vec<Vec<char>> = Vec::new();
    let ghost mut pieces: Seq<Seq<char>> = seq![];
    let mut start: usize = 0;
    assert(t@.subrange(0, t@.len() as int) == t@);
    assert(pieces + split(t@, c) == split(t@, c));
    loop
        invariant
            start <= t@.len(),
            r.len() == pieces.len(),
            forall|j: int| 0 <= j < r.len() ==> (#[trigger] r[j])@ == pieces[j],
            split(t@, c) == pieces + split(t@.subrange(start as int, t@.len() as int), c),
        decreases t.len() - start,
    {
        let rest = &t[start..t.len()];
        let k = lead_count(rest, CharClass::IsNot(c));
        proof {
            lemma_lead(rest@, CharClass::IsNot(c));
        }
        let piece = &rest[0..k];
        r.push(vstd::slice::slice_to_vec(piece));
        proof {
            pieces = pieces.push(piece@);
        }
        if k >= rest.len() {
            assert(split(rest@, c) == seq![rest@]);
            assert(piece@ == rest@);
            assert(split(t@, c) == pieces);
            return r;
        }
        proof {
            assert(piece@ == rest@.take(k as int));
            assert(rest@.subrange(k + 1, rest@.len() as int) == t@.subrange(
                start + k + 1,
                t@.len() as int,
            ));
        }
        start = start + k + 1;
    }
}

} // verus!
