//! Character-level text utilities shared by the tools: conversion between
//! `str`/`String` and character vectors, and decimal formatting.

use vstd::prelude::*;

verus! {

/// `String::push` appends one character to the string.
pub assume_specification[ String::push ](s: &mut String, ch: char)
    ensures
        final(s)@ == old(s)@.push(ch),
;

/// The characters of `s`, in order.
pub fn chars_of(s: &str) -> (v: Vec<char>)
    ensures
        v@ == s@,
{
    let mut v: Vec<char> = Vec::new();
    for c in it: s.chars()
        invariant
            v@ == it.seq().take(it.index() as int),
    {
        v.push(c);
    }
    v
}

/// A `String` holding exactly the characters of `v`.
pub fn string_of(v: &[char]) -> (s: String)
    ensures
        s@ == v@,
{
    let mut s = String::new();
    let mut i: usize = 0;
    while i < v.len()
        invariant
            i <= v.len(),
            s@ == v@.take(i as int),
        decreases v.len() - i,
    {
        s.push(v[i]);
        i = i + 1;
        assert(s@ == v@.take(i as int));
    }
    assert(v@.take(v.len() as int) == v@);
    s
}


/// `c` is one of the ASCII digits `0`..`9`.
pub open spec fn is_digit(c: char) -> bool {
    '0' <= c && c <= '9'
}

/// Every character of `s` is an ASCII digit.
pub open spec fn all_digits(s: Seq<char>) -> bool {
    forall|i: int| 0 <= i < s.len() ==> is_digit(#[trigger] s[i])
}

/// The numeric value of a single ASCII digit.
pub open spec fn digit_value(c: char) -> nat {
    (c as int - '0' as int) as nat
}

/// The value of a string of ASCII digits read in base ten (0 for the empty string).
pub open spec fn digits_value(s: Seq<char>) -> nat
    decreases s.len(),
{
    if s.len() == 0 {
        0
    } else {
        digits_value(s.drop_last()) * 10 + digit_value(s.last())
    }
}

/// The ASCII digit character for `d` in `0..10`.
pub open spec fn digit_char(d: nat) -> char {
    (d + '0' as nat) as char
}

/// The shortest decimal representation of `n`, without sign.
pub open spec fn decimal(n: nat) -> Seq<char>
    decreases n,
{
    if n < 10 {
        seq![digit_char(n)]
    } else {
        decimal(n / 10).push(digit_char(n % 10))
    }
}

/// What `decimal` writes is a non-empty run of ASCII digits whose value is the number.
pub proof fn lemma_decimal_digits(n: nat)
    ensures
        decimal(n).len() > 0,
        all_digits(decimal(n)),
        digits_value(decimal(n)) == n,
    decreases n,
{
    if n >= 10 {
        lemma_decimal_digits(n / 10);
        let d = decimal(n);
        assert(d.drop_last() =~= decimal(n / 10));
        assert forall|i: int| 0 <= i < d.len() implies is_digit(#[trigger] d[i]) by {
            if i < d.len() - 1 {
                assert(d[i] == decimal(n / 10)[i]);
            }
        }
        assert(digit_value(d.last()) == n % 10);
        assert((n / 10) * 10 + n % 10 == n) by (nonlinear_arith);
        assert(digits_value(d) == digits_value(d.drop_last()) * 10 + digit_value(d.last()));
    } else {
        assert(decimal(n).drop_last() =~= Seq::<char>::empty());
        assert(digits_value(decimal(n)) == digits_value(decimal(n).drop_last()) * 10 + digit_value(decimal(n).last()));
    }
}

/// A number written by `decimal` (as `push_decimal` writes it) reads back as the same
/// number with `parse_int` (as `parse_u64`, `parse_usize` and the signed readers read
/// it), for every range that holds the number.
pub proof fn lemma_decimal_parses(n: nat, min: int, max: int)
    requires
        min <= n <= max,
    ensures
        parse_int(decimal(n), min, max) == Some(n as int),
{
    lemma_decimal_digits(n);
    assert(is_digit(decimal(n)[0]));
}

/// Different numbers written by `decimal`, followed by the same text, give
/// different texts.
pub(crate) proof fn lemma_decimal_same_suffix(a: nat, b: nat, x: Seq<char>)
    requires
        decimal(a) + x == decimal(b) + x,
    ensures
        a == b,
{
    lemma_decimal_digits(a);
    lemma_decimal_digits(b);
    assert(decimal(a) =~= (decimal(a) + x).take(decimal(a).len() as int));
    assert(decimal(b) =~= (decimal(b) + x).take(decimal(b).len() as int));
}

/// Numbers written by `decimal`, each followed by nothing or by a text that starts
/// with `.`, give equal texts only for equal numbers.
pub(crate) proof fn lemma_decimal_then_dot(a: nat, b: nat, x: Seq<char>, y: Seq<char>)
    requires
        x.len() == 0 || x[0] == '.',
        y.len() == 0 || y[0] == '.',
        decimal(a) + x == decimal(b) + y,
    ensures
        a == b,
{
    let da = decimal(a);
    let db = decimal(b);
    let t = da + x;
    lemma_decimal_digits(a);
    lemma_decimal_digits(b);
    assert(t == db + y);
    if da.len() < db.len() {
        assert(t[da.len() as int] == db[da.len() as int]);
        assert(is_digit(db[da.len() as int]));
        assert(t[da.len() as int] == x[0]);
    } else if db.len() < da.len() {
        assert(t[db.len() as int] == da[db.len() as int]);
        assert(is_digit(da[db.len() as int]));
        assert((db + y)[db.len() as int] == y[0]);
    } else {
        assert(da =~= t.take(da.len() as int));
        assert(db =~= (db + y).take(db.len() as int));
    }
}

/// An element of two sequences laid end to end is an element of one of them.
pub(crate) proof fn lemma_add_contains<A>(a: Seq<A>, b: Seq<A>, x: A)
    ensures
        (a + b).contains(x) <==> (a.contains(x) || b.contains(x)),
{
    if (a + b).contains(x) {
        let k = choose|k: int| 0 <= k < (a + b).len() && (a + b)[k] == x;
        if k < a.len() {
            assert(a[k] == x);
        } else {
            assert(b[k - a.len()] == x);
        }
    }
    if a.contains(x) {
        let k = choose|k: int| 0 <= k < a.len() && a[k] == x;
        assert((a + b)[k] == x);
    }
    if b.contains(x) {
        let k = choose|k: int| 0 <= k < b.len() && b[k] == x;
        assert((a + b)[a.len() + k] == x);
    }
}

/// The decimal representation of a signed integer, with a leading `-` when negative.
pub open spec fn signed_decimal(n: int) -> Seq<char> {
    if n < 0 {
        seq!['-'] + decimal((-n) as nat)
    } else {
        decimal(n as nat)
    }
}

/// What `from_str` of an integer type with the given range gives for `s`: an optional
/// sign (`-` only where negative values are allowed), then one or more ASCII digits,
/// with the value in range.
pub open spec fn parse_int(s: Seq<char>, min: int, max: int) -> Option<int> {
    let neg = s.len() > 0 && s[0] == '-' && min < 0;
    let body = if s.len() > 0 && (s[0] == '+' || neg) { s.drop_first() } else { s };
    let v: int = if neg { -(digits_value(body) as int) } else { digits_value(body) as int };
    if body.len() > 0 && all_digits(body) && min <= v <= max {
        Some(v)
    } else {
        None
    }
}

/// A prefix of a digit string has no greater value than the whole string.
pub(crate) proof fn lemma_digits_value_prefix(s: Seq<char>, k: int)
    requires
        0 <= k <= s.len(),
        all_digits(s),
    ensures
        digits_value(s.take(k)) <= digits_value(s),
    decreases s.len(),
{
    if k < s.len() {
        assert(s.drop_last().take(k) == s.take(k));
        lemma_digits_value_prefix(s.drop_last(), k);
    } else {
        assert(s.take(k) == s);
    }
}

/// The value of the digit string `d`, provided it is non-empty, all digits and at most `limit`.
fn magnitude(d: &[char], limit: u64) -> (r: Option<u64>)
    ensures
        r matches Some(v) ==> d@.len() > 0 && all_digits(d@) && v == digits_value(d@)
            && v <= limit,
        r is None ==> !(d@.len() > 0 && all_digits(d@) && digits_value(d@) <= limit),
{
    if d.len() == 0 {
        return None;
    }
    let mut v: u64 = 0;
    let mut i: usize = 0;
    while i < d.len()
        invariant
            i <= d.len(),
            all_digits(d@.take(i as int)),
            v == digits_value(d@.take(i as int)),
            v <= limit,
        decreases d.len() - i,
    {
        let c = d[i];
        assert(d@.take(i as int + 1).drop_last() == d@.take(i as int));
        if !('0' <= c && c <= '9') {
            assert(!is_digit(d@[i as int]));
            return None;
        }
        let dv: u64 = (c as u64) - ('0' as u64);
        if dv > limit || v > (limit - dv) / 10 {
            proof {
                assert(all_digits(d@.take(i as int + 1)));
                assert(digits_value(d@.take(i as int + 1)) == v * 10 + dv);
                assert(v * 10 + dv > limit) by (nonlinear_arith)
                    requires dv > limit || (dv <= limit && v > (limit - dv) / 10);
                if all_digits(d@) {
                    lemma_digits_value_prefix(d@, i as int + 1);
                }
            }
            return None;
        }
        assert(v * 10 + dv <= limit) by (nonlinear_arith)
            requires v <= (limit - dv) / 10, dv <= limit;
        v = v * 10 + dv;
        i = i + 1;
    }
    assert(d@.take(d.len() as int) == d@);
    Some(v)
}


/// `s` read as `u64` the way `str::parse::<u64>` does.
pub fn parse_u64(s: &[char]) -> (r: Option<u64>)
    ensures
        r matches Some(v) ==> parse_int(s@, 0, u64::MAX as int) == Some(v as int),
        r is None ==> parse_int(s@, 0, u64::MAX as int) is None,
{
    let body: &[char] = if s.len() > 0 && s[0] == '+' { &s[1..s.len()] } else { s };
    assert(body@ == if s@.len() > 0 && s@[0] == '+' { s@.drop_first() } else { s@ });
    magnitude(body, u64::MAX)
}

/// `s` read as `usize` the way `str::parse::<usize>` does.
pub fn parse_usize(s: &[char]) -> (r: Option<usize>)
    ensures
        r matches Some(v) ==> parse_int(s@, 0, usize::MAX as int) == Some(v as int),
        r is None ==> parse_int(s@, 0, usize::MAX as int) is None,
{
    let body: &[char] = if s.len() > 0 && s[0] == '+' { &s[1..s.len()] } else { s };
    assert(body@ == if s@.len() > 0 && s@[0] == '+' { s@.drop_first() } else { s@ });
    match magnitude(body, usize::MAX as u64) {
        Some(v) => Some(v as usize),
        None => None,
    }
}

/// `s` read as a signed integer in `[-(bound+1), bound]`, for `bound` one of the
/// maxima of the signed integer types.
fn parse_signed(s: &[char], bound: u64) -> (r: Option<i64>)
    requires
        bound <= i64::MAX,
    ensures
        r matches Some(v) ==> parse_int(s@, -(bound as int) - 1, bound as int) == Some(v as int),
        r is None ==> parse_int(s@, -(bound as int) - 1, bound as int) is None,
{
    let neg = s.len() > 0 && s[0] == '-';
    let body: &[char] = if s.len() > 0 && (s[0] == '+' || neg) { &s[1..s.len()] } else { s };
    assert(body@ == if s@.len() > 0 && (s@[0] == '+' || neg) { s@.drop_first() } else { s@ });
    let limit: u64 = if neg { bound + 1 } else { bound };
    match magnitude(body, limit) {
        Some(v) => {
            if neg {
                if v == bound + 1 {
                    Some(-(bound as i64) - 1)
                } else {
                    Some(-(v as i64))
                }
            } else {
                Some(v as i64)
            }
        },
        None => None,
    }
}

/// `s` read as `i64` the way `str::parse::<i64>` does.
pub fn parse_i64(s: &[char]) -> (r: Option<i64>)
    ensures
        r matches Some(v) ==> parse_int(s@, i64::MIN as int, i64::MAX as int) == Some(v as int),
        r is None ==> parse_int(s@, i64::MIN as int, i64::MAX as int) is None,
{
    parse_signed(s, i64::MAX as u64)
}

/// `s` read as `i32` the way `str::parse::<i32>` does.
pub fn parse_i32(s: &[char]) -> (r: Option<i32>)
    ensures
        r matches Some(v) ==> parse_int(s@, i32::MIN as int, i32::MAX as int) == Some(v as int),
        r is None ==> parse_int(s@, i32::MIN as int, i32::MAX as int) is None,
{
    match parse_signed(s, i32::MAX as u64) {
        Some(v) => Some(v as i32),
        None => None,
    }
}

/// Appends the decimal representation of `n` to `out`.
pub fn push_decimal(out: &mut Vec<char>, n: u64)
    ensures
        final(out)@ == old(out)@ + decimal(n as nat),
    decreases n,
{
    if n >= 10 {
        push_decimal(out, n / 10);
    }
    let d: u8 = (n % 10) as u8;
    let c: char = (d + 48u8) as char;
    assert(c == digit_char((n % 10) as nat));
    out.push(c);
}

/// The decimal representation of `n`, with a leading `-` when negative.
pub fn signed_decimal_chars(n: i64) -> (v: Vec<char>)
    ensures
        v@ == signed_decimal(n as int),
{
    let mut v: Vec<char> = Vec::new();
    if n < 0 {
        v.push('-');
        let m: u64 = if n == i64::MIN { (i64::MAX as u64) + 1 } else { (-n) as u64 };
        push_decimal(&mut v, m);
    } else {
        push_decimal(&mut v, n as u64);
    }
    v
}


/// The pieces of `s` between occurrences of `sep`, as `str::split` with a character
/// pattern yields them (empty pieces included; always at least one piece).
pub open spec fn split_on(s: Seq<char>, sep: char) -> Seq<Seq<char>>
    decreases s.len(),
{
    if s.len() == 0 {
        seq![Seq::<char>::empty()]
    } else {
        let p = split_on(s.drop_last(), sep);
        if s.last() == sep {
            p.push(Seq::<char>::empty())
        } else {
            p.update(p.len() - 1, p.last().push(s.last()))
        }
    }
}

/// Splitting always yields at least one piece.
pub(crate) proof fn lemma_split_on_nonempty(s: Seq<char>, sep: char)
    ensures
        split_on(s, sep).len() >= 1,
    decreases s.len(),
{
    if s.len() > 0 {
        lemma_split_on_nonempty(s.drop_last(), sep);
    }
}

/// The character sequences held by a vector of character vectors.
pub open spec fn views(v: Seq<Vec<char>>) -> Seq<Seq<char>> {
    v.map_values(|p: Vec<char>| p@)
}

/// The character sequences held by a vector of strings.
pub open spec fn string_views(v: Seq<String>) -> Seq<Seq<char>> {
    v.map_values(|x: String| x@)
}

/// The pieces of `s` between occurrences of `sep`.
pub fn split_chars(s: &[char], sep: char) -> (v: Vec<Vec<char>>)
    ensures
        views(v@) == split_on(s@, sep),
{
    let mut v: Vec<Vec<char>> = Vec::new();
    v.push(Vec::new());
    let mut i: usize = 0;
    assert(s@.take(0) =~= Seq::<char>::empty());
    assert(views(v@) =~= split_on(s@.take(0), sep));
    while i < s.len()
        invariant
            i <= s.len(),
            views(v@) == split_on(s@.take(i as int), sep),
            v.len() >= 1,
        decreases s.len() - i,
    {
        let c = s[i];
        let ghost pre = s@.take(i as int);
        assert(s@.take(i as int + 1).drop_last() == pre);
        assert(s@.take(i as int + 1).last() == c);
        if c == sep {
            v.push(Vec::new());
            assert(views(v@) =~= split_on(pre, sep).push(Seq::<char>::empty()));
        } else {
            let last = v.len() - 1;
            let mut piece = v.pop().unwrap();
            let ghost old_piece = piece@;
            piece.push(c);
            v.push(piece);
            assert(views(v@) =~= split_on(pre, sep).update(last as int, old_piece.push(c)));
        }
        i = i + 1;
    }
    assert(s@.take(s.len() as int) == s@);
    v
}


/// Appends the characters of `src` to `out`.
pub fn extend_chars(out: &mut Vec<char>, src: &[char])
    ensures
        final(out)@ == old(out)@ + src@,
{
    let ghost start = out@;
    let mut i: usize = 0;
    while i < src.len()
        invariant
            i <= src.len(),
            out@ == start + src@.take(i as int),
        decreases src.len() - i,
    {
        out.push(src[i]);
        i = i + 1;
        assert(out@ =~= start + src@.take(i as int));
    }
    assert(src@.take(src.len() as int) == src@);
}

/// `s` starts with `p`.
pub open spec fn starts_with(s: Seq<char>, p: Seq<char>) -> bool {
    p.len() <= s.len() && s.take(p.len() as int) == p
}

/// Whether `s` starts with `p`.
pub fn starts_with_chars(s: &[char], p: &[char]) -> (b: bool)
    ensures
        b == starts_with(s@, p@),
{
    if p.len() > s.len() {
        return false;
    }
    let mut i: usize = 0;
    while i < p.len()
        invariant
            p.len() <= s.len(),
            i <= p.len(),
            forall|j: int| 0 <= j < i ==> s@[j] == p@[j],
        decreases p.len() - i,
    {
        if s[i] != p[i] {
            assert(s@.take(p.len() as int)[i as int] != p@[i as int]);
            return false;
        }
        i = i + 1;
    }
    assert(s@.take(p.len() as int) =~= p@);
    true
}

/// The characters of `s` from index `from` on.
pub fn tail_chars(s: &[char], from: usize) -> (v: Vec<char>)
    requires
        from <= s@.len(),
    ensures
        v@ == s@.skip(from as int),
{
    let mut v: Vec<char> = Vec::new();
    let mut i: usize = from;
    while i < s.len()
        invariant
            from <= i <= s.len(),
            v@ == s@.subrange(from as int, i as int),
        decreases s.len() - i,
    {
        v.push(s[i]);
        i = i + 1;
        assert(v@ =~= s@.subrange(from as int, i as int));
    }
    assert(s@.subrange(from as int, s.len() as int) =~= s@.skip(from as int));
    v
}


/// `c` has the Unicode `White_Space` property, as `char::is_whitespace` tests.
pub open spec fn is_white(c: char) -> bool {
    ('\u{9}' <= c && c <= '\u{d}') || c == ' ' || c == '\u{85}' || c == '\u{a0}' || c
        == '\u{1680}' || ('\u{2000}' <= c && c <= '\u{200a}') || c == '\u{2028}' || c
        == '\u{2029}' || c == '\u{202f}' || c == '\u{205f}' || c == '\u{3000}'
}

/// Whether `c` is white space.
pub fn is_white_exec(c: char) -> (b: bool)
    ensures
        b == is_white(c),
{
    ('\u{9}' <= c && c <= '\u{d}') || c == ' ' || c == '\u{85}' || c == '\u{a0}' || c
        == '\u{1680}' || ('\u{2000}' <= c && c <= '\u{200a}') || c == '\u{2028}' || c
        == '\u{2029}' || c == '\u{202f}' || c == '\u{205f}' || c == '\u{3000}'
}

/// `s` without its leading white space.
pub open spec fn trim_start(s: Seq<char>) -> Seq<char>
    decreases s.len(),
{
    if s.len() > 0 && is_white(s[0]) {
        trim_start(s.drop_first())
    } else {
        s
    }
}

/// `s` without its trailing white space.
pub open spec fn trim_end(s: Seq<char>) -> Seq<char>
    decreases s.len(),
{
    if s.len() > 0 && is_white(s.last()) {
        trim_end(s.drop_last())
    } else {
        s
    }
}

/// `s` without leading and trailing white space, as `str::trim` gives it.
pub open spec fn trim(s: Seq<char>) -> Seq<char> {
    trim_end(trim_start(s))
}

proof fn lemma_trim_start_skip(s: Seq<char>, i: int)
    requires
        0 <= i <= s.len(),
        forall|j: int| 0 <= j < i ==> is_white(#[trigger] s[j]),
    ensures
        trim_start(s) == trim_start(s.skip(i)),
    decreases i,
{
    if i > 0 {
        assert(s.drop_first().skip(i - 1) == s.skip(i));
        lemma_trim_start_skip(s.drop_first(), i - 1);
    } else {
        assert(s.skip(0) == s);
    }
}

proof fn lemma_trim_end_take(s: Seq<char>, k: int)
    requires
        0 <= k <= s.len(),
        forall|j: int| k <= j < s.len() ==> is_white(#[trigger] s[j]),
    ensures
        trim_end(s) == trim_end(s.take(k)),
    decreases s.len() - k,
{
    if k < s.len() {
        assert(s.drop_last().take(k) == s.take(k));
        lemma_trim_end_take(s.drop_last(), k);
    } else {
        assert(s.take(k) == s);
    }
}

/// `s` without leading and trailing white space.
pub fn trim_chars(s: &[char]) -> (v: Vec<char>)
    ensures
        v@ == trim(s@),
{
    let mut i: usize = 0;
    while i < s.len() && is_white_exec(s[i])
        invariant
            i <= s.len(),
            forall|j: int| 0 <= j < i ==> is_white(#[trigger] s@[j]),
        decreases s.len() - i,
    {
        i = i + 1;
    }
    proof {
        lemma_trim_start_skip(s@, i as int);
    }
    let ghost t = s@.skip(i as int);
    assert(t.len() == 0 || !is_white(t[0]));
    assert(trim_start(t) == t);
    let mut k: usize = s.len();
    while k > i && is_white_exec(s[k - 1])
        invariant
            i <= k <= s.len(),
            forall|j: int| k <= j < s.len() ==> is_white(#[trigger] s@[j]),
        decreases k,
    {
        k = k - 1;
    }
    let ghost u = s@.subrange(i as int, k as int);
    proof {
        assert forall|j: int| (k - i) <= j < t.len() implies is_white(#[trigger] t[j]) by {
            assert(t[j] == s@[i + j]);
        }
        lemma_trim_end_take(t, (k - i) as int);
        assert(t.take((k - i) as int) =~= u);
        assert(u.len() == 0 || !is_white(u.last()));
        assert(trim_end(u) == u);
    }
    let mut v: Vec<char> = Vec::new();
    let mut m: usize = i;
    while m < k
        invariant
            i <= m <= k <= s.len(),
            v@ == s@.subrange(i as int, m as int),
        decreases k - m,
    {
        v.push(s[m]);
        m = m + 1;
        assert(v@ =~= s@.subrange(i as int, m as int));
    }
    v
}

/// The white-space-trimmed pieces of `pieces` that are not empty, in order.
pub open spec fn trimmed_nonempty(pieces: Seq<Seq<char>>) -> Seq<Seq<char>>
    decreases pieces.len(),
{
    if pieces.len() == 0 {
        Seq::<Seq<char>>::empty()
    } else {
        let r = trimmed_nonempty(pieces.drop_last());
        if trim(pieces.last()).len() > 0 {
            r.push(trim(pieces.last()))
        } else {
            r
        }
    }
}

/// The comma-separated entries of `s`, trimmed, without empty ones.
pub fn comma_list(s: &str) -> (v: Vec<String>)
    ensures
        string_views(v@) == trimmed_nonempty(split_on(s@, ',')),
{
    let cs = chars_of(s);
    let pieces = split_chars(&cs, ',');
    let ghost sp = split_on(s@, ',');
    let mut v: Vec<String> = Vec::new();
    let mut k: usize = 0;
    while k < pieces.len()
        invariant
            views(pieces@) == sp,
            k <= pieces.len(),
            string_views(v@) == trimmed_nonempty(sp.take(k as int)),
        decreases pieces.len() - k,
    {
        let t = trim_chars(&pieces[k]);
        assert(sp.take(k as int + 1).drop_last() == sp.take(k as int));
        assert(pieces[k as int]@ == sp[k as int]);
        if t.len() > 0 {
            v.push(string_of(&t));
            assert(string_views(v@) =~= trimmed_nonempty(sp.take(k as int)).push(t@));
        }
        k = k + 1;
    }
    assert(sp.take(pieces.len() as int) == sp);
    v
}


/// Whether `a` and `b` hold the same characters.
pub fn equal_chars(a: &[char], b: &[char]) -> (r: bool)
    ensures
        r == (a@ == b@),
{
    if a.len() != b.len() {
        return false;
    }
    let mut i: usize = 0;
    while i < a.len()
        invariant
            a.len() == b.len(),
            i <= a.len(),
            forall|j: int| 0 <= j < i ==> a@[j] == b@[j],
        decreases a.len() - i,
    {
        if a[i] != b[i] {
            return false;
        }
        i = i + 1;
    }
    assert(a@ =~= b@);
    true
}


/// `s` ends with `p`.
pub open spec fn ends_with(s: Seq<char>, p: Seq<char>) -> bool {
    p.len() <= s.len() && s.skip(s.len() - p.len()) == p
}

/// Whether `s` ends with `p`.
pub fn ends_with_chars(s: &[char], p: &[char]) -> (b: bool)
    ensures
        b == ends_with(s@, p@),
{
    if p.len() > s.len() {
        return false;
    }
    let off = s.len() - p.len();
    let mut i: usize = 0;
    while i < p.len()
        invariant
            off + p.len() == s.len(),
            i <= p.len(),
            forall|j: int| 0 <= j < i ==> s@[off + j] == p@[j],
        decreases p.len() - i,
    {
        if s[off + i] != p[i] {
            assert(s@.skip(off as int)[i as int] != p@[i as int]);
            return false;
        }
        i = i + 1;
    }
    assert(s@.skip(off as int) =~= p@);
    true
}

/// A `String` holding `a` followed by `b`.
pub fn concat(a: &str, b: &str) -> (r: String)
    ensures
        r@ == a@ + b@,
{
    let mut v = chars_of(a);
    let w = chars_of(b);
    extend_chars(&mut v, &w);
    string_of(&v)
}

/// The pieces of `parts` with `sep` between each two of them.
pub open spec fn joined(parts: Seq<Seq<char>>, sep: Seq<char>) -> Seq<char>
    decreases parts.len(),
{
    if parts.len() == 0 {
        Seq::<char>::empty()
    } else if parts.len() == 1 {
        parts[0]
    } else {
        joined(parts.drop_last(), sep) + sep + parts.last()
    }
}

/// The strings of `parts` with `sep` between each two of them, as `join` on a slice
/// of strings gives them.
pub fn join_strings(parts: &[String], sep: &str) -> (r: String)
    ensures
        r@ == joined(string_views(parts@), sep@),
{
    let sv = chars_of(sep);
    let mut out: Vec<char> = Vec::new();
    let mut i: usize = 0;
    while i < parts.len()
        invariant
            i <= parts.len(),
            sv@ == sep@,
            out@ == joined(string_views(parts@.take(i as int)), sep@),
        decreases parts.len() - i,
    {
        let ghost pre = string_views(parts@.take(i as int));
        assert(string_views(parts@.take(i as int + 1)) =~= pre.push(parts@[i as int]@));
        assert(string_views(parts@.take(i as int + 1)).drop_last() =~= pre);
        if i > 0 {
            extend_chars(&mut out, &sv);
        }
        let pc = chars_of(parts[i].as_str());
        extend_chars(&mut out, &pc);
        i = i + 1;
    }
    assert(parts@.take(parts.len() as int) =~= parts@);
    string_of(&out)
}

/// The white-space-separated words of `s`, as `str::split_whitespace` yields them.
pub open spec fn words(s: Seq<char>) -> Seq<Seq<char>>
    decreases s.len(),
{
    if s.len() == 0 {
        Seq::<Seq<char>>::empty()
    } else {
        let w = words(s.drop_last());
        if is_white(s.last()) {
            w
        } else if s.len() >= 2 && !is_white(s[s.len() - 2]) {
            w.drop_last().push(w.last().push(s.last()))
        } else {
            w.push(seq![s.last()])
        }
    }
}

proof fn lemma_words_open(s: Seq<char>)
    requires
        s.len() > 0,
        !is_white(s.last()),
    ensures
        words(s).len() > 0,
{
}

/// The white-space-separated words of `s`.
pub fn words_of(s: &[char]) -> (v: Vec<Vec<char>>)
    ensures
        views(v@) == words(s@),
{
    let mut v: Vec<Vec<char>> = Vec::new();
    let mut i: usize = 0;
    while i < s.len()
        invariant
            i <= s.len(),
            views(v@) == words(s@.take(i as int)),
        decreases s.len() - i,
    {
        let ghost pre = s@.take(i as int);
        let ghost cur = s@.take(i as int + 1);
        assert(cur.drop_last() =~= pre);
        assert(cur.last() == s@[i as int]);
        let c = s[i];
        if !is_white_exec(c) {
            if i > 0 && !is_white_exec(s[i - 1]) {
                assert(pre.last() == s@[i as int - 1]);
                proof {
                    lemma_words_open(pre);
                }
                assert(cur[cur.len() - 2] == s@[i as int - 1]);
                let mut last = v.pop().unwrap();
                last.push(c);
                v.push(last);
                assert(views(v@) =~= words(cur));
            } else {
                let mut w: Vec<char> = Vec::new();
                w.push(c);
                v.push(w);
                assert(views(v@) =~= words(cur));
            }
        }
        i = i + 1;
    }
    assert(s@.take(s.len() as int) =~= s@);
    v
}

/// Appends the characters of `s` from index `a` up to `b` to `out`.
pub fn extend_range(out: &mut Vec<char>, s: &[char], a: usize, b: usize)
    requires
        a <= b <= s.len(),
    ensures
        final(out)@ == old(out)@ + s@.subrange(a as int, b as int),
{
    let ghost start = out@;
    let mut m: usize = a;
    while m < b
        invariant
            a <= m <= b <= s.len(),
            out@ == start + s@.subrange(a as int, m as int),
        decreases b - m,
    {
        out.push(s[m]);
        m = m + 1;
        assert(out@ =~= start + s@.subrange(a as int, m as int));
    }
}

} // verus!
