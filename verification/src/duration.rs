//! Reading clip lengths written as `HH:MM:SS` or `MM:SS`, and sorting them into
//! length intervals.

use vstd::prelude::*;
use crate::text::{chars_of, digit_value, is_digit, parse_i64, parse_int, signed_decimal, signed_decimal_chars, split_chars, split_on, string_of, views};

verus! {

/// Declares `chrono::TimeDelta` (alias `chrono::Duration`), carried through unchanged.
#[verifier::external_type_specification]
#[verifier::external_body]
pub struct ExTimeDelta(chrono::TimeDelta);

/// Name for the `chrono::TimeDelta` that `TimeDelta::seconds` builds from a number of seconds.
pub uninterp spec fn chrono_seconds(secs: i64) -> chrono::TimeDelta;

/// Largest number of whole seconds a `chrono::TimeDelta` holds (`i64::MAX / 1000`).
pub open spec fn max_delta_seconds() -> int {
    9223372036854775
}

/// Calls `chrono::TimeDelta::seconds`, which panics outside `±(i64::MAX / 1000)` seconds;
/// the result is the delta of exactly `secs` seconds, named `chrono_seconds(secs)`.
#[verifier::external_body]
fn delta_from_seconds(secs: i64) -> (d: chrono::TimeDelta)
    requires
        -max_delta_seconds() <= secs <= max_delta_seconds(),
    ensures
        d == chrono_seconds(secs),
{
    chrono::TimeDelta::seconds(secs)
}

/// Two ASCII digits start at `i` in `s`.
pub open spec fn two_digits_at(s: Seq<char>, i: int) -> bool {
    0 <= i && i + 2 <= s.len() && is_digit(s[i]) && is_digit(s[i + 1])
}

/// The value of the two digits at `i`.
pub open spec fn two_digits_value(s: Seq<char>, i: int) -> int {
    (digit_value(s[i]) * 10 + digit_value(s[i + 1])) as int
}

/// `DD:DD:DD` starts at `i` in `s`.
pub open spec fn long_at(s: Seq<char>, i: int) -> bool {
    two_digits_at(s, i) && i + 8 <= s.len() && s[i + 2] == ':' && two_digits_at(s, i + 3)
        && s[i + 5] == ':' && two_digits_at(s, i + 6)
}

/// `DD:DD` starts at `i` in `s`.
pub open spec fn short_at(s: Seq<char>, i: int) -> bool {
    two_digits_at(s, i) && i + 5 <= s.len() && s[i + 2] == ':' && two_digits_at(s, i + 3)
}

/// `i` is the leftmost place where `HH:MM:SS` occurs.
pub open spec fn first_long(s: Seq<char>, i: int) -> bool {
    long_at(s, i) && forall|j: int| 0 <= j < i ==> !#[trigger] long_at(s, j)
}

/// `i` is the leftmost place where `MM:SS` occurs.
pub open spec fn first_short(s: Seq<char>, i: int) -> bool {
    short_at(s, i) && forall|j: int| 0 <= j < i ==> !#[trigger] short_at(s, j)
}

/// The length, in seconds, that the text `s` states: the leftmost `HH:MM:SS` in it,
/// else the leftmost `MM:SS`, else nothing. Any text may surround it.
pub open spec fn stated_seconds(s: Seq<char>, v: Option<int>) -> bool {
    match v {
        Some(n) => (exists|i: int|
            first_long(s, i) && n == two_digits_value(s, i) * 3600 + two_digits_value(s, i + 3)
                * 60 + two_digits_value(s, i + 6)) || ((forall|j: int| !#[trigger] long_at(s, j))
            && exists|i: int|
            first_short(s, i) && n == two_digits_value(s, i) * 60 + two_digits_value(s, i + 3)),
        None => (forall|j: int| !#[trigger] long_at(s, j)) && (forall|j: int|
            !#[trigger] short_at(s, j)),
    }
}

fn two_digits_at_exec(s: &Vec<char>, i: usize) -> (b: bool)
    ensures
        b == two_digits_at(s@, i as int),
{
    i < s.len() && s.len() - i >= 2 && '0' <= s[i] && s[i] <= '9' && '0' <= s[i + 1] && s[i
        + 1] <= '9'
}

fn two_digits_exec(s: &Vec<char>, i: usize) -> (v: i64)
    requires
        two_digits_at(s@, i as int),
    ensures
        v == two_digits_value(s@, i as int),
        0 <= v < 100,
{
    assert(i + 1 < s.len());
    ((s[i] as i64) - 48) * 10 + ((s[i + 1] as i64) - 48)
}

/// The number of seconds that `text` states as `HH:MM:SS` or `MM:SS`.
pub fn parse_duration_seconds(text: &str) -> (r: Option<i64>)
    ensures
        stated_seconds(text@, match r { Some(n) => Some(n as int), None => None }),
        r matches Some(n) ==> 0 <= n < 100 * 3600 + 100 * 60 + 100,
{
    let s = chars_of(text);
    let n = s.len();
    let mut i: usize = 0;
    while i < n
        invariant
            n == s@.len(),
            s@ == text@,
            i <= n,
            forall|j: int| 0 <= j < i ==> !#[trigger] long_at(s@, j),
        decreases n - i,
    {
        if n - i >= 8 && two_digits_at_exec(&s, i) && s[i + 2] == ':' && two_digits_at_exec(&s, i + 3)
            && s[i + 5] == ':' && two_digits_at_exec(&s, i + 6) {
            assert(first_long(s@, i as int));
            let h = two_digits_exec(&s, i);
            let m = two_digits_exec(&s, i + 3);
            let sec = two_digits_exec(&s, i + 6);
            return Some(h * 3600 + m * 60 + sec);
        }
        i = i + 1;
    }
    assert forall|j: int| !#[trigger] long_at(s@, j) by {
        if 0 <= j < n {
        } else {
        }
    }
    let mut i: usize = 0;
    while i < n
        invariant
            n == s@.len(),
            s@ == text@,
            i <= n,
            forall|j: int| !#[trigger] long_at(s@, j),
            forall|j: int| 0 <= j < i ==> !#[trigger] short_at(s@, j),
        decreases n - i,
    {
        if n - i >= 5 && two_digits_at_exec(&s, i) && s[i + 2] == ':' && two_digits_at_exec(&s, i + 3) {
            assert(first_short(s@, i as int));
            let m = two_digits_exec(&s, i);
            let sec = two_digits_exec(&s, i + 3);
            return Some(m * 60 + sec);
        }
        i = i + 1;
    }
    assert forall|j: int| !#[trigger] short_at(s@, j) by {
        if 0 <= j < n {
        } else {
        }
    }
    None
}

/// Reading a text as a clip length.
pub trait AsDuration {
    /// The length the text states, as a `chrono::Duration`.
    fn as_duration(&self) -> Option<chrono::TimeDelta>;
}

impl AsDuration for str {
    /// The leftmost `HH:MM:SS` in the text, else its leftmost `MM:SS`, as a duration.
    fn as_duration(&self) -> (r: Option<chrono::TimeDelta>)
        ensures
            exists|v: Option<int>|
                stated_seconds(self@, v) && match v {
                    Some(n) => r == Some(chrono_seconds(n as i64)),
                    None => r is None,
                },
    {
        match parse_duration_seconds(self) {
            Some(n) => Some(delta_from_seconds(n)),
            None => None,
        }
    }
}


/// A half-open range of lengths in seconds: above `min`, up to and including `max`.
#[derive(Clone, Copy)]
pub struct Interval {
    min: i64,
    max: i64,
}

impl View for Interval {
    type V = (i64, i64);

    closed spec fn view(&self) -> (i64, i64) {
        (self.min, self.max)
    }
}

/// `value` lies in the interval `(min, max]`.
pub open spec fn in_interval(iv: (i64, i64), value: i64) -> bool {
    iv.0 < value && value <= iv.1
}

impl Interval {
    /// The interval `(min, max]`.
    pub fn new(min: i64, max: i64) -> (r: Interval)
        ensures
            r@ == (min, max),
    {
        Interval { min, max }
    }

    /// Whether `value` is above the lower bound and at most the upper bound.
    pub fn contains(&self, value: i64) -> (b: bool)
        ensures
            b == in_interval(self@, value),
    {
        value > self.min && value <= self.max
    }

    /// The text `min-max` that names the interval.
    pub fn to_string(&self) -> (s: String)
        ensures
            s@ == signed_decimal(self@.0 as int) + seq!['-'] + signed_decimal(self@.1 as int),
    {
        let mut v = signed_decimal_chars(self.min);
        v.push('-');
        let w = signed_decimal_chars(self.max);
        let mut i: usize = 0;
        let ghost start = v@;
        while i < w.len()
            invariant
                i <= w.len(),
                v@ == start + w@.take(i as int),
            decreases w.len() - i,
        {
            v.push(w[i]);
            i = i + 1;
            assert(v@ =~= start + w@.take(i as int));
        }
        assert(w@.take(w.len() as int) == w@);
        string_of(&v)
    }
}

/// An ordered list of length intervals; a length belongs to the first interval that
/// contains it.
pub struct Intervals {
    parts: Vec<Interval>,
}

impl View for Intervals {
    type V = Seq<(i64, i64)>;

    closed spec fn view(&self) -> Seq<(i64, i64)> {
        self.parts@.map_values(|iv: Interval| iv@)
    }
}

/// `k` is the first interval of `ivs` that contains `value`.
pub open spec fn first_containing(ivs: Seq<(i64, i64)>, value: i64, k: int) -> bool {
    0 <= k < ivs.len() && in_interval(ivs[k], value) && forall|j: int|
        0 <= j < k ==> !in_interval(#[trigger] ivs[j], value)
}

/// The interval that one `min:max` piece of an interval list describes; text after a
/// second `:` is ignored.
pub open spec fn piece_interval(piece: Seq<char>) -> Option<(i64, i64)> {
    let parts = split_on(piece, ':');
    if parts.len() >= 2 && parse_int(parts[0], i64::MIN as int, i64::MAX as int) is Some
        && parse_int(parts[1], i64::MIN as int, i64::MAX as int) is Some {
        Some(
            (
                parse_int(parts[0], i64::MIN as int, i64::MAX as int)->0 as i64,
                parse_int(parts[1], i64::MIN as int, i64::MAX as int)->0 as i64,
            ),
        )
    } else {
        None
    }
}

/// Every comma-separated piece of `s` describes an interval.
pub open spec fn well_formed_list(s: Seq<char>) -> bool {
    forall|k: int| 0 <= k < split_on(s, ',').len() ==> #[trigger] piece_interval(split_on(s, ',')[k]) is Some
}

/// The intervals that the comma-separated list `s` describes, in order.
pub open spec fn listed_intervals(s: Seq<char>) -> Seq<(i64, i64)> {
    split_on(s, ',').map_values(|p: Seq<char>| piece_interval(p)->0)
}

impl Intervals {
    /// No intervals.
    pub fn new() -> (r: Intervals)
        ensures
            r@ == Seq::<(i64, i64)>::empty(),
    {
        Intervals { parts: Vec::new() }
    }

    /// Appends the interval `(min, max]` at the end of the list.
    pub fn add(&mut self, min: i64, max: i64)
        ensures
            final(self)@ == old(self)@.push((min, max)),
    {
        self.parts.push(Interval { min, max });
        assert(self@ =~= old(self)@.push((min, max)));
    }

    /// The first interval of the list that contains `value`.
    pub fn in_which_interval(&self, value: i64) -> (r: Option<&Interval>)
        ensures
            r matches Some(iv) ==> exists|k: int| first_containing(self@, value, k) && self@[k] == iv@,
            r is None ==> forall|k: int| 0 <= k < self@.len() ==> !in_interval(#[trigger] self@[k], value),
    {
        let mut i: usize = 0;
        while i < self.parts.len()
            invariant
                i <= self.parts.len(),
                forall|j: int| 0 <= j < i ==> !in_interval(#[trigger] self@[j], value),
            decreases self.parts.len() - i,
        {
            if self.parts[i].contains(value) {
                assert(first_containing(self@, value, i as int));
                return Some(&self.parts[i]);
            }
            i = i + 1;
        }
        None
    }

    /// The label of the first interval containing `seconds`, or `other` when none does.
    pub fn classify(&self, seconds: i64) -> (s: String)
        ensures
            (exists|k: int|
                first_containing(self@, seconds, k) && s@ == signed_decimal(self@[k].0 as int)
                    + seq!['-'] + signed_decimal(self@[k].1 as int)) || ((forall|k: int|
                0 <= k < self@.len() ==> !in_interval(#[trigger] self@[k], seconds)) && s@
                == "other"@),
    {
        match self.in_which_interval(seconds) {
            Some(iv) => iv.to_string(),
            None => {
                let mut s = String::new();
                s.push('o');
                s.push('t');
                s.push('h');
                s.push('e');
                s.push('r');
                proof {
                    reveal_strlit("other");
                }
                assert(s@ =~= "other"@);
                s
            },
        }
    }

    /// The intervals of a comma-separated list of `min:max` pairs, such as
    /// `0:60,60:180`; `None` when a piece lacks the colon or a bound is not an integer.
    pub fn try_from_text(text: &str) -> (r: Option<Intervals>)
        ensures
            r matches Some(ivs) ==> well_formed_list(text@) && ivs@ == listed_intervals(text@),
            r is None ==> !well_formed_list(text@),
    {
        let s = chars_of(text);
        let pieces = split_chars(&s, ',');
        let ghost sp = split_on(text@, ',');
        let mut out = Intervals::new();
        let mut k: usize = 0;
        while k < pieces.len()
            invariant
                views(pieces@) == sp,
                sp == split_on(text@, ','),
                k <= pieces.len(),
                forall|j: int| 0 <= j < k ==> #[trigger] piece_interval(sp[j]) is Some,
                out@ == sp.take(k as int).map_values(|p: Seq<char>| piece_interval(p)->0),
            decreases pieces.len() - k,
        {
            let parts = split_chars(&pieces[k], ':');
            assert(pieces[k as int]@ == sp[k as int]);
            if parts.len() < 2 {
                assert(piece_interval(sp[k as int]) is None);
                return None;
            }
            assert(parts[0]@ == split_on(sp[k as int], ':')[0]);
            assert(parts[1]@ == split_on(sp[k as int], ':')[1]);
            let lo = parse_i64(&parts[0]);
            let hi = parse_i64(&parts[1]);
            match (lo, hi) {
                (Some(a), Some(b)) => {
                    out.add(a, b);
                    assert(piece_interval(sp[k as int]) == Some((a, b)));
                    assert(out@ =~= sp.take(k as int + 1).map_values(
                        |p: Seq<char>| piece_interval(p)->0,
                    ));
                },
                _ => {
                    assert(piece_interval(sp[k as int]) is None);
                    return None;
                },
            }
            k = k + 1;
        }
        assert(sp.take(pieces.len() as int) == sp);
        Some(out)
    }
}

} // verus!
