//! Matching folders by name: the numeric id in a folder name, and ranking candidate
//! folders by similarity score.

use vstd::prelude::*;
use crate::listing::leading_digits;
use crate::sorting::{keyed_views, sort_by_key_stable, sorted_by_key};
use crate::text::{chars_of, digits_value, is_digit, string_of};

verus! {

/// The first run of at least six ASCII digits in `s`, whole.
pub open spec fn long_number(s: Seq<char>) -> Option<Seq<char>>
    decreases s.len(),
{
    if s.len() == 0 {
        None
    } else if is_digit(s[0]) {
        let run = leading_digits(s);
        proof {
            lemma_leading_digits_nonempty(s);
        }
        if run.len() >= 6 {
            Some(run)
        } else {
            long_number(s.skip(run.len() as int))
        }
    } else {
        long_number(s.drop_first())
    }
}

/// A text that starts with a digit has a leading run of one digit or more.
pub proof fn lemma_leading_digits_nonempty(s: Seq<char>)
    requires
        s.len() > 0,
        is_digit(s[0]),
    ensures
        1 <= leading_digits(s).len() <= s.len(),
    decreases s.len(),
{
    lemma_leading_digits_len(s.drop_first());
}

/// The leading run of digits is no longer than the text.
pub proof fn lemma_leading_digits_len(s: Seq<char>)
    ensures
        leading_digits(s).len() <= s.len(),
    decreases s.len(),
{
    if s.len() > 0 && is_digit(s[0]) {
        lemma_leading_digits_len(s.drop_first());
    }
}

/// The id of a folder name: its first run of at least six digits, as a number.
pub open spec fn uid_of(s: Seq<char>) -> Option<nat> {
    match long_number(s) {
        Some(d) => Some(digits_value(d)),
        None => None,
    }
}

fn leading_digits_len(s: &[char], from: usize) -> (n: usize)
    requires
        from <= s.len(),
    ensures
        n == leading_digits(s@.skip(from as int)).len(),
        from + n <= s.len(),
{
    let mut j: usize = from;
    while j < s.len() && '0' <= s[j] && s[j] <= '9'
        invariant
            from <= j <= s.len(),
            leading_digits(s@.skip(from as int)).len() == (j - from) + leading_digits(s@.skip(j as int)).len(),
        decreases s.len() - j,
    {
        assert(s@.skip(j as int)[0] == s@[j as int]);
        assert(s@.skip(j as int).drop_first() =~= s@.skip(j as int + 1));
        j = j + 1;
    }
    if j < s.len() {
        assert(s@.skip(j as int)[0] == s@[j as int]);
    } else {
        assert(s@.skip(j as int) =~= Seq::<char>::empty());
    }
    j - from
}

proof fn lemma_digits_prefix(s: Seq<char>, n: int)
    requires
        0 <= n <= s.len(),
        n <= leading_digits(s).len(),
    ensures
        leading_digits(s).take(n) == s.take(n),
    decreases s.len(),
{
    if n > 0 {
        lemma_digits_prefix(s.drop_first(), n - 1);
        assert(leading_digits(s) == seq![s[0]] + leading_digits(s.drop_first()));
        assert(leading_digits(s).take(n) =~= seq![s[0]] + leading_digits(s.drop_first()).take(n - 1));
        assert(s.take(n) =~= seq![s[0]] + s.drop_first().take(n - 1));
    }
}

/// The id in a folder name, if it has one; the id fits a `usize`.
pub fn uid(s: &str) -> (r: Option<usize>)
    requires
        uid_of(s@) matches Some(v) ==> v <= usize::MAX,
    ensures
        r matches Some(v) ==> uid_of(s@) == Some(v as nat),
        r is None ==> uid_of(s@) is None,
{
    let c = chars_of(s);
    let mut i: usize = 0;
    assert(c@.skip(0) =~= c@);
    while i < c.len()
        invariant
            i <= c.len(),
            c@ == s@,
            uid_of(s@) matches Some(v) ==> v <= usize::MAX,
            long_number(s@) == long_number(c@.skip(i as int)),
        decreases c.len() - i,
    {
        let ghost rest = c@.skip(i as int);
        assert(rest[0] == c@[i as int]);
        if '0' <= c[i] && c[i] <= '9' {
            let n = leading_digits_len(&c, i);
            proof {
                lemma_leading_digits_nonempty(rest);
            }
            if n >= 6 {
                let mut v: usize = 0;
                let mut k: usize = 0;
                proof {
                    lemma_digits_prefix(rest, n as int);
                    crate::listing::lemma_leading_digits(rest);
                }
                assert(long_number(rest) == Some(leading_digits(rest)));
                assert(leading_digits(rest) =~= rest.take(n as int));
                while k < n
                    invariant
                        k <= n,
                        i + n <= c.len(),
                        rest == c@.skip(i as int),
                        leading_digits(rest) == rest.take(n as int),
                        crate::text::all_digits(leading_digits(rest)),
                        digits_value(leading_digits(rest)) <= usize::MAX,
                        v as int == digits_value(rest.take(k as int)),
                    decreases n - k,
                {
                    proof {
                        crate::text::lemma_digits_value_prefix(leading_digits(rest), k as int + 1);
                        assert(rest.take(k as int + 1).drop_last() =~= rest.take(k as int));
                        assert(rest.take(k as int + 1).last() == c@[i + k]);
                    }
                    assert(rest.take(k as int + 1) =~= leading_digits(rest).take(k as int + 1));
                    assert(crate::text::is_digit(c@[i + k]));
                    let d = (c[i + k] as u32 - '0' as u32) as usize;
                    assert(digits_value(rest.take(k as int + 1)) == digits_value(rest.take(k as int)) * 10 + d);
                    v = v * 10 + d;
                    k = k + 1;
                }
                return Some(v);
            }
            assert(rest.skip(n as int) =~= c@.skip(i + n));
            i = i + n;
        } else {
            assert(rest.drop_first() =~= c@.skip(i as int + 1));
            i = i + 1;
        }
    }
    assert(c@.skip(i as int) =~= Seq::<char>::empty());
    None
}

/// Two folder names share an id.
pub fn eq_uid(a: &str, b: &str) -> (r: bool)
    requires
        uid_of(a@) matches Some(v) ==> v <= usize::MAX,
        uid_of(b@) matches Some(v) ==> v <= usize::MAX,
    ensures
        r == (uid_of(a@) is Some && uid_of(a@) == uid_of(b@)),
{
    match (uid(a), uid(b)) {
        (Some(x), Some(y)) => x == y,
        (Some(_), None) => false,
        _ => false,
    }
}

/// The candidates, highest score first (equal scores in the given order), down to
/// those that reach the threshold.
pub open spec fn ranked(cands: Seq<(Seq<char>, u64)>, threshold: u64) -> Seq<(Seq<char>, u64)> {
    sorted_by_key(cands.map_values(|c: (Seq<char>, u64)| (c.0, (u64::MAX - c.1) as u64)))
        .map_values(|c: (Seq<char>, u64)| (c.0, (u64::MAX - c.1) as u64))
        .filter(|c: (Seq<char>, u64)| c.1 >= threshold)
}

/// The candidate folders worth offering, best first.
pub fn find_possible_matches(cands: &Vec<(String, u64)>, threshold: u64) -> (r: Vec<(String, u64)>)
    ensures
        keyed_views(r@) == ranked(keyed_views(cands@), threshold),
{
    let ghost cv = keyed_views(cands@);
    let mut flipped: Vec<(String, u64)> = Vec::new();
    let mut i: usize = 0;
    while i < cands.len()
        invariant
            i <= cands.len(),
            cv == keyed_views(cands@),
            flipped.len() == i,
            keyed_views(flipped@) == cv.take(i as int).map_values(|c: (Seq<char>, u64)| (c.0, (u64::MAX - c.1) as u64)),
        decreases cands.len() - i,
    {
        let ghost before = keyed_views(flipped@);
        flipped.push((cands[i].0.clone(), u64::MAX - cands[i].1));
        let ghost want = cv.take(i as int + 1).map_values(|c: (Seq<char>, u64)| (c.0, (u64::MAX - c.1) as u64));
        assert(want[i as int] == (cands@[i as int].0@, (u64::MAX - cands@[i as int].1) as u64));
        assert forall|q: int| 0 <= q < i implies #[trigger] keyed_views(flipped@)[q] == want[q] by {
            assert(keyed_views(flipped@)[q] == before[q]);
        }
        assert(keyed_views(flipped@) =~= want);
        i = i + 1;
    }
    assert(cv.take(cands.len() as int) =~= cv);
    let sorted = sort_by_key_stable(&flipped);
    let ghost back = keyed_views(sorted@).map_values(|c: (Seq<char>, u64)| (c.0, (u64::MAX - c.1) as u64));
    let mut r: Vec<(String, u64)> = Vec::new();
    let mut j: usize = 0;
    while j < sorted.len()
        invariant
            j <= sorted.len(),
            back == keyed_views(sorted@).map_values(|c: (Seq<char>, u64)| (c.0, (u64::MAX - c.1) as u64)),
            keyed_views(r@) == back.take(j as int).filter(|c: (Seq<char>, u64)| c.1 >= threshold),
        decreases sorted.len() - j,
    {
        let score = u64::MAX - sorted[j].1;
        assert(back[j as int] == (sorted@[j as int].0@, score));
        let ghost before = keyed_views(r@);
        if score >= threshold {
            r.push((sorted[j].0.clone(), score));
            assert(keyed_views(r@) =~= before.push(back[j as int]));
        }
        proof {
            back.take(j as int).lemma_filter_push(back[j as int], |c: (Seq<char>, u64)| c.1 >= threshold);
            assert(back.take(j as int).push(back[j as int]) =~= back.take(j as int + 1));
        }
        j = j + 1;
    }
    assert(back.take(sorted.len() as int) =~= back);
    r
}

/// Name for whether the regex class `\d` (Unicode general category `Nd`, decimal
/// digits of every script) matches the character `c`.
pub uninterp spec fn decimal_digit(c: char) -> bool;

/// Matches `c` against the pattern `\d` with the `regex` crate; the answer is named
/// `decimal_digit(c)`. Among ASCII characters the class holds exactly `0`..`9`.
#[verifier::external_body]
fn regex_digit(c: char) -> (b: bool)
    ensures
        b == decimal_digit(c),
        (c as u32) < 128 ==> (b <==> is_digit(c)),
{
    regex::Regex::new(r"\d").unwrap().is_match(&c.to_string())
}

/// The number of runs of consecutive digits (as `\d` reads them) in `c`.
pub open spec fn digit_runs(c: Seq<char>) -> nat
    decreases c.len(),
{
    if c.len() == 0 {
        0
    } else {
        digit_runs(c.drop_last()) + if decimal_digit(c.last()) && (c.len() == 1 || !decimal_digit(c[c.len() - 2])) {
            1nat
        } else {
            0nat
        }
    }
}

/// `c` holds a character that `\d` does not match.
pub open spec fn has_non_digit(c: Seq<char>) -> bool {
    exists|k: int| 0 <= k < c.len() && !decimal_digit(#[trigger] c[k])
}

/// What may stand between the brackets of a removed group: non-digits, digits, at
/// least one non-digit, digits, non-digits; that is, a non-digit and at most two runs
/// of digits.
pub open spec fn removable_content(c: Seq<char>) -> bool {
    has_non_digit(c) && digit_runs(c) <= 2
}

/// A group opened at `i` can be closed at `j`: `s[j]` is `close` and what lies between
/// is removable.
pub open spec fn closes_at(s: Seq<char>, i: int, j: int, close: char) -> bool {
    0 <= i < j < s.len() && s[j] == close && removable_content(s.subrange(i + 1, j))
}

/// The last place before `j` where a group opened at `i` can be closed, or -1.
pub open spec fn farthest_close(s: Seq<char>, i: int, j: int, close: char) -> int
    decreases j,
{
    if j <= 0 {
        -1
    } else if closes_at(s, i, j - 1, close) {
        j - 1
    } else {
        farthest_close(s, i, j - 1, close)
    }
}

/// `s` from index `i` on with its bracket groups removed, scanning from the left: at an
/// `open` that some `close` can end, the group up to the last such `close` goes, and
/// the scan goes on after it.
pub open spec fn groups_removed(s: Seq<char>, i: int, open: char, close: char) -> Seq<char>
    decreases s.len() - i,
{
    if i < 0 || i >= s.len() {
        Seq::<char>::empty()
    } else {
        let e = farthest_close(s, i, s.len() as int, close);
        if s[i] == open && i < e < s.len() {
            groups_removed(s, e + 1, open, close)
        } else {
            seq![s[i]] + groups_removed(s, i + 1, open, close)
        }
    }
}

proof fn lemma_farthest_close_range(s: Seq<char>, i: int, j: int, close: char)
    ensures
        farthest_close(s, i, j, close) == -1 || (farthest_close(s, i, j, close) < j && closes_at(
            s,
            i,
            farthest_close(s, i, j, close),
            close,
        )),
    decreases j,
{
    if j > 0 && !closes_at(s, i, j - 1, close) {
        lemma_farthest_close_range(s, i, j - 1, close);
    }
}

/// Where the group opened at `i` ends, if it can be closed.
fn farthest_close_exec(s: &Vec<char>, i: usize, close: char) -> (e: Option<usize>)
    requires
        i < s.len(),
    ensures
        e matches Some(j) ==> j == farthest_close(s@, i as int, s.len() as int, close),
        e is None ==> farthest_close(s@, i as int, s.len() as int, close) == -1,
{
    let mut best: Option<usize> = None;
    let mut runs: u64 = 0;
    let mut non_digit = false;
    let mut prev_digit = false;
    let mut j: usize = i + 1;
    assert(s@.subrange(i + 1, i + 1) =~= Seq::<char>::empty());
    assert(farthest_close(s@, i as int, i + 1, close) == -1) by {
        assert(!closes_at(s@, i as int, i as int, close));
        assert(farthest_close(s@, i as int, i as int, close) == -1) by {
            lemma_farthest_close_range(s@, i as int, i as int, close);
        }
    }
    while j < s.len()
        invariant
            i < j <= s.len(),
            runs == if digit_runs(s@.subrange(i + 1, j as int)) <= 3 {
                digit_runs(s@.subrange(i + 1, j as int))
            } else {
                3
            },
            non_digit == has_non_digit(s@.subrange(i + 1, j as int)),
            j > i + 1 ==> prev_digit == decimal_digit(s@[j - 1]),
            match best {
                Some(b) => b == farthest_close(s@, i as int, j as int, close),
                None => farthest_close(s@, i as int, j as int, close) == -1,
            },
        decreases s.len() - j,
    {
        let ghost c = s@.subrange(i + 1, j as int);
        if s[j] == close && non_digit && runs <= 2 {
            best = Some(j);
        }
        let d = regex_digit(s[j]);
        let ghost next = s@.subrange(i + 1, j + 1);
        assert(next.drop_last() =~= c);
        assert(next.last() == s@[j as int]);
        if j > i + 1 {
            assert(next[next.len() - 2] == s@[j - 1]);
        }
        if d && !(j > i + 1 && prev_digit) && runs < 3 {
            runs = runs + 1;
        }
        proof {
            if !d {
                assert(!decimal_digit(next[next.len() - 1]));
            } else if non_digit {
                let k = choose|k: int| 0 <= k < c.len() && !decimal_digit(#[trigger] c[k]);
                assert(next[k] == c[k]);
            } else {
                assert forall|k: int| 0 <= k < next.len() implies decimal_digit(#[trigger] next[k]) by {
                    if k < c.len() {
                        assert(next[k] == c[k]);
                    }
                }
            }
        }
        if !d {
            non_digit = true;
        }
        prev_digit = d;
        j = j + 1;
    }
    best
}

/// `s` with its bracket groups removed, as a global search with the pattern
/// `open \D* \d* \D+ \d* \D* close` and an empty replacement removes them.
pub fn remove_groups(s: &str, open: char, close: char) -> (r: String)
    ensures
        r@ == groups_removed(s@, 0, open, close),
{
    let c = chars_of(s);
    let mut out: Vec<char> = Vec::new();
    let mut i: usize = 0;
    while i < c.len()
        invariant
            i <= c.len(),
            c@ == s@,
            groups_removed(s@, 0, open, close) == out@ + groups_removed(s@, i as int, open, close),
        decreases c.len() - i,
    {
        let ghost e = farthest_close(s@, i as int, s@.len() as int, close);
        proof {
            lemma_farthest_close_range(s@, i as int, s@.len() as int, close);
        }
        if c[i] == open {
            match farthest_close_exec(&c, i, close) {
                Some(j) => {
                    i = j + 1;
                    continue;
                },
                None => {},
            }
        }
        let ghost before = out@;
        out.push(c[i]);
        assert(out@ =~= before + seq![c@[i as int]]);
        i = i + 1;
    }
    assert(groups_removed(s@, i as int, open, close) =~= Seq::<char>::empty());
    assert(out@ =~= out@ + Seq::<char>::empty());
    string_of(&out)
}

/// Removes the `( .. )` groups of a folder name.
pub fn remove_s_brackets(s: &str) -> (r: String)
    ensures
        r@ == groups_removed(s@, 0, '(', ')'),
{
    remove_groups(s, '(', ')')
}

/// Removes the `[ .. ]` groups of a folder name.
pub fn remove_m_brackets(s: &str) -> (r: String)
    ensures
        r@ == groups_removed(s@, 0, '[', ']'),
{
    remove_groups(s, '[', ']')
}

/// Removes the `{ .. }` groups of a folder name.
pub fn remove_l_brackets(s: &str) -> (r: String)
    ensures
        r@ == groups_removed(s@, 0, '{', '}'),
{
    remove_groups(s, '{', '}')
}

/// A folder name with its `[ .. ]`, then `{ .. }`, then `( .. )` groups removed: the
/// form of the name that is also compared.
pub fn without_brackets(s: &str) -> (r: String)
    ensures
        r@ == groups_removed(
            groups_removed(groups_removed(s@, 0, '[', ']'), 0, '{', '}'),
            0,
            '(',
            ')',
        ),
{
    let m = remove_m_brackets(s);
    let l = remove_l_brackets(m.as_str());
    remove_s_brackets(l.as_str())
}

} // verus!
