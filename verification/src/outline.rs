//! Reading a plain-text outline: lines numbered `1`, `1.2` or `1.2.3` are headings of
//! the first, second or third level; other lines are body text.

use vstd::prelude::*;
use crate::text::{chars_of, extend_range, is_digit, is_white, is_white_exec, string_of};

verus! {

/// How one line of the outline reads.
pub enum LineKind {
    /// A first-level heading, with its text.
    Level1(String),
    /// A second-level heading, with its text.
    Level2(String),
    /// A third-level heading.
    Level3,
    /// Body text.
    Body,
}

/// The end of the run of ASCII digits in `s` starting at `i`.
pub open spec fn digits_end(s: Seq<char>, i: int) -> int
    decreases s.len() - i,
{
    if i < 0 || i >= s.len() || !is_digit(s[i]) {
        i
    } else {
        digits_end(s, i + 1)
    }
}

/// The end of the run of white space in `s` starting at `i`.
pub open spec fn white_end(s: Seq<char>, i: int) -> int
    decreases s.len() - i,
{
    if i < 0 || i >= s.len() || !is_white(s[i]) {
        i
    } else {
        white_end(s, i + 1)
    }
}

/// The heading text after a number ending at `i`: an optional `.`, at least one white
/// space, then the text. The white space run is taken whole when text follows it; at
/// the very end of the line its last character is the text, if the run has two.
pub open spec fn heading_tail(s: Seq<char>, i: int) -> Option<Seq<char>> {
    let j = if 0 <= i < s.len() && s[i] == '.' { i + 1 } else { i };
    let w = white_end(s, j);
    if w == j {
        None
    } else if w < s.len() {
        Some(s.subrange(w, s.len() as int))
    } else if w - j >= 2 {
        Some(s.subrange(w - 1, s.len() as int))
    } else {
        None
    }
}

/// `.` and a run of digits at `i`: where the run ends, if there is one.
pub open spec fn dot_number(s: Seq<char>, i: int) -> Option<int> {
    if 0 <= i && i + 1 < s.len() && s[i] == '.' && is_digit(s[i + 1]) {
        Some(digits_end(s, i + 1))
    } else {
        None
    }
}

/// The kind of an outline line, by the first pattern it fits: `N text`, then
/// `N.N text`, then `N.N.N text` (each number may be followed by a `.`).
pub open spec fn line_kind(s: Seq<char>) -> (int, Option<Seq<char>>) {
    if s.len() == 0 || !is_digit(s[0]) {
        (0, None)
    } else {
        let d = digits_end(s, 0);
        if heading_tail(s, d) is Some {
            (1, heading_tail(s, d))
        } else {
            match dot_number(s, d) {
                Some(e) => if heading_tail(s, e) is Some {
                    (2, heading_tail(s, e))
                } else {
                    match dot_number(s, e) {
                        Some(f) => if heading_tail(s, f) is Some { (3, None) } else { (0, None) },
                        None => (0, None),
                    }
                },
                None => (0, None),
            }
        }
    }
}

fn digits_end_exec(s: &Vec<char>, i: usize) -> (e: usize)
    requires
        i <= s.len(),
    ensures
        e as int == digits_end(s@, i as int),
        i <= e <= s.len(),
{
    let mut e = i;
    while e < s.len() && '0' <= s[e] && s[e] <= '9'
        invariant
            i <= e <= s.len(),
            digits_end(s@, i as int) == digits_end(s@, e as int),
        decreases s.len() - e,
    {
        e = e + 1;
    }
    e
}

fn white_end_exec(s: &Vec<char>, i: usize) -> (e: usize)
    requires
        i <= s.len(),
    ensures
        e as int == white_end(s@, i as int),
        i <= e <= s.len(),
{
    let mut e = i;
    while e < s.len() && is_white_exec(s[e])
        invariant
            i <= e <= s.len(),
            white_end(s@, i as int) == white_end(s@, e as int),
        decreases s.len() - e,
    {
        e = e + 1;
    }
    e
}

fn heading_tail_exec(s: &Vec<char>, i: usize) -> (r: Option<Vec<char>>)
    requires
        i <= s.len(),
    ensures
        r matches Some(t) ==> heading_tail(s@, i as int) == Some(t@),
        r is None ==> heading_tail(s@, i as int) is None,
{
    let j = if i < s.len() && s[i] == '.' { i + 1 } else { i };
    let w = white_end_exec(s, j);
    if w == j {
        None
    } else if w < s.len() {
        let mut t: Vec<char> = Vec::new();
        extend_range(&mut t, s, w, s.len());
        Some(t)
    } else if w - j >= 2 {
        let mut t: Vec<char> = Vec::new();
        extend_range(&mut t, s, w - 1, s.len());
        Some(t)
    } else {
        None
    }
}

fn dot_number_exec(s: &Vec<char>, i: usize) -> (r: Option<usize>)
    requires
        i <= s.len(),
    ensures
        r matches Some(e) ==> dot_number(s@, i as int) == Some(e as int) && e <= s.len(),
        r is None ==> dot_number(s@, i as int) is None,
{
    if i < s.len() && s.len() - i > 1 && s[i] == '.' && '0' <= s[i + 1] && s[i + 1] <= '9' {
        Some(digits_end_exec(s, i + 1))
    } else {
        None
    }
}

/// The kind of an outline line.
pub fn classify_line(line: &str) -> (r: LineKind)
    ensures
        match r {
            LineKind::Level1(t) => line_kind(line@) == (1int, Some(t@)),
            LineKind::Level2(t) => line_kind(line@) == (2int, Some(t@)),
            LineKind::Level3 => line_kind(line@) == (3int, None::<Seq<char>>),
            LineKind::Body => line_kind(line@) == (0int, None::<Seq<char>>),
        },
{
    let s = chars_of(line);
    if s.len() == 0 || !('0' <= s[0] && s[0] <= '9') {
        return LineKind::Body;
    }
    let d = digits_end_exec(&s, 0);
    if let Some(t) = heading_tail_exec(&s, d) {
        return LineKind::Level1(string_of(&t));
    }
    match dot_number_exec(&s, d) {
        Some(e) => {
            if let Some(t) = heading_tail_exec(&s, e) {
                return LineKind::Level2(string_of(&t));
            }
            match dot_number_exec(&s, e) {
                Some(f) => {
                    if heading_tail_exec(&s, f).is_some() {
                        LineKind::Level3
                    } else {
                        LineKind::Body
                    }
                },
                None => LineKind::Body,
            }
        },
        None => LineKind::Body,
    }
}

} // verus!
