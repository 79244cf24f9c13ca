//! Line and substring operations of the text tools: cutting lines at a delimiter,
//! splitting and replacing by a pattern, and picking the summary after a marker.

use vstd::prelude::*;
use crate::text::{chars_of, concat, extend_chars, extend_range, joined, join_strings, string_of, string_views};

verus! {

/// `d` occurs in `s` at position `i`.
pub open spec fn occurs_at(s: Seq<char>, d: Seq<char>, i: int) -> bool {
    0 <= i && i + d.len() <= s.len() && s.subrange(i, i + d.len()) == d
}

/// `s` contains `d`.
pub open spec fn contains_text(s: Seq<char>, d: Seq<char>) -> bool {
    exists|i: int| #[trigger] occurs_at(s, d, i)
}

/// The last position at or before `i` where `d` occurs in `s`, if any.
pub open spec fn last_occurrence_upto(s: Seq<char>, d: Seq<char>, i: int) -> Option<int>
    decreases i + 1,
{
    if i < 0 {
        None
    } else if occurs_at(s, d, i) {
        Some(i)
    } else {
        last_occurrence_upto(s, d, i - 1)
    }
}

/// The last position where `d` occurs in `s`, as `str::rfind` gives it.
pub open spec fn last_occurrence(s: Seq<char>, d: Seq<char>) -> Option<int> {
    last_occurrence_upto(s, d, s.len() - d.len())
}

proof fn lemma_last_occurrence_upto(s: Seq<char>, d: Seq<char>, i: int)
    ensures
        last_occurrence_upto(s, d, i) matches Some(p) ==> 0 <= p <= i && occurs_at(s, d, p),
        last_occurrence_upto(s, d, i) is None ==> forall|q: int| 0 <= q <= i ==> !occurs_at(s, d, q),
    decreases i + 1,
{
    if i >= 0 && !occurs_at(s, d, i) {
        lemma_last_occurrence_upto(s, d, i - 1);
    }
}

fn occurs_at_exec(s: &[char], d: &[char], i: usize) -> (b: bool)
    ensures
        b == occurs_at(s@, d@, i as int),
{
    if i > s.len() || s.len() - i < d.len() {
        return false;
    }
    let mut k: usize = 0;
    while k < d.len()
        invariant
            i + d.len() <= s.len(),
            k <= d.len(),
            forall|q: int| 0 <= q < k ==> s@[i + q] == d@[q],
        decreases d.len() - k,
    {
        if s[i + k] != d[k] {
            assert(s@.subrange(i as int, i + d.len())[k as int] != d@[k as int]);
            return false;
        }
        k = k + 1;
    }
    assert(s@.subrange(i as int, i + d.len()) =~= d@);
    true
}

fn last_occurrence_exec(s: &[char], d: &[char]) -> (r: Option<usize>)
    ensures
        r matches Some(p) ==> last_occurrence(s@, d@) == Some(p as int),
        r is None ==> last_occurrence(s@, d@) is None,
{
    if d.len() > s.len() {
        assert(last_occurrence_upto(s@, d@, s.len() - d.len()) is None);
        return None;
    }
    let mut i: usize = s.len() - d.len();
    loop
        invariant
            i <= s.len() - d.len(),
            last_occurrence(s@, d@) == last_occurrence_upto(s@, d@, i as int),
        decreases i,
    {
        if occurs_at_exec(s, d, i) {
            return Some(i);
        }
        if i == 0 {
            assert(last_occurrence_upto(s@, d@, -1) is None);
            return None;
        }
        i = i - 1;
    }
}

/// A line cut at the last occurrence of the delimiter: the text before it when that is
/// kept, nothing otherwise; a line without the delimiter stays whole.
pub open spec fn stripped_line(line: Seq<char>, d: Seq<char>, keep: bool) -> Option<Seq<char>> {
    match last_occurrence(line, d) {
        Some(p) => if keep { Some(line.take(p)) } else { None },
        None => Some(line),
    }
}

/// The lines written for `lines`: each line cut at the last occurrence of the
/// delimiter, lines that come to nothing left out.
pub open spec fn stripped_lines(lines: Seq<Seq<char>>, d: Seq<char>, keep: bool) -> Seq<Seq<char>>
    decreases lines.len(),
{
    if lines.len() == 0 {
        Seq::<Seq<char>>::empty()
    } else {
        let r = stripped_lines(lines.drop_last(), d, keep);
        match stripped_line(lines.last(), d, keep) {
            Some(l) => r.push(l),
            None => r,
        }
    }
}

/// Cuts each line at the last occurrence of `delimiter`, keeping the text before it
/// when `keep_before_delimiter` is set and dropping the line otherwise.
pub fn strip_lines(lines: &Vec<String>, delimiter: &str, keep_before_delimiter: bool) -> (r: Vec<String>)
    ensures
        string_views(r@) == stripped_lines(string_views(lines@), delimiter@, keep_before_delimiter),
{
    let ghost lv = string_views(lines@);
    let d = chars_of(delimiter);
    let mut r: Vec<String> = Vec::new();
    let mut k: usize = 0;
    assert(string_views(r@) =~= stripped_lines(lv.take(0), delimiter@, keep_before_delimiter));
    while k < lines.len()
        invariant
            k <= lines.len(),
            lv == string_views(lines@),
            d@ == delimiter@,
            string_views(r@) == stripped_lines(lv.take(k as int), delimiter@, keep_before_delimiter),
        decreases lines.len() - k,
    {
        assert(lv.take(k as int + 1).drop_last() =~= lv.take(k as int));
        assert(lv.take(k as int + 1).last() == lines@[k as int]@);
        let l = chars_of(lines[k].as_str());
        match last_occurrence_exec(&l, &d) {
            Some(p) => {
                proof {
                    lemma_last_occurrence_upto(l@, d@, l@.len() - d@.len());
                }
                if keep_before_delimiter {
                    let mut v: Vec<char> = Vec::new();
                    extend_range(&mut v, &l, 0, p);
                    assert(v@ =~= l@.take(p as int));
                    r.push(string_of(&v));
                    assert(string_views(r@) =~= stripped_lines(lv.take(k as int + 1), delimiter@, keep_before_delimiter));
                }
            },
            None => {
                r.push(lines[k].clone());
                assert(string_views(r@) =~= stripped_lines(lv.take(k as int + 1), delimiter@, keep_before_delimiter));
            },
        }
        k = k + 1;
    }
    assert(lv.take(lines.len() as int) =~= lv);
    r
}

/// The pieces of `s` between the occurrences of the non-empty pattern `d`, found
/// from left to right without overlap, as `str::split` gives them.
pub open spec fn split_text(s: Seq<char>, d: Seq<char>) -> Seq<Seq<char>>
    recommends
        d.len() > 0,
    decreases s.len(),
{
    if d.len() == 0 || s.len() == 0 {
        seq![Seq::<char>::empty()]
    } else if occurs_at(s, d, 0) {
        seq![Seq::<char>::empty()] + split_text(s.skip(d.len() as int), d)
    } else {
        let r = split_text(s.drop_first(), d);
        r.update(0, seq![s[0]] + r[0])
    }
}

proof fn lemma_split_text_len(s: Seq<char>, d: Seq<char>)
    ensures
        split_text(s, d).len() >= 1,
    decreases s.len(),
{
    if d.len() > 0 && s.len() > 0 {
        if occurs_at(s, d, 0) {
            lemma_split_text_len(s.skip(d.len() as int), d);
        } else {
            lemma_split_text_len(s.drop_first(), d);
        }
    }
}

/// The pieces of `s` between the occurrences of `d`.
pub fn split_by(s: &[char], d: &[char]) -> (r: Vec<Vec<char>>)
    requires
        d.len() > 0,
    ensures
        crate::text::views(r@) == split_text(s@, d@),
{
    let mut done: Vec<Vec<char>> = Vec::new();
    let mut cur: Vec<char> = Vec::new();
    let mut i: usize = 0;
    proof {
        lemma_split_text_len(s@, d@);
    }
    assert(s@.skip(0) =~= s@);
    assert(split_text(s@, d@) =~= crate::text::views(done@) + seq![cur@ + split_text(s@.skip(0), d@)[0]]
        + split_text(s@.skip(0), d@).drop_first());
    while i < s.len()
        invariant
            d.len() > 0,
            i <= s.len(),
            split_text(s@, d@) == crate::text::views(done@) + seq![cur@ + split_text(s@.skip(i as int), d@)[0]]
                + split_text(s@.skip(i as int), d@).drop_first(),
        decreases s.len() - i,
    {
        let ghost rest = s@.skip(i as int);
        proof {
            lemma_split_text_len(rest, d@);
        }
        if occurs_at_exec(s, d, i) {
            assert(occurs_at(rest, d@, 0)) by {
                assert(rest.subrange(0, d@.len() as int) =~= s@.subrange(i as int, i + d@.len()));
            }
            assert(rest.skip(d@.len() as int) =~= s@.skip(i + d@.len()));
            let ghost t2 = split_text(s@.skip(i + d@.len()), d@);
            proof {
                lemma_split_text_len(s@.skip(i + d@.len()), d@);
            }
            assert(split_text(rest, d@) == seq![Seq::<char>::empty()] + t2);
            let ghost before = crate::text::views(done@);
            let ghost old_cur = cur@;
            done.push(cur);
            cur = Vec::new();
            assert(crate::text::views(done@) =~= before.push(old_cur));
            i = i + d.len();
            assert(t2 =~= seq![t2[0]] + t2.drop_first());
            assert(old_cur + Seq::<char>::empty() =~= old_cur);
            assert(split_text(s@, d@) =~= crate::text::views(done@) + seq![cur@ + split_text(s@.skip(i as int), d@)[0]]
                + split_text(s@.skip(i as int), d@).drop_first());
        } else {
            assert(!occurs_at(rest, d@, 0)) by {
                if occurs_at(rest, d@, 0) {
                    assert(rest.subrange(0, d@.len() as int) =~= s@.subrange(i as int, i + d@.len()));
                }
            }
            assert(rest.drop_first() =~= s@.skip(i as int + 1));
            proof {
                lemma_split_text_len(s@.skip(i as int + 1), d@);
            }
            let ghost r1 = split_text(s@.skip(i as int + 1), d@);
            assert(rest[0] == s@[i as int]);
            assert(split_text(rest, d@) == r1.update(0, seq![rest[0]] + r1[0]));
            let ghost old_cur = cur@;
            cur.push(s[i]);
            assert(old_cur + (seq![s@[i as int]] + r1[0]) =~= cur@ + r1[0]);
            assert(split_text(rest, d@).drop_first() =~= r1.drop_first());
            i = i + 1;
            assert(split_text(s@, d@) =~= crate::text::views(done@) + seq![cur@ + split_text(s@.skip(i as int), d@)[0]]
                + split_text(s@.skip(i as int), d@).drop_first());
        }
    }
    assert(s@.skip(i as int) =~= Seq::<char>::empty());
    done.push(cur);
    assert(crate::text::views(done@) =~= split_text(s@, d@));
    done
}

/// `s` with every occurrence of the non-empty pattern `from`, found from left to
/// right without overlap, replaced by `to`, as `str::replace` does it.
pub open spec fn replaced(s: Seq<char>, from: Seq<char>, to: Seq<char>) -> Seq<char>
    recommends
        from.len() > 0,
    decreases s.len(),
{
    if from.len() == 0 || s.len() == 0 {
        s
    } else if occurs_at(s, from, 0) {
        to + replaced(s.skip(from.len() as int), from, to)
    } else {
        seq![s[0]] + replaced(s.drop_first(), from, to)
    }
}

/// `s` with every occurrence of `from` replaced by `to`.
pub fn replace_all(s: &[char], from: &[char], to: &[char]) -> (r: Vec<char>)
    requires
        from.len() > 0,
    ensures
        r@ == replaced(s@, from@, to@),
{
    let mut out: Vec<char> = Vec::new();
    let mut i: usize = 0;
    assert(s@.skip(0) =~= s@);
    while i < s.len()
        invariant
            from.len() > 0,
            i <= s.len(),
            replaced(s@, from@, to@) == out@ + replaced(s@.skip(i as int), from@, to@),
        decreases s.len() - i,
    {
        let ghost rest = s@.skip(i as int);
        if occurs_at_exec(s, from, i) {
            assert(occurs_at(rest, from@, 0)) by {
                assert(rest.subrange(0, from@.len() as int) =~= s@.subrange(i as int, i + from@.len()));
            }
            assert(rest.skip(from@.len() as int) =~= s@.skip(i + from@.len()));
            extend_chars(&mut out, to);
            i = i + from.len();
        } else {
            assert(!occurs_at(rest, from@, 0)) by {
                if occurs_at(rest, from@, 0) {
                    assert(rest.subrange(0, from@.len() as int) =~= s@.subrange(i as int, i + from@.len()));
                }
            }
            assert(rest.drop_first() =~= s@.skip(i as int + 1));
            out.push(s[i]);
            i = i + 1;
        }
    }
    assert(s@.skip(i as int) =~= Seq::<char>::empty());
    out
}

/// Markdown with heading markers, bold markers or list dashes taken out, as asked:
/// `### `, `## ` and `# ` in that order; `**`; `- `.
pub open spec fn pruned(content: Seq<char>, headings: bool, stars: bool, hyphens: bool) -> Seq<char> {
    let a = if headings {
        replaced(replaced(replaced(content, "### "@, ""@), "## "@, ""@), "# "@, ""@)
    } else {
        content
    };
    let b = if stars { replaced(a, "**"@, ""@) } else { a };
    if hyphens { replaced(b, "- "@, ""@) } else { b }
}

/// The Markdown text with the chosen markers removed.
pub fn prune_markdown(content: &str, remove_headings: bool, remove_stars: bool, remove_hyphens: bool) -> (r: String)
    ensures
        r@ == pruned(content@, remove_headings, remove_stars, remove_hyphens),
{
    let empty: Vec<char> = Vec::new();
    let mut c = chars_of(content);
    proof {
        reveal_strlit("### ");
        reveal_strlit("## ");
        reveal_strlit("# ");
        reveal_strlit("**");
        reveal_strlit("- ");
        reveal_strlit("");
    }
    assert(empty@ =~= ""@);
    if remove_headings {
        c = replace_all(&c, &chars_of("### "), &empty);
        c = replace_all(&c, &chars_of("## "), &empty);
        c = replace_all(&c, &chars_of("# "), &empty);
    }
    if remove_stars {
        c = replace_all(&c, &chars_of("**"), &empty);
    }
    if remove_hyphens {
        c = replace_all(&c, &chars_of("- "), &empty);
    }
    string_of(&c)
}

/// Why a file gives no summary.
#[derive(Clone, Copy, Debug, PartialEq, Eq, Structural)]
pub enum SummaryIssue {
    /// The marker does not occur.
    NoDelimiter,
    /// Nothing follows the last marker.
    EmptyLastSegment,
}

/// The concatenation of the lines of a file.
pub open spec fn concatenated(lines: Seq<Seq<char>>) -> Seq<char>
    decreases lines.len(),
{
    if lines.len() == 0 {
        Seq::<char>::empty()
    } else {
        concatenated(lines.drop_last()) + lines.last()
    }
}

/// The pieces of a text split at a marker, as `str::split` gives them; an empty
/// marker splits before and after every character.
pub open spec fn marker_pieces(s: Seq<char>, d: Seq<char>) -> Seq<Seq<char>> {
    if d.len() == 0 {
        seq![Seq::<char>::empty()] + s.map_values(|c: char| seq![c]) + seq![Seq::<char>::empty()]
    } else {
        split_text(s, d)
    }
}

/// The summary of a file: the text after the last marker once its lines are joined
/// together.
pub open spec fn summary_of(lines: Seq<Seq<char>>, d: Seq<char>) -> Result<Seq<char>, SummaryIssue> {
    let pieces = marker_pieces(concatenated(lines), d);
    if pieces.len() < 2 {
        Err(SummaryIssue::NoDelimiter)
    } else if pieces.last().len() == 0 {
        Err(SummaryIssue::EmptyLastSegment)
    } else {
        Ok(pieces.last())
    }
}

/// The summary that follows the last `delimiter` in the lines of a file.
pub fn summary_segment(lines: &Vec<String>, delimiter: &str) -> (r: Result<String, SummaryIssue>)
    ensures
        match summary_of(string_views(lines@), delimiter@) {
            Ok(t) => r matches Ok(x) && x@ == t,
            Err(e) => r == Err::<String, SummaryIssue>(e),
        },
{
    let ghost lv = string_views(lines@);
    let mut all: Vec<char> = Vec::new();
    let mut k: usize = 0;
    while k < lines.len()
        invariant
            k <= lines.len(),
            lv == string_views(lines@),
            all@ == concatenated(lv.take(k as int)),
        decreases lines.len() - k,
    {
        assert(lv.take(k as int + 1).drop_last() =~= lv.take(k as int));
        extend_chars(&mut all, &chars_of(lines[k].as_str()));
        k = k + 1;
    }
    assert(lv.take(lines.len() as int) =~= lv);
    let d = chars_of(delimiter);
    if d.len() == 0 {
        return Err(SummaryIssue::EmptyLastSegment);
    }
    let pieces = split_by(&all, &d);
    if pieces.len() < 2 {
        return Err(SummaryIssue::NoDelimiter);
    }
    let last = &pieces[pieces.len() - 1];
    assert(crate::text::views(pieces@)[pieces.len() - 1] == last@);
    if last.len() == 0 {
        return Err(SummaryIssue::EmptyLastSegment);
    }
    Ok(string_of(last))
}

/// The summaries of all files joined with `;`.
pub fn join_summaries(segments: &Vec<String>) -> (r: String)
    ensures
        r@ == joined(string_views(segments@), ";"@),
{
    join_strings(segments.as_slice(), ";")
}

/// A directory is left out when its name contains the exclusion pattern.
pub fn is_excluded(name: &str, pattern: Option<&str>) -> (b: bool)
    ensures
        b == (pattern matches Some(p) && contains_text(name@, p@)),
{
    match pattern {
        None => false,
        Some(p) => {
            let n = chars_of(name);
            let pc = chars_of(p);
            if pc.len() > n.len() {
                assert forall|q: int| !occurs_at(n@, pc@, q) by {}
                return false;
            }
            let m: usize = n.len() - pc.len();
            let mut i: usize = 0;
            loop
                invariant
                    i <= m,
                    pattern == Some(p),
                    m == n.len() - pc.len(),
                    n@ == name@,
                    pc@ == p@,
                    forall|q: int| 0 <= q < i ==> !occurs_at(n@, pc@, q),
                decreases m - i,
            {
                if occurs_at_exec(&n, &pc, i) {
                    assert(occurs_at(name@, p@, i as int));
                    return true;
                }
                if i == m {
                    assert forall|q: int| !occurs_at(n@, pc@, q) by {
                        if 0 <= q <= i {
                        }
                    }
                    return false;
                }
                i = i + 1;
            }
        },
    }
}

/// What a dry run prints for a directory.
pub fn dry_run_line(dir: &str, command: &Vec<String>) -> (s: String)
    ensures
        s@ == "(Dry run) Will execute in "@ + dir@ + ": "@ + joined(string_views(command@), " "@),
{
    let a = concat("(Dry run) Will execute in ", dir);
    let b = concat(a.as_str(), ": ");
    let c = join_strings(command.as_slice(), " ");
    concat(b.as_str(), c.as_str())
}

} // verus!
