//! Image references in Markdown, `![alt](path)`: finding them, numbering the local
//! image files, and rewriting the references to the new names.

use vstd::prelude::*;
use crate::collision::{lemma_listed_count, listed, listed_exec};
use crate::paths::{extension, extension_of};
use vstd::set_lib::{lemma_int_range, lemma_map_size, set_int_range};
use crate::text::{lemma_decimal_same_suffix, chars_of, decimal, equal_chars, extend_chars, extend_range, push_decimal, starts_with, starts_with_chars, string_of, string_views};

verus! {

/// The index of the first `)` or line break in `s` at or after `k`, or `s.len()`.
pub open spec fn path_close(s: Seq<char>, k: int) -> int
    decreases s.len() - k,
{
    if k < 0 || k >= s.len() {
        s.len() as int
    } else if s[k] == ')' || s[k] == '\n' {
        k
    } else {
        path_close(s, k + 1)
    }
}

/// Where the alternative text of an image reference ends and where its path ends,
/// looking for `](` from `k` on: the shortest alternative text for which a `)` ends
/// the path before any line break; neither part may hold a line break.
pub open spec fn image_end(s: Seq<char>, k: int) -> Option<(int, int)>
    decreases s.len() - k,
{
    if k < 0 || k + 2 > s.len() {
        None
    } else if s[k] == ']' && s[k + 1] == '(' && path_close(s, k + 2) < s.len() && s[path_close(s, k + 2)] == ')' {
        Some((k, path_close(s, k + 2)))
    } else if s[k] == '\n' {
        None
    } else {
        image_end(s, k + 1)
    }
}

/// The image reference starting at `i`, if one does: `![`, then as `image_end` says.
pub open spec fn image_at(s: Seq<char>, i: int) -> Option<(int, int)> {
    if 0 <= i && i + 2 <= s.len() && s[i] == '!' && s[i + 1] == '[' {
        image_end(s, i + 2)
    } else {
        None
    }
}

/// The image references of `s` from `pos` on, leftmost first, as (start, end of
/// alternative text, index of the closing `)`).
pub open spec fn images_from(s: Seq<char>, pos: int) -> Seq<(int, int, int)>
    decreases s.len() - pos,
{
    if pos < 0 || pos >= s.len() {
        Seq::<(int, int, int)>::empty()
    } else {
        match image_at(s, pos) {
            Some((k, j)) => if pos <= j < s.len() {
                seq![(pos, k, j)] + images_from(s, j + 1)
            } else {
                Seq::<(int, int, int)>::empty()
            },
            None => images_from(s, pos + 1),
        }
    }
}

proof fn lemma_path_close(s: Seq<char>, k: int)
    requires
        0 <= k <= s.len(),
    ensures
        k <= path_close(s, k) <= s.len(),
    decreases s.len() - k,
{
    if k < s.len() && s[k] != ')' && s[k] != '\n' {
        lemma_path_close(s, k + 1);
    }
}

proof fn lemma_image_end(s: Seq<char>, k: int)
    requires
        0 <= k,
    ensures
        image_end(s, k) matches Some((a, j)) ==> k <= a && a + 2 <= j < s.len() && s[a] == ']' && s[a + 1] == '('
            && s[j] == ')',
    decreases s.len() - k,
{
    if k + 2 <= s.len() {
        lemma_path_close(s, k + 2);
        if !(s[k] == ']' && s[k + 1] == '(' && path_close(s, k + 2) < s.len() && s[path_close(s, k + 2)] == ')') && s[k] != '\n' {
            lemma_image_end(s, k + 1);
        }
    }
}

fn path_close_exec(s: &Vec<char>, k: usize) -> (j: usize)
    requires
        k <= s.len(),
    ensures
        j as int == path_close(s@, k as int),
{
    let mut j = k;
    while j < s.len() && s[j] != ')' && s[j] != '\n'
        invariant
            k <= j <= s.len(),
            path_close(s@, k as int) == path_close(s@, j as int),
        decreases s.len() - j,
    {
        j = j + 1;
    }
    j
}

fn image_at_exec(s: &Vec<char>, i: usize) -> (r: Option<(usize, usize)>)
    requires
        i < s.len(),
    ensures
        r matches Some((a, j)) ==> image_at(s@, i as int) == Some((a as int, j as int)),
        r is None ==> image_at(s@, i as int) is None,
{
    if s.len() - i < 2 || s[i] != '!' || s[i + 1] != '[' {
        return None;
    }
    let mut k: usize = i + 2;
    assert(image_at(s@, i as int) == image_end(s@, i + 2));
    while k < s.len() && s.len() - k >= 2
        invariant
            i + 2 <= k <= s.len(),
            image_at(s@, i as int) == image_end(s@, i + 2),
            image_end(s@, i + 2) == image_end(s@, k as int),
        decreases s.len() - k,
    {
        if s[k] == ']' && s[k + 1] == '(' {
            proof {
                lemma_path_close(s@, k + 2);
            }
            let j = path_close_exec(s, k + 2);
            if j < s.len() && s[j] == ')' {
                assert(image_end(s@, k as int) == Some((k as int, j as int)));
                return Some((k, j));
            }
        }
        if s[k] == '\n' {
            return None;
        }
        k = k + 1;
    }
    assert(image_end(s@, k as int) is None);
    None
}

/// The image references of a Markdown text, as (start, end of alternative text, index
/// of the closing `)`).
fn find_images(s: &Vec<char>) -> (r: Vec<(usize, usize, usize)>)
    ensures
        r@.map_values(|m: (usize, usize, usize)| (m.0 as int, m.1 as int, m.2 as int)) == images_from(s@, 0),
        forall|q: int| 0 <= q < r.len() ==> (#[trigger] r@[q]).0 + 2 <= r@[q].1 && r@[q].1 + 2 <= r@[q].2 < s.len(),
        forall|q: int| 0 <= q < r.len() - 1 ==> (#[trigger] r@[q]).2 < r@[q + 1].0,
{
    let mut r: Vec<(usize, usize, usize)> = Vec::new();
    let mut pos: usize = 0;
    while pos < s.len()
        invariant
            pos <= s.len(),
            images_from(s@, 0) == r@.map_values(|m: (usize, usize, usize)| (m.0 as int, m.1 as int, m.2 as int)) + images_from(s@, pos as int),
            forall|q: int| 0 <= q < r.len() ==> (#[trigger] r@[q]).0 + 2 <= r@[q].1 && r@[q].1 + 2 <= r@[q].2 < s.len(),
            forall|q: int| 0 <= q < r.len() - 1 ==> (#[trigger] r@[q]).2 < r@[q + 1].0,
            r.len() > 0 ==> r@[r.len() - 1].2 < pos,
        decreases s.len() - pos,
    {
        let ghost before = r@.map_values(|m: (usize, usize, usize)| (m.0 as int, m.1 as int, m.2 as int));
        match image_at_exec(s, pos) {
            Some((k, j)) => {
                proof {
                    lemma_image_end(s@, pos + 2);
                }
                r.push((pos, k, j));
                assert(r@.map_values(|m: (usize, usize, usize)| (m.0 as int, m.1 as int, m.2 as int)) =~= before.push((pos as int, k as int, j as int)));
                assert(before + images_from(s@, pos as int) =~= before.push((pos as int, k as int, j as int)) + images_from(s@, j + 1));
                pos = j + 1;
            },
            None => {
                pos = pos + 1;
            },
        }
    }
    assert(images_from(s@, pos as int) =~= Seq::<(int, int, int)>::empty());
    assert(r@.map_values(|m: (usize, usize, usize)| (m.0 as int, m.1 as int, m.2 as int)) + Seq::<(int, int, int)>::empty()
        =~= r@.map_values(|m: (usize, usize, usize)| (m.0 as int, m.1 as int, m.2 as int)));
    r
}

/// The paths of the image references of a Markdown text, in order.
pub open spec fn image_paths(s: Seq<char>) -> Seq<Seq<char>> {
    images_from(s, 0).map_values(|m: (int, int, int)| s.subrange(m.1 + 2, m.2))
}

/// The paths of the images a Markdown text refers to, in order.
pub fn process_markdown_images(md_content: &str) -> (r: Vec<String>)
    ensures
        string_views(r@) == image_paths(md_content@),
{
    let s = chars_of(md_content);
    let ms = find_images(&s);
    let ghost mv = ms@.map_values(|m: (usize, usize, usize)| (m.0 as int, m.1 as int, m.2 as int));
    let mut r: Vec<String> = Vec::new();
    let mut k: usize = 0;
    while k < ms.len()
        invariant
            k <= ms.len(),
            s@ == md_content@,
            mv == ms@.map_values(|m: (usize, usize, usize)| (m.0 as int, m.1 as int, m.2 as int)),
            forall|q: int| 0 <= q < ms.len() ==> (#[trigger] ms@[q]).0 + 2 <= ms@[q].1 && ms@[q].1 + 2 <= ms@[q].2 < s.len(),
            r.len() == k,
            string_views(r@) == mv.take(k as int).map_values(|m: (int, int, int)| s@.subrange(m.1 + 2, m.2)),
        decreases ms.len() - k,
    {
        let (_a, b, c) = ms[k];
        let mut v: Vec<char> = Vec::new();
        extend_range(&mut v, &s, b + 2, c);
        let ghost before = string_views(r@);
        r.push(string_of(&v));
        let ghost want = mv.take(k as int + 1).map_values(|m: (int, int, int)| s@.subrange(m.1 + 2, m.2));
        assert(mv[k as int] == (ms@[k as int].0 as int, b as int, c as int));
        assert(want[k as int] == v@);
        assert forall|q: int| 0 <= q < k implies #[trigger] string_views(r@)[q] == want[q] by {
            assert(string_views(r@)[q] == before[q]);
        }
        assert(string_views(r@) =~= want);
        k = k + 1;
    }
    assert(mv.take(ms.len() as int) =~= mv);
    r
}

/// The reference points into the `images` directory: it starts with `images/`.
pub fn is_local_image(path: &str) -> (b: bool)
    ensures
        b == starts_with(path@, "images/"@),
{
    starts_with_chars(&chars_of(path), &chars_of("images/"))
}

/// The new file name of an image: its number, a dot, and its extension (empty when it
/// has none).
pub open spec fn numbered_file(n: u32, ext: Seq<char>) -> Seq<char> {
    decimal(n as nat) + "."@ + ext
}

/// The new file name of image number `n` with extension `ext`.
pub fn numbered_image_name(n: u32, ext: &str) -> (s: String)
    ensures
        s@ == numbered_file(n, ext@),
{
    let mut v: Vec<char> = Vec::new();
    push_decimal(&mut v, n as u64);
    v.push('.');
    extend_chars(&mut v, &chars_of(ext));
    proof {
        reveal_strlit(".");
    }
    assert(v@ =~= numbered_file(n, ext@));
    string_of(&v)
}

/// The extension used for a renamed image: the file's extension, or empty text.
pub fn image_extension(path: &str) -> (s: String)
    ensures
        s@ == match extension(path@) {
            Some(e) => e,
            None => Seq::<char>::empty(),
        },
{
    match extension_of(&chars_of(path)) {
        Some(e) => string_of(&e),
        None => String::new(),
    }
}

/// Different numbers give different file names.
proof fn lemma_numbered_file_injective(a: u32, b: u32, ext: Seq<char>)
    requires
        numbered_file(a, ext) == numbered_file(b, ext),
    ensures
        a == b,
{
    assert(numbered_file(a, ext) =~= decimal(a as nat) + ("."@ + ext));
    assert(numbered_file(b, ext) =~= decimal(b as nat) + ("."@ + ext));
    lemma_decimal_same_suffix(a as nat, b as nat, "."@ + ext);
}

/// Among `taken.len() + 1` consecutive numbers from `start` (none past `u32::MAX`),
/// one has a file name that `taken` does not hold.
proof fn lemma_some_number_free(start: u32, ext: Seq<char>, taken: Seq<String>)
    requires
        start + taken.len() <= u32::MAX,
    ensures
        exists|m: u32| start <= m <= start + taken.len() && !listed(taken, #[trigger] numbered_file(m, ext)),
{
    if forall|m: u32| start <= m <= start + taken.len() ==> listed(taken, #[trigger] numbered_file(m, ext)) {
        let lo = start as int;
        let hi = start + taken.len() + 1;
        let range = set_int_range(lo, hi);
        lemma_int_range(lo, hi);
        let f = |i: int| numbered_file(i as u32, ext);
        assert forall|x: int, y: int| range.contains(x) && range.contains(y) && #[trigger] f(x) == #[trigger] f(y)
            implies x == y by {
            lemma_numbered_file_injective(x as u32, y as u32, ext);
        }
        let names = range.map(f);
        lemma_map_size(range, names, f);
        assert forall|x: Seq<char>| #[trigger] names.contains(x) implies listed(taken, x) by {
            let i = choose|i: int| range.contains(i) && f(i) == x;
            assert(listed(taken, numbered_file(i as u32, ext)));
        }
        lemma_listed_count(taken, names);
    }
}

/// The first number from `start` on whose file name is not among `taken`, trying at
/// most `taken.len()` numbers past `start` (and none past `u32::MAX`); none when all
/// those are taken.
pub fn free_image_number(start: u32, ext: &str, taken: &Vec<String>) -> (r: Option<(u32, String)>)
    ensures
        r matches Some((n, name)) ==> start <= n && name@ == numbered_file(n, ext@) && !listed(taken@, name@)
            && forall|m: u32| start <= m < n ==> listed(taken@, #[trigger] numbered_file(m, ext@)),
        r is None ==> forall|m: u32|
            start <= m && m <= start + taken.len() ==> listed(taken@, #[trigger] numbered_file(m, ext@)),
        start + taken.len() <= u32::MAX ==> r is Some,
{
    proof {
        if start + taken.len() <= u32::MAX {
            lemma_some_number_free(start, ext@, taken@);
        }
    }
    let mut n: u32 = start;
    let mut tries: usize = 0;
    loop
        invariant
            start <= n,
            n == start + tries,
            tries <= taken.len(),
            forall|m: u32| start <= m < n ==> listed(taken@, #[trigger] numbered_file(m, ext@)),
            start + taken.len() <= u32::MAX ==> exists|m: u32|
                start <= m <= start + taken.len() && !listed(taken@, #[trigger] numbered_file(m, ext@)),
        decreases taken.len() - tries,
    {
        let name = numbered_image_name(n, ext);
        let nc = chars_of(name.as_str());
        if !listed_exec(taken, &nc) {
            return Some((n, name));
        }
        if tries >= taken.len() || n == u32::MAX {
            return None;
        }
        tries = tries + 1;
        n = n + 1;
    }
}

/// The new path of an image reference, if it was renamed: the last renaming recorded
/// for it.
pub open spec fn renamed_to(map: Seq<(Seq<char>, Seq<char>)>, path: Seq<char>) -> Option<Seq<char>>
    decreases map.len(),
{
    if map.len() == 0 {
        None
    } else if map.last().0 == path {
        Some(map.last().1)
    } else {
        renamed_to(map.drop_last(), path)
    }
}

fn renamed_to_exec(map: &Vec<(String, String)>, path: &[char]) -> (r: Option<String>)
    ensures
        r matches Some(t) ==> renamed_to(map@.map_values(|p: (String, String)| (p.0@, p.1@)), path@) == Some(t@),
        r is None ==> renamed_to(map@.map_values(|p: (String, String)| (p.0@, p.1@)), path@) is None,
{
    let ghost mv = map@.map_values(|p: (String, String)| (p.0@, p.1@));
    let mut k: usize = map.len();
    assert(mv.take(k as int) =~= mv);
    while k > 0
        invariant
            k <= map.len(),
            mv == map@.map_values(|p: (String, String)| (p.0@, p.1@)),
            renamed_to(mv, path@) == renamed_to(mv.take(k as int), path@),
        decreases k,
    {
        assert(mv.take(k as int).drop_last() =~= mv.take(k as int - 1));
        assert(mv.take(k as int).last() == (map@[k as int - 1].0@, map@[k as int - 1].1@));
        if equal_chars(&chars_of(map[k - 1].0.as_str()), path) {
            return Some(map[k - 1].1.clone());
        }
        k = k - 1;
    }
    None
}

/// The text from `pos` on with each image reference whose path was renamed pointing to
/// the new path; the alternative text and everything else stay.
pub open spec fn relinked_from(s: Seq<char>, ms: Seq<(int, int, int)>, map: Seq<(Seq<char>, Seq<char>)>, k: int, pos: int) -> Seq<char>
    decreases ms.len() - k,
{
    if k < 0 || k >= ms.len() {
        s.subrange(pos, s.len() as int)
    } else {
        let (a, b, c) = ms[k];
        s.subrange(pos, a) + match renamed_to(map, s.subrange(b + 2, c)) {
            Some(t) => "!["@ + s.subrange(a + 2, b) + "]("@ + t + ")"@,
            None => s.subrange(a, c + 1),
        } + relinked_from(s, ms, map, k + 1, c + 1)
    }
}

/// The Markdown text with its renamed images relinked.
pub fn update_markdown_content(md_content: &str, path_map: &Vec<(String, String)>) -> (r: String)
    ensures
        r@ == relinked_from(md_content@, images_from(md_content@, 0), path_map@.map_values(|p: (String, String)| (p.0@, p.1@)), 0, 0),
{
    let s = chars_of(md_content);
    let ms = find_images(&s);
    let ghost mv = ms@.map_values(|m: (usize, usize, usize)| (m.0 as int, m.1 as int, m.2 as int));
    let ghost pm = path_map@.map_values(|p: (String, String)| (p.0@, p.1@));
    let mut out: Vec<char> = Vec::new();
    let mut pos: usize = 0;
    let mut k: usize = 0;
    while k < ms.len()
        invariant
            k <= ms.len(),
            s@ == md_content@,
            mv == ms@.map_values(|m: (usize, usize, usize)| (m.0 as int, m.1 as int, m.2 as int)),
            mv == images_from(s@, 0),
            pm == path_map@.map_values(|p: (String, String)| (p.0@, p.1@)),
            forall|q: int| 0 <= q < ms.len() ==> (#[trigger] ms@[q]).0 + 2 <= ms@[q].1 && ms@[q].1 + 2 <= ms@[q].2 < s.len(),
            forall|q: int| 0 <= q < ms.len() - 1 ==> (#[trigger] ms@[q]).2 < ms@[q + 1].0,
            pos <= s.len(),
            k < ms.len() ==> pos <= ms@[k as int].0,
            k == 0 ==> pos == 0,
            relinked_from(s@, mv, pm, 0, 0) == out@ + relinked_from(s@, mv, pm, k as int, pos as int),
        decreases ms.len() - k,
    {
        let (a, b, c) = ms[k];
        assert(mv[k as int] == (a as int, b as int, c as int));
        let ghost before = out@;
        extend_range(&mut out, &s, pos, a);
        let mut path: Vec<char> = Vec::new();
        extend_range(&mut path, &s, b + 2, c);
        let ghost mid = out@;
        match renamed_to_exec(path_map, &path) {
            Some(t) => {
                out.push('!');
                out.push('[');
                extend_range(&mut out, &s, a + 2, b);
                out.push(']');
                out.push('(');
                extend_chars(&mut out, &chars_of(t.as_str()));
                out.push(')');
                proof {
                    reveal_strlit("![");
                    reveal_strlit("](");
                    reveal_strlit(")");
                }
                assert(out@ =~= mid + ("!["@ + s@.subrange(a + 2, b as int) + "]("@ + t@ + ")"@));
            },
            None => {
                extend_range(&mut out, &s, a, c + 1);
            },
        }
        assert(before + relinked_from(s@, mv, pm, k as int, pos as int) =~= out@ + relinked_from(s@, mv, pm, k + 1, c + 1));
        pos = c + 1;
        k = k + 1;
    }
    let ghost before = out@;
    extend_range(&mut out, &s, pos, s.len());
    assert(before + relinked_from(s@, mv, pm, k as int, pos as int) =~= out@);
    string_of(&out)
}

} // verus!
