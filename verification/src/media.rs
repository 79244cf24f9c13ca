//! Sorting media files: which files are pictures or videos, where a picture is merged
//! to, which files are left without a companion, and which files are too small.

use vstd::prelude::*;
use crate::collision::{ascii_lower, lemma_listed_count, listed, listed_exec};
use vstd::set_lib::{lemma_int_range, lemma_map_size, set_int_range};
use crate::paths::{lemma_join_injective, lemma_join_len, lemma_last_dot_range, last_dot,
    extension, extension_of, file_name, file_name_of, file_stem, file_stem_of, join, join_chars,
    parent_of, path_parent, with_extension, with_extension_of,
};
use crate::lines::{contains_text, is_excluded};
use crate::startup::{stripped_prefix, strip_prefix_of};
use crate::paths::{same_path, paths_equal};
use crate::text::{lemma_decimal_same_suffix, chars_of, concat, equal_chars, extend_chars, push_decimal, decimal, split_chars, split_on, string_of, string_views, views};

verus! {

/// The extensions of the pictures and videos that are merged.
pub open spec fn media_extensions() -> Seq<Seq<char>> {
    seq!["jpg"@, "jpeg"@, "png"@, "gif"@, "mp4"@, "avi"@, "mov"@]
}

/// The path is a picture or a video: its extension is one of `media_extensions`.
pub open spec fn is_media(path: Seq<char>) -> bool {
    extension(path) matches Some(e) && media_extensions().contains(e)
}

/// Whether the path is a picture or a video.
pub fn is_image_or_video(path: &str) -> (b: bool)
    ensures
        b == is_media(path@),
{
    let p = chars_of(path);
    match extension_of(&p) {
        Some(e) => {
            let names = ["jpg", "jpeg", "png", "gif", "mp4", "avi", "mov"];
            proof {
                reveal_strlit("jpg");
                reveal_strlit("jpeg");
                reveal_strlit("png");
                reveal_strlit("gif");
                reveal_strlit("mp4");
                reveal_strlit("avi");
                reveal_strlit("mov");
            }
            let mut k: usize = 0;
            while k < 7
                invariant
                    k <= 7,
                    extension(path@) == Some(e@),
                    forall|q: int| 0 <= q < 7 ==> (#[trigger] names@[q])@ == media_extensions()[q],
                    forall|q: int| 0 <= q < k ==> media_extensions()[q] != e@,
                decreases 7 - k,
            {
                if equal_chars(&chars_of(names[k]), &e) {
                    assert(media_extensions()[k as int] == e@);
                    return true;
                }
                k = k + 1;
            }
            assert(!media_extensions().contains(e@));
            false
        },
        None => false,
    }
}

/// The artist of a picture: the text after the last `_` in the name of the directory
/// holding it; none when it has no such directory.
pub open spec fn artist_of(path: Seq<char>) -> Option<Seq<char>> {
    match path_parent(path) {
        Some(q) => match file_name(q) {
            Some(n) => Some(split_on(n, '_').last()),
            None => None,
        },
        None => None,
    }
}

/// The artist of the picture at `path`.
pub fn artist_id(path: &str) -> (r: Option<String>)
    ensures
        r matches Some(a) ==> artist_of(path@) == Some(a@),
        r is None ==> artist_of(path@) is None,
{
    match parent_of(path) {
        Some(q) => match file_name_of(&chars_of(q.as_str())) {
            Some(n) => {
                let pieces = split_chars(&n, '_');
                proof {
                    crate::text::lemma_split_on_nonempty(n@, '_');
                }
                assert(views(pieces@)[pieces.len() - 1] == pieces@[pieces.len() - 1]@);
                Some(string_of(&pieces[pieces.len() - 1]))
            },
            None => None,
        },
        None => None,
    }
}

/// The last of `names` that contains `artist`, if any.
pub open spec fn last_with(names: Seq<Seq<char>>, artist: Seq<char>) -> Option<Seq<char>>
    decreases names.len(),
{
    if names.len() == 0 {
        None
    } else if contains_text(names.last(), artist) {
        Some(names.last())
    } else {
        last_with(names.drop_last(), artist)
    }
}

/// Where a picture is merged to: the last entry of the output directory whose name
/// contains the artist, or else a directory named like the picture's own.
pub open spec fn merge_dir(output: Seq<char>, entries: Seq<Seq<char>>, own_dir: Seq<char>, artist: Seq<char>) -> Seq<char> {
    match last_with(entries, artist) {
        Some(n) => join(output, n),
        None => join(output, own_dir),
    }
}

/// The directory a picture goes to, given the names of the output directory's entries
/// in the order they are listed.
pub fn merge_target(output: &str, entries: &Vec<String>, own_dir: &str, artist: &str) -> (r: String)
    ensures
        r@ == merge_dir(output@, string_views(entries@), own_dir@, artist@),
{
    let ghost ev = string_views(entries@);
    let mut k: usize = entries.len();
    assert(ev.take(k as int) =~= ev);
    while k > 0
        invariant
            k <= entries.len(),
            ev == string_views(entries@),
            last_with(ev, artist@) == last_with(ev.take(k as int), artist@),
        decreases k,
    {
        assert(ev.take(k as int).drop_last() =~= ev.take(k as int - 1));
        assert(ev.take(k as int).last() == entries@[k as int - 1]@);
        if is_excluded(entries[k - 1].as_str(), Some(artist)) {
            return string_of(&join_chars(&chars_of(output), &chars_of(entries[k - 1].as_str())));
        }
        k = k - 1;
    }
    string_of(&join_chars(&chars_of(output), &chars_of(own_dir)))
}

/// Whether a picture is copied: not when the target already holds a file at least as
/// large; when a size cannot be read, it is copied.
pub fn should_process(source_len: Option<u64>, target_exists: bool, target_len: Option<u64>) -> (b: bool)
    ensures
        b == match source_len {
            None => true,
            Some(s) => !target_exists || match target_len {
                None => true,
                Some(t) => t < s,
            },
        },
{
    match source_len {
        None => true,
        Some(s) => {
            if !target_exists {
                true
            } else {
                match target_len {
                    None => true,
                    Some(t) => t < s,
                }
            }
        },
    }
}

/// The `i`-th name tried for a picture whose own name is taken in `dst_dir`:
/// `stem_i.ext` in that directory.
pub open spec fn numbered_picture(dst_dir: Seq<char>, stem: Seq<char>, ext: Seq<char>, i: nat) -> Seq<char> {
    join(dst_dir, stem + seq!['_'] + decimal(i) + seq!['.'] + ext)
}

/// Different numbers give different picture names.
proof fn lemma_numbered_picture_injective(d: Seq<char>, stem: Seq<char>, ext: Seq<char>, i: nat, j: nat)
    requires
        stem.len() > 0,
        numbered_picture(d, stem, ext, i) == numbered_picture(d, stem, ext, j),
    ensures
        i == j,
{
    let ri = stem + seq!['_'] + decimal(i) + seq!['.'] + ext;
    let rj = stem + seq!['_'] + decimal(j) + seq!['.'] + ext;
    assert(ri[0] == stem[0]);
    assert(rj[0] == stem[0]);
    lemma_join_injective(d, ri, rj);
    let k = stem.len() + 1int;
    assert(ri.skip(k) =~= decimal(i) + (seq!['.'] + ext));
    assert(rj.skip(k) =~= decimal(j) + (seq!['.'] + ext));
    lemma_decimal_same_suffix(i, j, seq!['.'] + ext);
}

/// A picture's own name in `d` is none of its numbered names there.
proof fn lemma_own_name_not_numbered(src: Seq<char>, d: Seq<char>, i: nat)
    requires
        extension(src) is Some,
    ensures
        file_name(src) is Some,
        file_stem(src)->0.len() > 0,
        join(d, file_name(src)->0) != numbered_picture(d, file_stem(src)->0, extension(src)->0, i),
{
    let f = file_name(src)->0;
    lemma_last_dot_range(f);
    let stem = file_stem(src)->0;
    let ext = extension(src)->0;
    let r = stem + seq!['_'] + decimal(i) + seq!['.'] + ext;
    assert(f =~= stem + seq!['.'] + ext);
    assert(f[0] == stem[0]);
    assert(r[0] == stem[0]);
    lemma_join_len(d, f, r);
}

/// Of the first `existing.len()` numbered names of a picture whose own name is taken,
/// one is free: they are all different, and the own name is another taken path.
proof fn lemma_picture_name_free(src: Seq<char>, d: Seq<char>, existing: Seq<String>)
    requires
        extension(src) is Some,
        listed(existing, join(d, file_name(src)->0)),
    ensures
        exists|i: nat|
            1 <= i <= existing.len() && !listed(
                existing,
                #[trigger] numbered_picture(d, file_stem(src)->0, extension(src)->0, i),
            ),
{
    lemma_own_name_not_numbered(src, d, 1);
    let stem = file_stem(src)->0;
    let ext = extension(src)->0;
    let first = join(d, file_name(src)->0);
    if forall|i: nat| 1 <= i <= existing.len() ==> listed(existing, #[trigger] numbered_picture(d, stem, ext, i)) {
        let range = set_int_range(1, existing.len() + 1int);
        lemma_int_range(1, existing.len() + 1int);
        let f = |i: int| numbered_picture(d, stem, ext, i as nat);
        assert forall|x: int, y: int| range.contains(x) && range.contains(y) && #[trigger] f(x) == #[trigger] f(y)
            implies x == y by {
            lemma_numbered_picture_injective(d, stem, ext, x as nat, y as nat);
        }
        let names = range.map(f);
        lemma_map_size(range, names, f);
        assert(!names.contains(first)) by {
            if names.contains(first) {
                let i = choose|i: int| range.contains(i) && f(i) == first;
                lemma_own_name_not_numbered(src, d, i as nat);
            }
        }
        let all = names.insert(first);
        assert forall|x: Seq<char>| #[trigger] all.contains(x) implies listed(existing, x) by {
            if x != first {
                let i = choose|i: int| range.contains(i) && f(i) == x;
                assert(listed(existing, numbered_picture(d, stem, ext, i as nat)));
            }
        }
        lemma_listed_count(existing, all);
    }
}

/// Where the picture `src` is moved into `dst_dir`, given the paths there that are
/// taken: under its own name when that is free, else under the first free
/// `stem_i.ext` for `i` from 1 on. One of the first `existing.len()` of those is free:
/// they are all different, and the picture's own name is another taken path.
pub fn picture_destination(src: &str, dst_dir: &str, existing: &Vec<String>) -> (r: String)
    requires
        file_name(src@) is Some,
        listed(existing@, join(dst_dir@, file_name(src@)->0)) ==> extension(src@) is Some,
    ensures
        !listed(existing@, join(dst_dir@, file_name(src@)->0)) ==> r@ == join(
            dst_dir@,
            file_name(src@)->0,
        ),
        listed(existing@, join(dst_dir@, file_name(src@)->0)) ==> exists|i: nat|
            1 <= i <= existing.len() && #[trigger] numbered_picture(dst_dir@, file_stem(src@)->0, extension(src@)->0, i)
                == r@ && !listed(existing@, r@) && forall|j: nat|
                1 <= j < i ==> listed(existing@, #[trigger] numbered_picture(dst_dir@, file_stem(src@)->0, extension(src@)->0, j)),
{
    let p = chars_of(src);
    let d = chars_of(dst_dir);
    let name = match file_name_of(&p) {
        Some(n) => n,
        None => {
            assert(false);
            return String::new();
        },
    };
    let first = join_chars(&d, &name);
    if !listed_exec(existing, &first) {
        return string_of(&first);
    }
    let stem = match file_stem_of(&p) {
        Some(s) => s,
        None => {
            assert(false);
            return String::new();
        },
    };
    let ext = match extension_of(&p) {
        Some(e) => e,
        None => {
            assert(false);
            return String::new();
        },
    };
    proof {
        lemma_picture_name_free(src@, dst_dir@, existing@);
    }
    let mut k: usize = 0;
    while k < existing.len()
        invariant
            k <= existing.len(),
            exists|i: nat|
                1 <= i <= existing.len() && !listed(
                    existing@,
                    #[trigger] numbered_picture(dst_dir@, file_stem(src@)->0, extension(src@)->0, i),
                ),
            stem@ == file_stem(src@)->0,
            ext@ == extension(src@)->0,
            d@ == dst_dir@,
            listed(existing@, join(dst_dir@, file_name(src@)->0)),
            forall|j: nat| 1 <= j <= k ==> listed(existing@, #[trigger] numbered_picture(dst_dir@, stem@, ext@, j)),
        decreases existing.len() - k,
    {
        let i: u64 = (k + 1) as u64;
        let mut n: Vec<char> = Vec::new();
        extend_chars(&mut n, &stem);
        n.push('_');
        push_decimal(&mut n, i);
        n.push('.');
        extend_chars(&mut n, &ext);
        let c = join_chars(&d, &n);
        assert(n@ =~= stem@ + seq!['_'] + decimal(i as nat) + seq!['.'] + ext@);
        assert(c@ == numbered_picture(dst_dir@, stem@, ext@, i as nat));
        if !listed_exec(existing, &c) {
            return string_of(&c);
        }
        k = k + 1;
    }
    assert(false);
    String::new()
}

/// A directory holds too few pictures and videos when it has fewer than `min_count`.
pub fn too_few_media(count: usize, min_count: u32) -> (b: bool)
    ensures
        b == (count < min_count),
{
    count < min_count as usize
}

/// ASCII lower case of a text.
pub open spec fn ascii_lowered(s: Seq<char>) -> Seq<char> {
    s.map_values(|c: char| ascii_lower(c))
}

fn ascii_lowered_exec(s: &[char]) -> (r: Vec<char>)
    ensures
        r@ == ascii_lowered(s@),
{
    let mut r: Vec<char> = Vec::new();
    let mut k: usize = 0;
    while k < s.len()
        invariant
            k <= s.len(),
            r@ == ascii_lowered(s@.take(k as int)),
        decreases s.len() - k,
    {
        let c = s[k];
        let l = if 'A' <= c && c <= 'Z' { ((c as u32) + 32) as u8 as char } else { c };
        assert(l == ascii_lower(c)) by {
            if 'A' <= c && c <= 'Z' {
                assert(((c as u32) + 32) as u8 as char == ((c as u32) + 32) as char);
            }
        }
        r.push(l);
        k = k + 1;
        assert(r@ =~= ascii_lowered(s@.take(k as int)));
    }
    assert(s@.take(s.len() as int) =~= s@);
    r
}

/// The file has the given extension, ASCII letter case ignored.
pub open spec fn has_extension_ascii(path: Seq<char>, ext: Seq<char>) -> bool {
    extension(path) matches Some(e) && ascii_lowered(e) == ascii_lowered(ext)
}

/// Whether the file's extension is `ext`, ASCII letter case ignored.
pub fn extension_is(path: &str, ext: &str) -> (b: bool)
    ensures
        b == has_extension_ascii(path@, ext@),
{
    match extension_of(&chars_of(path)) {
        Some(e) => equal_chars(&ascii_lowered_exec(&e), &ascii_lowered_exec(&chars_of(ext))),
        None => false,
    }
}

/// The file that would accompany `path`: the same path with extension `examine`.
pub fn companion_path(path: &str, examine: &str) -> (r: String)
    ensures
        r@ == with_extension(path@, examine@),
{
    string_of(&with_extension_of(&chars_of(path), &chars_of(examine)))
}

/// A file is copied out when it has the original extension and no companion.
pub fn lacks_companion(path: &str, original: &str, companion_exists: bool) -> (b: bool)
    ensures
        b == (has_extension_ascii(path@, original@) && !companion_exists),
{
    extension_is(path, original) && !companion_exists
}

/// The file a directory is turned into: the directory's path without its extension.
pub fn file_for_dir(dir_path: &str) -> (r: String)
    ensures
        r@ == with_extension(dir_path@, Seq::<char>::empty()),
{
    let e: Vec<char> = Vec::new();
    assert(e@ =~= Seq::<char>::empty());
    string_of(&with_extension_of(&chars_of(dir_path), &e))
}

/// The directory the images of a PDF go to: the PDF's stem under `out_dir`.
pub fn pdf_image_dir(pdf_path: &str, out_dir: &str) -> (r: Option<String>)
    ensures
        r matches Some(d) ==> file_stem(pdf_path@) matches Some(s) && d@ == join(out_dir@, s),
        r is None ==> file_stem(pdf_path@) is None,
{
    match file_stem_of(&chars_of(pdf_path)) {
        Some(s) => Some(string_of(&join_chars(&chars_of(out_dir), &s))),
        None => None,
    }
}

/// A file is removed as too small when it has fewer than `min_size` KiB.
pub fn is_small_file(len: u64, min_size: u64) -> (b: bool)
    requires
        min_size * 1024 <= u64::MAX,
    ensures
        b == (len < min_size * 1024),
{
    len < min_size * 1024
}

/// A sample is loud when its magnitude passes the threshold.
pub open spec fn loud(x: i16, threshold: i16) -> bool {
    (if x < 0 { -x } else { x as int }) > threshold
}

/// The regions of loud samples among `samples`, as the scan leaves them: the closed
/// regions, and the open one at the end, if any. A region runs from its first loud
/// sample to the last loud sample before a quiet one.
pub open spec fn region_scan(samples: Seq<i16>, threshold: i16) -> (Seq<(int, int)>, Option<(int, int)>)
    decreases samples.len(),
{
    if samples.len() == 0 {
        (Seq::<(int, int)>::empty(), None)
    } else {
        let (done, open) = region_scan(samples.drop_last(), threshold);
        let i = samples.len() - 1;
        if loud(samples.last(), threshold) {
            match open {
                Some((a, _)) => (done, Some((a, i))),
                None => (done, Some((i, i))),
            }
        } else {
            match open {
                Some(r) => (done.push(r), None),
                None => (done, None),
            }
        }
    }
}

/// The loud regions of the samples, each as its first and last index.
pub open spec fn loud_regions(samples: Seq<i16>, threshold: i16) -> Seq<(int, int)> {
    let (done, open) = region_scan(samples, threshold);
    match open {
        Some(r) => done.push(r),
        None => done,
    }
}

/// `r` is a run of loud samples of `s` that starts at the beginning or after a quiet
/// sample.
pub open spec fn loud_run(s: Seq<i16>, threshold: i16, r: (int, int)) -> bool {
    &&& 0 <= r.0 <= r.1 < s.len()
    &&& forall|i: int| r.0 <= i <= r.1 ==> loud(#[trigger] s[i], threshold)
    &&& r.0 == 0 || !loud(s[r.0 - 1], threshold)
}

/// Sample `i` lies in one of the regions.
pub open spec fn in_some_region(rs: Seq<(int, int)>, i: int) -> bool {
    exists|k: int| 0 <= k < rs.len() && (#[trigger] rs[k]).0 <= i <= rs[k].1
}

/// What the scan keeps: the closed regions are loud runs, in order, each ended by a
/// quiet sample; the open one is a loud run up to the last sample; every loud sample
/// lies in one of them.
spec fn scan_ok(s: Seq<i16>, t: i16, done: Seq<(int, int)>, open: Option<(int, int)>) -> bool {
    &&& forall|k: int| 0 <= k < done.len() ==> loud_run(s, t, #[trigger] done[k]) && done[k].1 + 1 < s.len()
        && !loud(s[done[k].1 + 1], t)
    &&& forall|a: int, b: int| 0 <= a < b < done.len() ==> (#[trigger] done[a]).1 + 1 < (#[trigger] done[b]).0
    &&& open matches Some(o) ==> loud_run(s, t, o) && o.1 == s.len() - 1 && (done.len() > 0 ==> done.last().1 + 1
        < o.0)
    &&& forall|i: int| 0 <= i < s.len() && loud(#[trigger] s[i], t) ==> in_some_region(
        match open {
            Some(o) => done.push(o),
            None => done,
        },
        i,
    )
}

proof fn lemma_loud_run_extends(s: Seq<i16>, t: i16, r: (int, int), x: i16)
    requires
        loud_run(s, t, r),
    ensures
        loud_run(s.push(x), t, r),
{
    assert forall|i: int| r.0 <= i <= r.1 implies loud(#[trigger] s.push(x)[i], t) by {
        assert(s.push(x)[i] == s[i]);
    }
    if r.0 > 0 {
        assert(s.push(x)[r.0 - 1] == s[r.0 - 1]);
    }
}

proof fn lemma_region_scan_ok(s: Seq<i16>, t: i16)
    ensures
        scan_ok(s, t, region_scan(s, t).0, region_scan(s, t).1),
    decreases s.len(),
{
    if s.len() > 0 {
        let d = s.drop_last();
        let x = s.last();
        let n = s.len() as int;
        lemma_region_scan_ok(d, t);
        let (done0, open0) = region_scan(d, t);
        let (done, open) = region_scan(s, t);
        assert(s == d.push(x));
        assert forall|k: int| 0 <= k < done0.len() implies loud_run(s, t, #[trigger] done0[k]) && done0[k].1 + 1 < s.len()
            && !loud(s[done0[k].1 + 1], t) by {
            lemma_loud_run_extends(d, t, done0[k], x);
            assert(s[done0[k].1 + 1] == d[done0[k].1 + 1]);
        }
        if let Some(o) = open0 {
            lemma_loud_run_extends(d, t, o, x);
        }
        let all0 = match open0 {
            Some(o) => done0.push(o),
            None => done0,
        };
        let all = match open {
            Some(o) => done.push(o),
            None => done,
        };
        if loud(x, t) {
            match open0 {
                Some(o) => {
                    assert(all.len() == all0.len());
                    assert forall|i: int| 0 <= i < n && loud(#[trigger] s[i], t) implies in_some_region(all, i) by {
                        if i < n - 1 {
                            assert(s[i] == d[i]);
                            let k = choose|k: int| 0 <= k < all0.len() && (#[trigger] all0[k]).0 <= i <= all0[k].1;
                            if k < done0.len() {
                                assert(all[k] == all0[k]);
                            } else {
                                assert(all[k] == (o.0, n - 1));
                            }
                        } else {
                            assert(all[all.len() - 1] == (o.0, n - 1));
                        }
                    }
                    assert forall|i: int| o.0 <= i <= n - 1 implies loud(#[trigger] s[i], t) by {
                        if i < n - 1 {
                            assert(s[i] == d[i]);
                        }
                    }
                },
                None => {
                    if n >= 2 && loud(s[n - 2], t) {
                        assert(s[n - 2] == d[n - 2]);
                        let k = choose|k: int| 0 <= k < all0.len() && (#[trigger] all0[k]).0 <= n - 2 <= all0[k].1;
                        assert(all0[k] == done0[k]);
                        assert(false);
                    }
                    assert forall|i: int| 0 <= i < n && loud(#[trigger] s[i], t) implies in_some_region(all, i) by {
                        if i < n - 1 {
                            assert(s[i] == d[i]);
                            let k = choose|k: int| 0 <= k < all0.len() && (#[trigger] all0[k]).0 <= i <= all0[k].1;
                            assert(all[k] == all0[k]);
                        } else {
                            assert(all[all.len() - 1] == (n - 1, n - 1));
                        }
                    }
                },
            }
        } else {
            match open0 {
                Some(o) => {
                    assert(done == done0.push(o));
                    assert forall|k: int| 0 <= k < done.len() implies loud_run(s, t, #[trigger] done[k]) && done[k].1 + 1
                        < s.len() && !loud(s[done[k].1 + 1], t) by {
                        if k < done0.len() {
                            assert(done[k] == done0[k]);
                        }
                    }
                    assert forall|a: int, b: int| 0 <= a < b < done.len() implies (#[trigger] done[a]).1 + 1 < (
                    #[trigger] done[b]).0 by {
                        assert(done[a] == done0[a]);
                        if b < done0.len() {
                            assert(done[b] == done0[b]);
                        } else if a < done0.len() - 1 {
                            assert(done0[a].1 + 1 < done0[done0.len() - 1].0);
                        }
                    }
                    assert forall|i: int| 0 <= i < n && loud(#[trigger] s[i], t) implies in_some_region(all, i) by {
                        assert(s[i] == d[i]);
                        let k = choose|k: int| 0 <= k < all0.len() && (#[trigger] all0[k]).0 <= i <= all0[k].1;
                        assert(all[k] == all0[k]);
                    }
                },
                None => {
                    assert forall|i: int| 0 <= i < n && loud(#[trigger] s[i], t) implies in_some_region(all, i) by {
                        assert(s[i] == d[i]);
                        let k = choose|k: int| 0 <= k < all0.len() && (#[trigger] all0[k]).0 <= i <= all0[k].1;
                        assert(all[k] == all0[k]);
                    }
                },
            }
        }
    }
}

/// The loud regions are exactly the runs of loud samples: each runs over loud
/// samples only, starts at the beginning or after a quiet sample and ends at the last
/// sample or before a quiet one; they come in order, apart; and every loud sample lies
/// in one of them.
pub proof fn lemma_loud_regions(samples: Seq<i16>, threshold: i16)
    ensures
        forall|k: int| 0 <= k < loud_regions(samples, threshold).len() ==> {
            let r = #[trigger] loud_regions(samples, threshold)[k];
            &&& loud_run(samples, threshold, r)
            &&& r.1 + 1 == samples.len() || !loud(samples[r.1 + 1], threshold)
        },
        forall|a: int, b: int| 0 <= a < b < loud_regions(samples, threshold).len() ==> (#[trigger] loud_regions(
            samples,
            threshold,
        )[a]).1 + 1 < (#[trigger] loud_regions(samples, threshold)[b]).0,
        forall|i: int| 0 <= i < samples.len() && loud(#[trigger] samples[i], threshold) ==> in_some_region(
            loud_regions(samples, threshold),
            i,
        ),
{
    lemma_region_scan_ok(samples, threshold);
    let (done, open) = region_scan(samples, threshold);
    let r = loud_regions(samples, threshold);
    if let Some(o) = open {
        assert(r == done.push(o));
        assert forall|k: int| 0 <= k < r.len() implies {
            let q = #[trigger] r[k];
            &&& loud_run(samples, threshold, q)
            &&& q.1 + 1 == samples.len() || !loud(samples[q.1 + 1], threshold)
        } by {
            if k < done.len() {
                assert(r[k] == done[k]);
            }
        }
        assert forall|a: int, b: int| 0 <= a < b < r.len() implies (#[trigger] r[a]).1 + 1 < (#[trigger] r[b]).0 by {
            assert(r[a] == done[a]);
            if b < done.len() {
                assert(r[b] == done[b]);
            } else if a < done.len() - 1 {
                assert(done[a].1 + 1 < done[done.len() - 1].0);
            }
        }
    }
}

/// The regions of samples louder than `threshold`; samples are never `i16::MIN`,
/// whose magnitude `i16` cannot hold.
pub fn non_silent_regions(samples: &Vec<i16>, threshold: i16) -> (r: Vec<(usize, usize)>)
    requires
        forall|k: int| 0 <= k < samples.len() ==> samples@[k] != i16::MIN,
    ensures
        r@.map_values(|p: (usize, usize)| (p.0 as int, p.1 as int)) == loud_regions(samples@, threshold),
{
    let mut done: Vec<(usize, usize)> = Vec::new();
    let mut start: Option<usize> = None;
    let mut end: usize = 0;
    let mut i: usize = 0;
    while i < samples.len()
        invariant
            i <= samples.len(),
            forall|k: int| 0 <= k < samples.len() ==> samples@[k] != i16::MIN,
            done@.map_values(|p: (usize, usize)| (p.0 as int, p.1 as int)) == region_scan(samples@.take(i as int), threshold).0,
            start is None <==> region_scan(samples@.take(i as int), threshold).1 is None,
            start matches Some(a) ==> region_scan(samples@.take(i as int), threshold).1 == Some((a as int, end as int)),
        decreases samples.len() - i,
    {
        let ghost pre = samples@.take(i as int);
        assert(samples@.take(i as int + 1).drop_last() =~= pre);
        assert(samples@.take(i as int + 1).last() == samples@[i as int]);
        let x = samples[i];
        let mag: i16 = if x < 0 { -x } else { x };
        let ghost prev = region_scan(pre, threshold);
        assert(region_scan(samples@.take(i as int + 1), threshold) == {
            let (done0, open0) = prev;
            if loud(x, threshold) {
                match open0 {
                    Some((a, _)) => (done0, Some((a, i as int))),
                    None => (done0, Some((i as int, i as int))),
                }
            } else {
                match open0 {
                    Some(r) => (done0.push(r), None),
                    None => (done0, None),
                }
            }
        });
        assert(loud(x, threshold) == (mag > threshold));
        if mag > threshold {
            if start.is_none() {
                start = Some(i);
            }
            end = i;
        } else {
            if let Some(a) = start {
                let ghost before = done@.map_values(|p: (usize, usize)| (p.0 as int, p.1 as int));
                done.push((a, end));
                assert(done@.map_values(|p: (usize, usize)| (p.0 as int, p.1 as int)) =~= before.push((a as int, end as int)));
                start = None;
            }
        }
        i = i + 1;
    }
    assert(samples@.take(samples.len() as int) =~= samples@);
    if let Some(a) = start {
        assert(region_scan(samples@, threshold).1 == Some((a as int, end as int)));
        let ghost before = done@.map_values(|p: (usize, usize)| (p.0 as int, p.1 as int));
        done.push((a, end));
        assert(done@.map_values(|p: (usize, usize)| (p.0 as int, p.1 as int)) =~= before.push((a as int, end as int)));
    }
    done
}

/// The path is a video to merge: its extension is `mp4`, `avi` or `mkv`.
pub open spec fn is_video(path: Seq<char>) -> bool {
    extension(path) matches Some(e) && (e == "mp4"@ || e == "avi"@ || e == "mkv"@)
}

/// Whether the path is a video to merge.
pub fn is_video_path(path: &str) -> (b: bool)
    ensures
        b == is_video(path@),
{
    match extension_of(&chars_of(path)) {
        Some(e) => equal_chars(&e, &chars_of("mp4")) || equal_chars(&e, &chars_of("avi")) || equal_chars(&e, &chars_of("mkv")),
        None => false,
    }
}

/// The list file for concatenating videos: one `file '{path}'` line per video.
pub open spec fn concat_list(paths: Seq<Seq<char>>) -> Seq<char>
    decreases paths.len(),
{
    if paths.len() == 0 {
        Seq::<char>::empty()
    } else {
        concat_list(paths.drop_last()) + "file '"@ + paths.last() + "'\n"@
    }
}

/// The text of the list file.
pub fn concat_list_text(paths: &Vec<String>) -> (r: String)
    ensures
        r@ == concat_list(string_views(paths@)),
{
    let ghost pv = string_views(paths@);
    let mut out: Vec<char> = Vec::new();
    let head = chars_of("file '");
    let tail = chars_of("'\n");
    let mut k: usize = 0;
    while k < paths.len()
        invariant
            k <= paths.len(),
            pv == string_views(paths@),
            head@ == "file '"@,
            tail@ == "'\n"@,
            out@ == concat_list(pv.take(k as int)),
        decreases paths.len() - k,
    {
        assert(pv.take(k as int + 1).drop_last() =~= pv.take(k as int));
        assert(pv.take(k as int + 1).last() == paths@[k as int]@);
        extend_chars(&mut out, &head);
        extend_chars(&mut out, &chars_of(paths[k].as_str()));
        extend_chars(&mut out, &tail);
        k = k + 1;
        assert(out@ =~= concat_list(pv.take(k as int)));
    }
    assert(pv.take(paths.len() as int) =~= pv);
    string_of(&out)
}

/// The arguments of the concatenating `ffmpeg` run.
pub open spec fn concat_args(list: Seq<char>, output: Seq<char>, nvenc: bool) -> Seq<Seq<char>> {
    seq!["-f"@, "concat"@, "-safe"@, "0"@, "-i"@, list, "-c"@, "copy"@, output] + if nvenc {
        seq!["-c:v"@, "h264_nvenc"@, "-c:a"@, "copy"@]
    } else {
        Seq::<Seq<char>>::empty()
    }
}

/// The arguments for `ffmpeg` to concatenate the videos of a list file.
pub fn ffmpeg_concat_args(list: &str, output: &str, nvenc: bool) -> (v: Vec<String>)
    ensures
        string_views(v@) == concat_args(list@, output@, nvenc),
{
    let mut v = vec![
        "-f".to_string(),
        "concat".to_string(),
        "-safe".to_string(),
        "0".to_string(),
        "-i".to_string(),
        list.to_string(),
        "-c".to_string(),
        "copy".to_string(),
        output.to_string(),
    ];
    let ghost base = string_views(v@);
    assert(base =~= seq!["-f"@, "concat"@, "-safe"@, "0"@, "-i"@, list@, "-c"@, "copy"@, output@]);
    if nvenc {
        v.push("-c:v".to_string());
        v.push("h264_nvenc".to_string());
        v.push("-c:a".to_string());
        v.push("copy".to_string());
        assert(string_views(v@) =~= base + seq!["-c:v"@, "h264_nvenc"@, "-c:a"@, "copy"@]);
    } else {
        assert(string_views(v@) =~= base + Seq::<Seq<char>>::empty());
    }
    v
}

/// Where a resampled file is written: its path relative to the input directory, under
/// the output directory, with the target extension; none when the file does not lie
/// under the input directory.
pub fn resample_output(path: &str, input_dir: &str, output_dir: &str, target_ext: &str) -> (r: Option<String>)
    ensures
        match stripped_prefix(path@, input_dir@) {
            Some(rel) => r matches Some(o) && o@ == with_extension(join(output_dir@, rel), target_ext@),
            None => r is None,
        },
{
    match strip_prefix_of(path, input_dir) {
        Some(rel) => {
            let j = join_chars(&chars_of(output_dir), &chars_of(rel.as_str()));
            Some(string_of(&with_extension_of(&j, &chars_of(target_ext))))
        },
        None => None,
    }
}

/// The arguments of the resampling `ffmpeg` run.
pub open spec fn resample_arg_list(input: Seq<char>, output: Seq<char>, bitrate: u32, sample_rate: u32) -> Seq<Seq<char>> {
    seq!["-i"@, input, "-vn"@, "-b:a"@, decimal(bitrate as nat) + "k"@, "-ar"@, decimal(sample_rate as nat), output, "-y"@]
}

/// The arguments for `ffmpeg` to resample one audio file.
pub fn resample_args(input: &str, output: &str, bitrate: u32, sample_rate: u32) -> (v: Vec<String>)
    ensures
        string_views(v@) == resample_arg_list(input@, output@, bitrate, sample_rate),
{
    let mut b: Vec<char> = Vec::new();
    push_decimal(&mut b, bitrate as u64);
    b.push('k');
    let mut r: Vec<char> = Vec::new();
    push_decimal(&mut r, sample_rate as u64);
    proof {
        reveal_strlit("k");
    }
    assert(b@ =~= decimal(bitrate as nat) + "k"@);
    let v = vec![
        "-i".to_string(),
        input.to_string(),
        "-vn".to_string(),
        "-b:a".to_string(),
        string_of(&b),
        "-ar".to_string(),
        string_of(&r),
        output.to_string(),
        "-y".to_string(),
    ];
    assert(string_views(v@) =~= resample_arg_list(input@, output@, bitrate, sample_rate));
    v
}

/// The reference file that matches a target file: the target's path relative to the
/// target directory, under the reference directory.
pub open spec fn reference_for(target: Seq<char>, target_dir: Seq<char>, reference_dir: Seq<char>) -> Option<Seq<char>> {
    match stripped_prefix(target, target_dir) {
        Some(rel) => Some(join(reference_dir, rel)),
        None => None,
    }
}

/// `p` is one of the reference files, as paths compare.
pub open spec fn among(refs: Seq<Seq<char>>, p: Seq<char>) -> bool {
    exists|k: int| 0 <= k < refs.len() && same_path(#[trigger] refs[k], p)
}

/// The (reference, target) pairs to copy: each target file whose matching reference
/// file exists, in the order of the targets.
pub open spec fn copy_pairs(targets: Seq<Seq<char>>, target_dir: Seq<char>, reference_dir: Seq<char>, refs: Seq<Seq<char>>) -> Seq<(Seq<char>, Seq<char>)>
    decreases targets.len(),
{
    if targets.len() == 0 {
        Seq::<(Seq<char>, Seq<char>)>::empty()
    } else {
        let r = copy_pairs(targets.drop_last(), target_dir, reference_dir, refs);
        match reference_for(targets.last(), target_dir, reference_dir) {
            Some(c) => if among(refs, c) { r.push((c, targets.last())) } else { r },
            None => r,
        }
    }
}

/// Only target files whose reference file exists are copied back, each with its own
/// reference file, and every such target file is.
pub proof fn lemma_copy_pairs_exact(
    targets: Seq<Seq<char>>,
    target_dir: Seq<char>,
    reference_dir: Seq<char>,
    refs: Seq<Seq<char>>,
)
    ensures
        forall|i: int| 0 <= i < copy_pairs(targets, target_dir, reference_dir, refs).len() ==> {
            let q = #[trigger] copy_pairs(targets, target_dir, reference_dir, refs)[i];
            &&& among(refs, q.0)
            &&& targets.contains(q.1)
            &&& reference_for(q.1, target_dir, reference_dir) == Some(q.0)
        },
        forall|k: int| 0 <= k < targets.len() ==> match reference_for(#[trigger] targets[k], target_dir, reference_dir) {
            Some(c) => among(refs, c) ==> copy_pairs(targets, target_dir, reference_dir, refs).contains((c, targets[k])),
            None => true,
        },
    decreases targets.len(),
{
    if targets.len() > 0 {
        let d = targets.drop_last();
        let r = copy_pairs(d, target_dir, reference_dir, refs);
        let cp = copy_pairs(targets, target_dir, reference_dir, refs);
        lemma_copy_pairs_exact(d, target_dir, reference_dir, refs);
        assert forall|i: int| 0 <= i < cp.len() implies {
            let q = #[trigger] cp[i];
            &&& among(refs, q.0)
            &&& targets.contains(q.1)
            &&& reference_for(q.1, target_dir, reference_dir) == Some(q.0)
        } by {
            if i < r.len() {
                assert(cp[i] == r[i]);
                let j = choose|j: int| 0 <= j < d.len() && d[j] == r[i].1;
                assert(targets[j] == d[j]);
            } else {
                assert(targets[targets.len() - 1] == targets.last());
            }
        }
        assert forall|k: int| 0 <= k < targets.len() implies match reference_for(#[trigger] targets[k], target_dir, reference_dir) {
            Some(c) => among(refs, c) ==> cp.contains((c, targets[k])),
            None => true,
        } by {
            let c = reference_for(targets[k], target_dir, reference_dir)->0;
            if reference_for(targets[k], target_dir, reference_dir) is None || !among(refs, c) {
            } else if k < targets.len() - 1 {
                assert(targets[k] == d[k]);
                assert(r.contains((c, d[k])));
                let j = choose|j: int| 0 <= j < r.len() && r[j] == (c, d[k]);
                assert(cp[j] == r[j]);
            } else {
                assert(cp[r.len() as int] == (c, targets.last()));
            }
        }
    }
}

fn among_exec(refs: &Vec<String>, p: &str) -> (b: bool)
    ensures
        b == among(string_views(refs@), p@),
{
    let mut k: usize = 0;
    while k < refs.len()
        invariant
            k <= refs.len(),
            forall|q: int| 0 <= q < k ==> !same_path(#[trigger] string_views(refs@)[q], p@),
        decreases refs.len() - k,
    {
        assert(string_views(refs@)[k as int] == refs@[k as int]@);
        if paths_equal(refs[k].as_str(), p) {
            return true;
        }
        k = k + 1;
    }
    false
}

/// The files to copy back: for each target file with an existing reference file, the
/// pair (reference file, target file).
pub fn files_to_copy(targets: &Vec<String>, target_dir: &str, reference_dir: &str, refs: &Vec<String>) -> (r: Vec<(String, String)>)
    ensures
        r@.map_values(|p: (String, String)| (p.0@, p.1@)) == copy_pairs(string_views(targets@), target_dir@, reference_dir@, string_views(refs@)),
{
    let ghost tv = string_views(targets@);
    let mut r: Vec<(String, String)> = Vec::new();
    let mut k: usize = 0;
    assert(r@.map_values(|p: (String, String)| (p.0@, p.1@)) =~= copy_pairs(tv.take(0), target_dir@, reference_dir@, string_views(refs@)));
    while k < targets.len()
        invariant
            k <= targets.len(),
            tv == string_views(targets@),
            r@.map_values(|p: (String, String)| (p.0@, p.1@)) == copy_pairs(tv.take(k as int), target_dir@, reference_dir@, string_views(refs@)),
        decreases targets.len() - k,
    {
        assert(tv.take(k as int + 1).drop_last() =~= tv.take(k as int));
        assert(tv.take(k as int + 1).last() == targets@[k as int]@);
        match strip_prefix_of(targets[k].as_str(), target_dir) {
            Some(rel) => {
                let c = string_of(&join_chars(&chars_of(reference_dir), &chars_of(rel.as_str())));
                if among_exec(refs, c.as_str()) {
                    let ghost before = r@.map_values(|p: (String, String)| (p.0@, p.1@));
                    r.push((c, targets[k].clone()));
                    assert(r@.map_values(|p: (String, String)| (p.0@, p.1@)) =~= before.push((c@, targets@[k as int]@)));
                }
            },
            None => {},
        }
        k = k + 1;
    }
    assert(tv.take(targets.len() as int) =~= tv);
    r
}

} // verus!
