//! Downloading lists of URLs: where a download is saved, which ones are skipped, and
//! the options handed to the downloader.

use vstd::prelude::*;
use vstd::seq_lib::lemma_concat_associative;
use crate::text::{chars_of, concat, split_chars, split_on, string_of, string_views, views};

verus! {

/// The text after the last `/` of a URL (all of it when there is no `/`).
pub open spec fn url_file_name(url: Seq<char>) -> Seq<char> {
    split_on(url, '/').last()
}

/// Where a downloaded URL is saved: `{output_dir}/{last part of the URL}`.
pub fn download_path(url: &str, output_dir: &str) -> (s: String)
    ensures
        s@ == output_dir@ + "/"@ + url_file_name(url@),
{
    let pieces = split_chars(&chars_of(url), '/');
    proof {
        crate::text::lemma_split_on_nonempty(url@, '/');
    }
    let last = string_of(&pieces[pieces.len() - 1]);
    assert(views(pieces@)[pieces.len() - 1] == pieces@[pieces.len() - 1]@);
    let a = concat(output_dir, "/");
    concat(a.as_str(), last.as_str())
}

/// The two paths whose existence means a video was already downloaded:
/// `{work_dir}/{title}` and `{work_dir}/{title}.mp4`.
pub fn existing_download_paths(work_dir: &str, title: &str) -> (r: (String, String))
    ensures
        r.0@ == work_dir@ + "/"@ + title@,
        r.1@ == work_dir@ + "/"@ + title@ + ".mp4"@,
{
    let a = concat(work_dir, "/");
    let b = concat(a.as_str(), title);
    let c = concat(b.as_str(), ".mp4");
    (b, c)
}

/// The options handed to the downloader: the working directory, then a flag for each
/// choice made, leaving out empty entries.
pub open spec fn downloader_options(
    work_dir: Seq<char>,
    video_only: bool,
    audio_only: bool,
    sub_only: bool,
    cover_only: bool,
    skip_sub: bool,
    skip_cover: bool,
) -> Seq<Seq<char>> {
    seq!["--work-dir"@]
        + (if work_dir.len() > 0 { seq![work_dir] } else { Seq::<Seq<char>>::empty() })
        + (if video_only { seq!["--video-only"@] } else { Seq::<Seq<char>>::empty() })
        + (if audio_only { seq!["--audio-only"@] } else { Seq::<Seq<char>>::empty() })
        + (if sub_only { seq!["--sub-only"@] } else { Seq::<Seq<char>>::empty() })
        + (if cover_only { seq!["--cover-only"@] } else { Seq::<Seq<char>>::empty() })
        + (if skip_sub { seq!["--skip-subtitle"@] } else { Seq::<Seq<char>>::empty() })
        + (if skip_cover { seq!["--skip-cover"@] } else { Seq::<Seq<char>>::empty() })
}

/// The flags the downloader understands, one for each choice, in order.
pub open spec fn download_flags() -> Seq<Seq<char>> {
    seq!["--video-only"@, "--audio-only"@, "--sub-only"@, "--cover-only"@, "--skip-subtitle"@, "--skip-cover"@]
}

/// The options after the working directory (and its path, when one is given).
pub open spec fn chosen_flags(options: Seq<Seq<char>>, work_dir: Seq<char>) -> Seq<Seq<char>> {
    options.skip(if work_dir.len() > 0 { 2 } else { 1 })
}

proof fn lemma_flags_distinct()
    ensures
        forall|a: int, b: int| 0 <= a < b < 6 ==> download_flags()[a] != download_flags()[b],
{
    reveal_strlit("--video-only");
    reveal_strlit("--audio-only");
    reveal_strlit("--sub-only");
    reveal_strlit("--cover-only");
    reveal_strlit("--skip-subtitle");
    reveal_strlit("--skip-cover");
    let f = download_flags();
    assert(f[0][2] != f[1][2]);
    assert(f[0][2] != f[2][2]);
    assert(f[0][2] != f[3][2]);
    assert(f[0][2] != f[4][2]);
    assert(f[0][2] != f[5][2]);
    assert(f[1][2] != f[2][2]);
    assert(f[1][2] != f[3][2]);
    assert(f[1][2] != f[4][2]);
    assert(f[1][2] != f[5][2]);
    assert(f[2][2] != f[3][2]);
    assert(f[2][3] != f[4][3]);
    assert(f[2][3] != f[5][3]);
    assert(f[3][2] != f[4][2]);
    assert(f[3][2] != f[5][2]);
    assert(f[4].len() != f[5].len());
}

proof fn lemma_optional_flag(cond: bool, flag: Seq<char>, x: Seq<char>)
    ensures
        (if cond { seq![flag] } else { Seq::<Seq<char>>::empty() }).contains(x) <==> (cond && x == flag),
{
    if cond {
        assert(seq![flag][0] == flag);
    }
}

/// The flags of the choices made, in order.
pub open spec fn flags_chosen(
    video_only: bool,
    audio_only: bool,
    sub_only: bool,
    cover_only: bool,
    skip_sub: bool,
    skip_cover: bool,
) -> Seq<Seq<char>> {
    (if video_only { seq![download_flags()[0]] } else { Seq::<Seq<char>>::empty() })
        + (if audio_only { seq![download_flags()[1]] } else { Seq::<Seq<char>>::empty() })
        + (if sub_only { seq![download_flags()[2]] } else { Seq::<Seq<char>>::empty() })
        + (if cover_only { seq![download_flags()[3]] } else { Seq::<Seq<char>>::empty() })
        + (if skip_sub { seq![download_flags()[4]] } else { Seq::<Seq<char>>::empty() })
        + (if skip_cover { seq![download_flags()[5]] } else { Seq::<Seq<char>>::empty() })
}

proof fn lemma_flags_chosen_members(
    c0: bool,
    c1: bool,
    c2: bool,
    c3: bool,
    c4: bool,
    c5: bool,
    x: Seq<char>,
)
    ensures
        flags_chosen(c0, c1, c2, c3, c4, c5).contains(x) <==> ((c0 && x == download_flags()[0]) || (c1 && x
            == download_flags()[1]) || (c2 && x == download_flags()[2]) || (c3 && x == download_flags()[3]) || (c4
            && x == download_flags()[4]) || (c5 && x == download_flags()[5])),
{
    let f = download_flags();
    let p0 = if c0 { seq![f[0]] } else { Seq::<Seq<char>>::empty() };
    let p1 = if c1 { seq![f[1]] } else { Seq::<Seq<char>>::empty() };
    let p2 = if c2 { seq![f[2]] } else { Seq::<Seq<char>>::empty() };
    let p3 = if c3 { seq![f[3]] } else { Seq::<Seq<char>>::empty() };
    let p4 = if c4 { seq![f[4]] } else { Seq::<Seq<char>>::empty() };
    let p5 = if c5 { seq![f[5]] } else { Seq::<Seq<char>>::empty() };
    crate::text::lemma_add_contains(p0 + p1 + p2 + p3 + p4, p5, x);
    crate::text::lemma_add_contains(p0 + p1 + p2 + p3, p4, x);
    crate::text::lemma_add_contains(p0 + p1 + p2, p3, x);
    crate::text::lemma_add_contains(p0 + p1, p2, x);
    crate::text::lemma_add_contains(p0, p1, x);
    lemma_optional_flag(c0, f[0], x);
    lemma_optional_flag(c1, f[1], x);
    lemma_optional_flag(c2, f[2], x);
    lemma_optional_flag(c3, f[3], x);
    lemma_optional_flag(c4, f[4], x);
    lemma_optional_flag(c5, f[5], x);
}

/// A flag of the list is among the chosen ones exactly when its choice is made.
proof fn lemma_flag_chosen_iff(c: Seq<bool>, a: int)
    requires
        c.len() == 6,
        0 <= a < 6,
    ensures
        flags_chosen(c[0], c[1], c[2], c[3], c[4], c[5]).contains(download_flags()[a]) <==> c[a],
{
    lemma_flags_distinct();
    lemma_flags_chosen_members(c[0], c[1], c[2], c[3], c[4], c[5], download_flags()[a]);
}

/// The downloader is handed `--work-dir` first, then the working directory when one
/// is given, and then each choice's flag exactly when that choice is made: a flag
/// appears among the rest of the options if and only if its choice is made, and no
/// other option appears there.
pub proof fn lemma_download_options_flags(
    work_dir: Seq<char>,
    video_only: bool,
    audio_only: bool,
    sub_only: bool,
    cover_only: bool,
    skip_sub: bool,
    skip_cover: bool,
)
    ensures
        ({
            let o = downloader_options(work_dir, video_only, audio_only, sub_only, cover_only, skip_sub, skip_cover);
            let rest = chosen_flags(o, work_dir);
            &&& o[0] == "--work-dir"@
            &&& work_dir.len() > 0 ==> o[1] == work_dir
            &&& rest.contains("--video-only"@) <==> video_only
            &&& rest.contains("--audio-only"@) <==> audio_only
            &&& rest.contains("--sub-only"@) <==> sub_only
            &&& rest.contains("--cover-only"@) <==> cover_only
            &&& rest.contains("--skip-subtitle"@) <==> skip_sub
            &&& rest.contains("--skip-cover"@) <==> skip_cover
            &&& forall|k: int| 0 <= k < rest.len() ==> download_flags().contains(#[trigger] rest[k])
        }),
{
    lemma_options_split(work_dir, video_only, audio_only, sub_only, cover_only, skip_sub, skip_cover);
    let c = seq![video_only, audio_only, sub_only, cover_only, skip_sub, skip_cover];
    lemma_chosen_flags_law(c);
}

/// The options before the flags: `--work-dir` and the directory, when one is given.
pub open spec fn options_head(work_dir: Seq<char>) -> Seq<Seq<char>> {
    seq!["--work-dir"@] + (if work_dir.len() > 0 { seq![work_dir] } else { Seq::<Seq<char>>::empty() })
}

proof fn lemma_options_concat(
    work_dir: Seq<char>,
    video_only: bool,
    audio_only: bool,
    sub_only: bool,
    cover_only: bool,
    skip_sub: bool,
    skip_cover: bool,
)
    ensures
        downloader_options(work_dir, video_only, audio_only, sub_only, cover_only, skip_sub, skip_cover)
            == options_head(work_dir) + flags_chosen(video_only, audio_only, sub_only, cover_only, skip_sub, skip_cover),
{
    let f = download_flags();
    assert(f[0] == "--video-only"@ && f[1] == "--audio-only"@ && f[2] == "--sub-only"@);
    assert(f[3] == "--cover-only"@ && f[4] == "--skip-subtitle"@ && f[5] == "--skip-cover"@);
    let e = Seq::<Seq<char>>::empty();
    let h = options_head(work_dir);
    let p0 = if video_only { seq!["--video-only"@] } else { e };
    let p1 = if audio_only { seq!["--audio-only"@] } else { e };
    let p2 = if sub_only { seq!["--sub-only"@] } else { e };
    let p3 = if cover_only { seq!["--cover-only"@] } else { e };
    let p4 = if skip_sub { seq!["--skip-subtitle"@] } else { e };
    let p5 = if skip_cover { seq!["--skip-cover"@] } else { e };
    assert(flags_chosen(video_only, audio_only, sub_only, cover_only, skip_sub, skip_cover)
        == p0 + p1 + p2 + p3 + p4 + p5);
    lemma_concat_associative(h, p0, p1);
    lemma_concat_associative(h, p0 + p1, p2);
    lemma_concat_associative(h, p0 + p1 + p2, p3);
    lemma_concat_associative(h, p0 + p1 + p2 + p3, p4);
    lemma_concat_associative(h, p0 + p1 + p2 + p3 + p4, p5);
}

proof fn lemma_options_split(
    work_dir: Seq<char>,
    video_only: bool,
    audio_only: bool,
    sub_only: bool,
    cover_only: bool,
    skip_sub: bool,
    skip_cover: bool,
)
    ensures
        ({
            let o = downloader_options(work_dir, video_only, audio_only, sub_only, cover_only, skip_sub, skip_cover);
            &&& o[0] == "--work-dir"@
            &&& work_dir.len() > 0 ==> o[1] == work_dir
            &&& chosen_flags(o, work_dir) == flags_chosen(video_only, audio_only, sub_only, cover_only, skip_sub, skip_cover)
        }),
{
    lemma_options_concat(work_dir, video_only, audio_only, sub_only, cover_only, skip_sub, skip_cover);
    let h = options_head(work_dir);
    let rest = flags_chosen(video_only, audio_only, sub_only, cover_only, skip_sub, skip_cover);
    assert((h + rest).skip(h.len() as int) =~= rest);
    assert((h + rest)[0] == h[0]);
    if work_dir.len() > 0 {
        assert((h + rest)[1] == h[1]);
    }
}

proof fn lemma_chosen_flags_law(c: Seq<bool>)
    requires
        c.len() == 6,
    ensures
        ({
            let rest = flags_chosen(c[0], c[1], c[2], c[3], c[4], c[5]);
            &&& rest.contains("--video-only"@) <==> c[0]
            &&& rest.contains("--audio-only"@) <==> c[1]
            &&& rest.contains("--sub-only"@) <==> c[2]
            &&& rest.contains("--cover-only"@) <==> c[3]
            &&& rest.contains("--skip-subtitle"@) <==> c[4]
            &&& rest.contains("--skip-cover"@) <==> c[5]
            &&& forall|k: int| 0 <= k < rest.len() ==> download_flags().contains(#[trigger] rest[k])
        }),
{
    let f = download_flags();
    let rest = flags_chosen(c[0], c[1], c[2], c[3], c[4], c[5]);
    lemma_flag_chosen_iff(c, 0);
    lemma_flag_chosen_iff(c, 1);
    lemma_flag_chosen_iff(c, 2);
    lemma_flag_chosen_iff(c, 3);
    lemma_flag_chosen_iff(c, 4);
    lemma_flag_chosen_iff(c, 5);
    assert forall|k: int| 0 <= k < rest.len() implies f.contains(#[trigger] rest[k]) by {
        assert(rest.contains(rest[k]));
        lemma_flags_chosen_members(c[0], c[1], c[2], c[3], c[4], c[5], rest[k]);
        if rest[k] == f[0] {
            assert(f[0] == rest[k]);
        } else if rest[k] == f[1] {
            assert(f[1] == rest[k]);
        } else if rest[k] == f[2] {
            assert(f[2] == rest[k]);
        } else if rest[k] == f[3] {
            assert(f[3] == rest[k]);
        } else if rest[k] == f[4] {
            assert(f[4] == rest[k]);
        } else {
            assert(f[5] == rest[k]);
        }
    }
}

fn push_if(v: &mut Vec<String>, cond: bool, s: &str)
    ensures
        string_views(final(v)@) == string_views(old(v)@) + (if cond { seq![s@] } else { Seq::<Seq<char>>::empty() }),
{
    if cond {
        v.push(s.to_string());
    }
    assert(string_views(v@) =~= string_views(old(v)@) + (if cond { seq![s@] } else { Seq::<Seq<char>>::empty() }));
}

/// The downloader's options for these choices.
pub fn download_options(
    work_dir: &str,
    video_only: bool,
    audio_only: bool,
    sub_only: bool,
    cover_only: bool,
    skip_sub: bool,
    skip_cover: bool,
) -> (r: Vec<String>)
    ensures
        string_views(r@) == downloader_options(work_dir@, video_only, audio_only, sub_only, cover_only, skip_sub, skip_cover),
        ({
            let o = string_views(r@);
            let rest = chosen_flags(o, work_dir@);
            &&& o[0] == "--work-dir"@
            &&& work_dir@.len() > 0 ==> o[1] == work_dir@
            &&& rest.contains("--video-only"@) <==> video_only
            &&& rest.contains("--audio-only"@) <==> audio_only
            &&& rest.contains("--sub-only"@) <==> sub_only
            &&& rest.contains("--cover-only"@) <==> cover_only
            &&& rest.contains("--skip-subtitle"@) <==> skip_sub
            &&& rest.contains("--skip-cover"@) <==> skip_cover
            &&& forall|k: int| 0 <= k < rest.len() ==> download_flags().contains(#[trigger] rest[k])
        }),
{
    let mut v: Vec<String> = Vec::new();
    assert(string_views(v@) =~= Seq::<Seq<char>>::empty());
    push_if(&mut v, true, "--work-dir");
    let nonempty = chars_of(work_dir).len() > 0;
    push_if(&mut v, nonempty, work_dir);
    push_if(&mut v, video_only, "--video-only");
    push_if(&mut v, audio_only, "--audio-only");
    push_if(&mut v, sub_only, "--sub-only");
    push_if(&mut v, cover_only, "--cover-only");
    push_if(&mut v, skip_sub, "--skip-subtitle");
    push_if(&mut v, skip_cover, "--skip-cover");
    proof {
        reveal_strlit("--work-dir");
    }
    assert(string_views(v@) =~= downloader_options(work_dir@, video_only, audio_only, sub_only, cover_only, skip_sub, skip_cover));
    proof {
        lemma_download_options_flags(work_dir@, video_only, audio_only, sub_only, cover_only, skip_sub, skip_cover);
    }
    v
}

/// Whether a directory name is all ASCII digits (the empty name counts), the mark of
/// a failed download's leftover directory.
pub fn is_numeric_name(name: &str) -> (b: bool)
    ensures
        b == crate::text::all_digits(name@),
{
    let cs = chars_of(name);
    let mut k: usize = 0;
    while k < cs.len()
        invariant
            k <= cs.len(),
            cs@ == name@,
            forall|q: int| 0 <= q < k ==> crate::text::is_digit(#[trigger] cs@[q]),
        decreases cs.len() - k,
    {
        if !('0' <= cs[k] && cs[k] <= '9') {
            assert(!crate::text::is_digit(cs@[k as int]));
            return false;
        }
        k = k + 1;
    }
    true
}

/// The range of seconds to wait between downloads, from half to two thirds of the
/// interval (each rounded down); none when that range is empty.
pub fn pause_bounds(interval: u64) -> (r: Option<(u64, u64)>)
    ensures
        interval / 2 <= interval / 3 * 2 ==> r == Some((interval / 2, (interval / 3 * 2) as u64)),
        interval / 2 > interval / 3 * 2 ==> r is None,
{
    let lo = interval / 2;
    let hi = interval / 3 * 2;
    if lo <= hi {
        Some((lo, hi))
    } else {
        None
    }
}

} // verus!
