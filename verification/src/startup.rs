//! Startup shortcuts and absolute paths: shortcut names, the working directory of a
//! shortcut, and making a path absolute against the current directory.

use vstd::prelude::*;
use crate::paths::{extension, extension_of, file_stem, file_stem_of, join, join_chars, parent_of, path_parent};
use crate::text::{chars_of, concat, equal_chars, string_of};

verus! {

/// Name for the text `char::to_uppercase` gives for a character (Unicode upper case,
/// one or more characters).
pub uninterp spec fn upper_case(c: char) -> Seq<char>;

/// Calls `char::to_uppercase` and collects the characters; the text is named
/// `upper_case(c)`. For ASCII, as Unicode upper-casing does, `a`..`z` become `A`..`Z`
/// and every other ASCII character stays as it is.
#[verifier::external_body]
fn char_upper(c: char) -> (s: String)
    ensures
        s@ == upper_case(c),
        'a' <= c <= 'z' ==> s@ == seq![((c as u32) - 32) as char],
        (c as u32) < 128 && !('a' <= c <= 'z') ==> s@ == seq![c],
{
    c.to_uppercase().collect::<String>()
}

/// `s` with its first character upper-cased (which may give more than one character).
pub open spec fn capitalized(s: Seq<char>) -> Seq<char> {
    if s.len() == 0 {
        s
    } else {
        upper_case(s[0]) + s.drop_first()
    }
}

/// The text with its first letter capitalized.
pub fn capitalize_first_letter(s: &str) -> (r: String)
    ensures
        r@ == capitalized(s@),
        s@.len() > 0 && 'a' <= s@[0] <= 'z' ==> r@ == seq![((s@[0] as u32) - 32) as char] + s@.drop_first(),
        s@.len() > 0 && (s@[0] as u32) < 128 && !('a' <= s@[0] <= 'z') ==> r@ == s@,
{
    let cs = chars_of(s);
    if cs.len() == 0 {
        return String::new();
    }
    let first = char_upper(cs[0]);
    let mut v = chars_of(first.as_str());
    let mut i: usize = 1;
    let ghost head = v@;
    while i < cs.len()
        invariant
            1 <= i <= cs.len(),
            v@ == head + cs@.subrange(1, i as int),
        decreases cs.len() - i,
    {
        v.push(cs[i]);
        i = i + 1;
        assert(v@ =~= head + cs@.subrange(1, i as int));
    }
    assert(cs@.subrange(1, cs.len() as int) =~= cs@.drop_first());
    assert(cs@ =~= seq![cs@[0]] + cs@.drop_first());
    string_of(&v)
}

/// A relative path is resolved against `cwd`; an absolute one (starting with `/`) is
/// kept.
pub open spec fn absolute(path: Seq<char>, cwd: Seq<char>) -> Seq<char> {
    if path.len() > 0 && path[0] == '/' {
        path
    } else {
        join(cwd, path)
    }
}

/// The path made absolute against the current directory `cwd`.
pub fn convert_to_absolute(path: &str, cwd: &str) -> (r: String)
    ensures
        r@ == absolute(path@, cwd@),
{
    let p = chars_of(path);
    if p.len() > 0 && p[0] == '/' {
        path.to_string()
    } else {
        string_of(&join_chars(&chars_of(cwd), &p))
    }
}

/// Name for what `Path::strip_prefix` leaves of `path` after the components of
/// `prefix`, if `path` starts with them.
pub uninterp spec fn stripped_prefix(path: Seq<char>, prefix: Seq<char>) -> Option<Seq<char>>;

/// Calls `Path::strip_prefix`; what it leaves is named `stripped_prefix`.
#[verifier::external_body]
pub(crate) fn strip_prefix_of(path: &str, prefix: &str) -> (r: Option<String>)
    ensures
        r matches Some(q) ==> stripped_prefix(path@, prefix@) == Some(q@),
        r is None ==> stripped_prefix(path@, prefix@) is None,
{
    std::path::Path::new(path).strip_prefix(prefix).ok().map(|q| q.to_string_lossy().to_string())
}

/// A path made absolute the way the image classifier does it: absolute paths are kept;
/// a path that starts with `./` is resolved without that prefix; any other is joined
/// to `cwd` as it is.
pub open spec fn absolute_without_dot(path: Seq<char>, cwd: Seq<char>) -> Seq<char> {
    if path.len() > 0 && path[0] == '/' {
        path
    } else {
        match stripped_prefix(path, "./"@) {
            Some(rest) => join(cwd, rest),
            None => join(cwd, path),
        }
    }
}

/// The path made absolute against `cwd`, a leading `./` dropped.
pub fn as_abs(path: &str, cwd: &str) -> (r: String)
    ensures
        r@ == absolute_without_dot(path@, cwd@),
{
    let p = chars_of(path);
    if p.len() > 0 && p[0] == '/' {
        return path.to_string();
    }
    let c = chars_of(cwd);
    match strip_prefix_of(path, "./") {
        Some(rest) => string_of(&join_chars(&c, &chars_of(rest.as_str()))),
        None => string_of(&join_chars(&c, &p)),
    }
}

/// The file name of the shortcut called `name`.
pub fn shortcut_file_name(name: &str) -> (r: String)
    ensures
        r@ == name@ + ".lnk"@,
{
    concat(name, ".lnk")
}

/// The working directory of a shortcut: the one given, made absolute, or else the
/// directory of the (absolute) application path; none where that path has no parent.
pub fn shortcut_working_dir(given: Option<&str>, abs_app_path: &str, cwd: &str) -> (r: Option<String>)
    ensures
        given matches Some(g) ==> (r matches Some(w) && w@ == absolute(g@, cwd@)),
        given is None ==> match path_parent(abs_app_path@) {
            Some(q) => r matches Some(w) && w@ == q,
            None => r is None,
        },
{
    match given {
        Some(g) => Some(convert_to_absolute(g, cwd)),
        None => parent_of(abs_app_path),
    }
}

/// The name listed for a file of the startup directory: the stem of a `.lnk` file.
pub open spec fn listed_shortcut(path: Seq<char>) -> Option<Seq<char>> {
    if extension(path) == Some("lnk"@) {
        file_stem(path)
    } else {
        None
    }
}

/// The shortcut name of a file of the startup directory, if it is a shortcut.
pub fn shortcut_name(path: &str) -> (r: Option<String>)
    ensures
        r matches Some(n) ==> listed_shortcut(path@) == Some(n@),
        r is None ==> listed_shortcut(path@) is None,
{
    let p = chars_of(path);
    let is_lnk = match extension_of(&p) {
        Some(e) => equal_chars(&e, &chars_of("lnk")),
        None => false,
    };
    if is_lnk {
        match file_stem_of(&p) {
            Some(s) => Some(string_of(&s)),
            None => None,
        }
    } else {
        None
    }
}

} // verus!
