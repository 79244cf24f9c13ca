//! Unix paths held as character sequences: the file name, stem and extension that
//! `std::path::Path` reports, and joining.

use vstd::prelude::*;
use crate::text::{extend_range, split_chars, split_on, views, lemma_split_on_nonempty};

verus! {

/// The component is empty or `.`, which `Path` skips when it names the file.
pub open spec fn skipped_component(c: Seq<char>) -> bool {
    c.len() == 0 || c == seq!['.']
}

/// The last component among the first `n` that is neither empty nor `.`.
pub open spec fn last_named(cs: Seq<Seq<char>>, n: int) -> Option<Seq<char>>
    decreases n,
{
    if n <= 0 {
        None
    } else if skipped_component(cs[n - 1]) {
        last_named(cs, n - 1)
    } else {
        Some(cs[n - 1])
    }
}

/// The final component of the path, as `Path::file_name` gives it: trailing `/` and
/// `.` components are passed over, and a final `..` has no file name.
pub open spec fn file_name(p: Seq<char>) -> Option<Seq<char>> {
    let cs = split_on(p, '/');
    match last_named(cs, cs.len() as int) {
        Some(c) => if c == seq!['.', '.'] {
            None
        } else {
            Some(c)
        },
        None => None,
    }
}

/// The index of the last `.` in `f`, or -1.
pub open spec fn last_dot(f: Seq<char>) -> int
    decreases f.len(),
{
    if f.len() == 0 {
        -1
    } else if f.last() == '.' {
        f.len() - 1
    } else {
        last_dot(f.drop_last())
    }
}

/// The extension of a file name: the text after its last `.`, unless there is no `.`
/// or the only `.` it could use starts the name.
pub open spec fn name_extension(f: Seq<char>) -> Option<Seq<char>> {
    if last_dot(f) > 0 {
        Some(f.skip(last_dot(f) + 1))
    } else {
        None
    }
}

/// The stem of a file name: the text before its last `.`, or the whole name where
/// `name_extension` finds no extension.
pub open spec fn name_stem(f: Seq<char>) -> Seq<char> {
    if last_dot(f) > 0 {
        f.take(last_dot(f))
    } else {
        f
    }
}

/// `Path::extension` of the path.
pub open spec fn extension(p: Seq<char>) -> Option<Seq<char>> {
    match file_name(p) {
        Some(f) => name_extension(f),
        None => None,
    }
}

/// `Path::file_stem` of the path.
pub open spec fn file_stem(p: Seq<char>) -> Option<Seq<char>> {
    match file_name(p) {
        Some(f) => Some(name_stem(f)),
        None => None,
    }
}

/// `base` joined with `rel` as `Path::join` does on Unix: an absolute `rel` replaces
/// `base`; otherwise a `/` goes between them unless `base` is empty or ends in `/`.
pub open spec fn join(base: Seq<char>, rel: Seq<char>) -> Seq<char> {
    if rel.len() > 0 && rel[0] == '/' {
        rel
    } else if base.len() == 0 || base.last() == '/' {
        base + rel
    } else {
        base + seq!['/'] + rel
    }
}

/// Joining the same base to two texts that start with the same character gives
/// equal paths only for equal texts.
pub(crate) proof fn lemma_join_injective(base: Seq<char>, r1: Seq<char>, r2: Seq<char>)
    requires
        r1.len() > 0,
        r2.len() > 0,
        r1[0] == r2[0],
        join(base, r1) == join(base, r2),
    ensures
        r1 == r2,
{
    let j1 = join(base, r1);
    let j2 = join(base, r2);
    if r1[0] == '/' {
    } else if base.len() == 0 || base.last() == '/' {
        assert(r1 =~= j1.skip(base.len() as int));
        assert(r2 =~= j2.skip(base.len() as int));
    } else {
        assert(r1 =~= j1.skip(base.len() + 1int));
        assert(r2 =~= j2.skip(base.len() + 1int));
    }
}

/// Joining the same base to texts of different lengths gives different paths when
/// the texts start with the same character.
pub(crate) proof fn lemma_join_len(base: Seq<char>, r1: Seq<char>, r2: Seq<char>)
    requires
        r1.len() > 0,
        r2.len() > 0,
        r1[0] == r2[0],
    ensures
        join(base, r1).len() - r1.len() == join(base, r2).len() - r2.len(),
{
}

pub(crate) proof fn lemma_last_dot_range(f: Seq<char>)
    ensures
        -1 <= last_dot(f) < f.len(),
        last_dot(f) >= 0 ==> f[last_dot(f)] == '.',
        forall|j: int| last_dot(f) < j < f.len() ==> f[j] != '.',
    decreases f.len(),
{
    if f.len() > 0 && f.last() != '.' {
        lemma_last_dot_range(f.drop_last());
        assert forall|j: int| last_dot(f) < j < f.len() implies f[j] != '.' by {
            if j < f.len() - 1 {
                assert(f[j] == f.drop_last()[j]);
            }
        }
    }
}

/// The index of the last `.` in `f`, if any.
fn last_dot_exec(f: &[char]) -> (r: Option<usize>)
    ensures
        r matches Some(i) ==> i == last_dot(f@),
        r is None ==> last_dot(f@) == -1,
{
    let mut i: usize = f.len();
    assert(f@.take(i as int) == f@);
    while i > 0
        invariant
            i <= f.len(),
            last_dot(f@) == last_dot(f@.take(i as int)),
        decreases i,
    {
        assert(f@.take(i as int).drop_last() == f@.take(i as int - 1));
        if f[i - 1] == '.' {
            return Some(i - 1);
        }
        i = i - 1;
    }
    None
}

/// The final component of `p`, as `Path::file_name` gives it.
pub fn file_name_of(p: &[char]) -> (r: Option<Vec<char>>)
    ensures
        r matches Some(v) ==> file_name(p@) == Some(v@),
        r is None ==> file_name(p@) is None,
{
    let cs = split_chars(p, '/');
    let ghost sp = split_on(p@, '/');
    let mut n: usize = cs.len();
    while n > 0
        invariant
            n <= cs.len(),
            views(cs@) == sp,
            sp == split_on(p@, '/'),
            last_named(sp, sp.len() as int) == last_named(sp, n as int),
        decreases n,
    {
        let c = &cs[n - 1];
        assert(c@ == sp[n - 1]);
        if !(c.len() == 0 || (c.len() == 1 && c[0] == '.')) {
            assert(!skipped_component(sp[n - 1]));
            if c.len() == 2 && c[0] == '.' && c[1] == '.' {
                assert(c@ =~= seq!['.', '.']);
                assert(last_named(sp, n as int) == Some(sp[n - 1]));
                return None;
            }
            assert(c@ != seq!['.', '.']);
            assert(last_named(sp, n as int) == Some(sp[n - 1]));
            assert(file_name(p@) == Some(c@));
            return Some(c.clone());
        }
        assert(c@.len() == 1 ==> c@ =~= seq!['.']);
        n = n - 1;
    }
    None
}

/// The extension of the file name `f`, where it has one.
pub fn name_extension_of(f: &[char]) -> (r: Option<Vec<char>>)
    ensures
        r matches Some(v) ==> name_extension(f@) == Some(v@),
        r is None ==> name_extension(f@) is None,
{
    let d: usize = match last_dot_exec(f) {
        Some(d) => d,
        None => 0,
    };
    proof {
        lemma_last_dot_range(f@);
    }
    assert(d == (if last_dot(f@) > 0 { last_dot(f@) } else { 0 }));
    assert(d < f@.len() || d == 0);
    if d > 0 && d < f.len() {
        let mut v: Vec<char> = Vec::new();
        let mut i: usize = d + 1;
        let start: usize = i;
        while i < f.len()
            invariant
                start == last_dot(f@) + 1,
                start <= i <= f.len(),
                v@ == f@.subrange(start as int, i as int),
            decreases f.len() - i,
        {
            v.push(f[i]);
            i = i + 1;
            assert(v@ =~= f@.subrange(start as int, i as int));
        }
        assert(f@.subrange(start as int, f@.len() as int) =~= f@.skip(start as int));
        Some(v)
    } else {
        None
    }
}

/// The stem of the file name `f`.
pub fn name_stem_of(f: &[char]) -> (v: Vec<char>)
    ensures
        v@ == name_stem(f@),
{
    let d: usize = match last_dot_exec(f) {
        Some(d) => d,
        None => 0,
    };
    proof {
        lemma_last_dot_range(f@);
    }
    let end: usize = if d > 0 { d } else { f.len() };
    let mut v: Vec<char> = Vec::new();
    let mut i: usize = 0;
    while i < end
        invariant
            end <= f.len(),
            end == (if last_dot(f@) > 0 { last_dot(f@) } else { f@.len() as int }),
            i <= end,
            v@ == f@.take(i as int),
        decreases end - i,
    {
        v.push(f[i]);
        i = i + 1;
        assert(v@ =~= f@.take(i as int));
    }
    assert(d <= 0 ==> f@.take(end as int) =~= f@);
    v
}

/// `Path::extension` of `p`.
pub fn extension_of(p: &[char]) -> (r: Option<Vec<char>>)
    ensures
        r matches Some(v) ==> extension(p@) == Some(v@),
        r is None ==> extension(p@) is None,
{
    match file_name_of(p) {
        Some(f) => {
            proof {
                lemma_file_name_shorter(p@);
            }
            name_extension_of(&f)
        },
        None => None,
    }
}

/// `Path::file_stem` of `p`.
pub fn file_stem_of(p: &[char]) -> (r: Option<Vec<char>>)
    ensures
        r matches Some(v) ==> file_stem(p@) == Some(v@),
        r is None ==> file_stem(p@) is None,
{
    match file_name_of(p) {
        Some(f) => {
            proof {
                lemma_file_name_shorter(p@);
            }
            Some(name_stem_of(&f))
        },
        None => None,
    }
}

proof fn lemma_split_pieces_shorter(s: Seq<char>, sep: char)
    ensures
        forall|k: int| 0 <= k < split_on(s, sep).len() ==> #[trigger] split_on(s, sep)[k].len() <= s.len(),
    decreases s.len(),
{
    if s.len() > 0 {
        lemma_split_pieces_shorter(s.drop_last(), sep);
        lemma_split_on_nonempty(s.drop_last(), sep);
    }
}

proof fn lemma_last_named_member(cs: Seq<Seq<char>>, n: int)
    requires
        n <= cs.len(),
    ensures
        last_named(cs, n) matches Some(c) ==> exists|k: int| 0 <= k < n && cs[k] == c,
    decreases n,
{
    if n > 0 && skipped_component(cs[n - 1]) {
        lemma_last_named_member(cs, n - 1);
    }
}

proof fn lemma_file_name_shorter(p: Seq<char>)
    ensures
        file_name(p) matches Some(f) ==> f.len() <= p.len(),
{
    let cs = split_on(p, '/');
    lemma_split_pieces_shorter(p, '/');
    lemma_last_named_member(cs, cs.len() as int);
}

/// The last piece of `a + b` split at `sep` is `b`, where `b` holds no `sep` and `a`
/// is empty or ends in `sep`.
proof fn lemma_split_last(a: Seq<char>, b: Seq<char>, sep: char)
    requires
        forall|i: int| 0 <= i < b.len() ==> b[i] != sep,
        a.len() == 0 || a.last() == sep,
    ensures
        split_on(a + b, sep).len() >= 1,
        split_on(a + b, sep).last() == b,
    decreases b.len(),
{
    lemma_split_on_nonempty(a + b, sep);
    if b.len() == 0 {
        assert(a + b =~= a);
        if a.len() > 0 {
            lemma_split_on_nonempty(a.drop_last(), sep);
        }
    } else {
        lemma_split_last(a, b.drop_last(), sep);
        assert((a + b).drop_last() =~= a + b.drop_last());
        assert((a + b).last() == b.last());
        assert(b.drop_last().push(b.last()) =~= b);
    }
}

/// A name that holds no `/` and is neither empty, `.` nor `..` is the file name of
/// any path it is joined to.
pub(crate) proof fn lemma_file_name_of_join(base: Seq<char>, name: Seq<char>)
    requires
        name.len() > 0,
        forall|i: int| 0 <= i < name.len() ==> name[i] != '/',
        name != seq!['.'],
        name != seq!['.', '.'],
    ensures
        file_name(join(base, name)) == Some(name),
{
    let a = if base.len() == 0 || base.last() == '/' { base } else { base + seq!['/'] };
    assert(join(base, name) =~= a + name);
    lemma_split_last(a, name, '/');
    let cs = split_on(a + name, '/');
    assert(cs[cs.len() - 1] == name);
}

/// A file name without `.` has no extension, and its stem is the whole name.
pub(crate) proof fn lemma_name_stem_without_dot(f: Seq<char>)
    requires
        forall|i: int| 0 <= i < f.len() ==> f[i] != '.',
    ensures
        name_stem(f) == f,
        name_extension(f) is None,
{
    lemma_last_dot_range(f);
}

/// `base` joined with `rel` as `Path::join` does on Unix.
pub fn join_chars(base: &[char], rel: &[char]) -> (v: Vec<char>)
    ensures
        v@ == join(base@, rel@),
{
    let mut v: Vec<char> = Vec::new();
    if rel.len() > 0 && rel[0] == '/' {
        crate::text::extend_chars(&mut v, rel);
        assert(v@ =~= rel@);
        return v;
    }
    crate::text::extend_chars(&mut v, base);
    if base.len() > 0 && base[base.len() - 1] != '/' {
        v.push('/');
    }
    crate::text::extend_chars(&mut v, rel);
    v
}

/// The parent of a path as `Path::parent` gives it.
pub uninterp spec fn path_parent(p: Seq<char>) -> Option<Seq<char>>;

/// Whether two paths are equal as `Path` compares them, component by component.
pub uninterp spec fn same_path(a: Seq<char>, b: Seq<char>) -> bool;

/// `Path::parent`. Its documentation says it gives `None` only for a path that
/// ends in a root or prefix or is empty, none of which has a file name, so a path with
/// a file name has a parent. What the parent is, is left to the name `path_parent`.
#[verifier::external_body]
pub(crate) fn parent_of(p: &str) -> (r: Option<String>)
    ensures
        r matches Some(q) ==> path_parent(p@) == Some(q@),
        r is None ==> path_parent(p@) is None,
        file_name(p@) is Some ==> r is Some,
{
    std::path::Path::new(p).parent().map(|q| q.to_string_lossy().to_string())
}

/// `==` on `Path`: the two paths have the same components. Which paths those are, is
/// left to the name `same_path`.
#[verifier::external_body]
pub(crate) fn paths_equal(a: &str, b: &str) -> (r: bool)
    ensures
        r == same_path(a@, b@),
{
    std::path::Path::new(a) == std::path::Path::new(b)
}

/// One past the last character of the final named component of `p`: trailing `/`
/// and `.` components are passed over, as `Path` does.
pub open spec fn name_end(p: Seq<char>) -> int
    decreases p.len(),
{
    if p.len() == 0 {
        0
    } else if p.last() == '/' {
        name_end(p.drop_last())
    } else if p.last() == '.' && (p.len() == 1 || p[p.len() - 2] == '/') {
        name_end(p.drop_last())
    } else {
        p.len() as int
    }
}

/// The index after the last `/` before `e` (0 when there is none).
pub open spec fn name_start(p: Seq<char>, e: int) -> int
    decreases e,
{
    if e <= 0 {
        0
    } else if p[e - 1] == '/' {
        e
    } else {
        name_start(p, e - 1)
    }
}

proof fn lemma_name_bounds(p: Seq<char>, e: int)
    requires
        0 <= e <= p.len(),
    ensures
        0 <= name_start(p, e) <= e,
        forall|i: int| name_start(p, e) <= i < e ==> p[i] != '/',
        name_start(p, e) > 0 ==> p[name_start(p, e) - 1] == '/',
    decreases e,
{
    if e > 0 && p[e - 1] != '/' {
        lemma_name_bounds(p, e - 1);
    }
}

proof fn lemma_last_named_prefix(s: Seq<Seq<char>>, t: Seq<Seq<char>>, k: int)
    requires
        0 <= k <= s.len(),
        k <= t.len(),
        forall|i: int| 0 <= i < k ==> s[i] == t[i],
    ensures
        last_named(s, k) == last_named(t, k),
    decreases k,
{
    if k > 0 {
        lemma_last_named_prefix(s, t, k - 1);
    }
}

/// The file name of a path is its final named component: the text between
/// `name_start` and `name_end`, and what follows it (if anything) starts with `/`.
pub(crate) proof fn lemma_file_name_place(p: Seq<char>)
    requires
        file_name(p) is Some,
    ensures
        0 <= name_start(p, name_end(p)) <= name_end(p) <= p.len(),
        file_name(p)->0 == p.subrange(name_start(p, name_end(p)), name_end(p)),
        name_end(p) < p.len() ==> p[name_end(p)] == '/',
    decreases p.len(),
{
    lemma_name_end(p);
    lemma_split_on_nonempty(p, '/');
    let cs = split_on(p, '/');
    if p.len() == 0 {
        assert(cs == seq![Seq::<char>::empty()]);
        assert(last_named(cs, 1) == last_named(cs, 0));
        assert(false);
    }
    let dl = p.drop_last();
    lemma_split_on_nonempty(dl, '/');
    let ds = split_on(dl, '/');
    if p.last() == '/' {
        assert(cs == ds.push(Seq::<char>::empty()));
        lemma_last_named_prefix(cs, ds, ds.len() as int);
        assert(last_named(cs, cs.len() as int) == last_named(cs, ds.len() as int));
        assert(file_name(p) == file_name(dl));
        lemma_file_name_place(dl);
        assert(name_end(p) == name_end(dl));
        lemma_name_bounds(p, name_end(p));
        lemma_name_bounds(dl, name_end(p));
        assert forall|i: int| 0 <= i < name_end(p) implies p[i] == dl[i] by {}
        assert(name_start(p, name_end(p)) == name_start(dl, name_end(p))) by {
            lemma_name_start_same(p, dl, name_end(p));
        }
        assert(p.subrange(name_start(p, name_end(p)), name_end(p)) =~= dl.subrange(
            name_start(p, name_end(p)),
            name_end(p),
        ));
    } else if p.last() == '.' && (p.len() == 1 || p[p.len() - 2] == '/') {
        assert(ds.last() == Seq::<char>::empty()) by {
            if dl.len() > 0 {
                assert(dl.last() == '/');
                lemma_split_on_nonempty(dl.drop_last(), '/');
            }
        }
        assert(cs == ds.update(ds.len() - 1, ds.last().push('.')));
        assert(cs[cs.len() - 1] =~= seq!['.']);
        lemma_last_named_prefix(cs, ds, ds.len() - 1);
        assert(file_name(p) == file_name(dl));
        lemma_file_name_place(dl);
        assert(name_end(p) == name_end(dl));
        if dl.len() > 0 {
            assert(dl.last() == '/');
            assert(name_end(dl) == name_end(dl.drop_last()));
            lemma_name_end(dl.drop_last());
        }
        lemma_name_bounds(p, name_end(p));
        lemma_name_bounds(dl, name_end(p));
        assert(name_start(p, name_end(p)) == name_start(dl, name_end(p))) by {
            lemma_name_start_same(p, dl, name_end(p));
        }
        assert(p.subrange(name_start(p, name_end(p)), name_end(p)) =~= dl.subrange(
            name_start(p, name_end(p)),
            name_end(p),
        ));
    } else {
        let e = p.len() as int;
        assert(name_end(p) == e);
        lemma_name_bounds(p, e);
        let st = name_start(p, e);
        let a = p.take(st);
        let b = p.skip(st);
        assert(a + b =~= p);
        lemma_split_last(a, b, '/');
        if b.len() == 0 {
            assert(false);
        }
        if b =~= seq!['.'] {
            assert(false);
        }
        assert(!skipped_component(cs[cs.len() - 1]));
        assert(b =~= p.subrange(st, e));
    }
}

proof fn lemma_name_start_same(p: Seq<char>, q: Seq<char>, e: int)
    requires
        0 <= e <= p.len(),
        e <= q.len(),
        forall|i: int| 0 <= i < e ==> p[i] == q[i],
    ensures
        name_start(p, e) == name_start(q, e),
    decreases e,
{
    if e > 0 {
        lemma_name_start_same(p, q, e - 1);
    }
}

/// The path with its extension replaced as `PathBuf::set_extension` does: the path is
/// cut right after the stem of its final component and `.ext` follows unless `ext` is
/// empty; a path whose final component is empty or `..` is kept as it is.
pub open spec fn with_extension(p: Seq<char>, ext: Seq<char>) -> Seq<char> {
    let e = name_end(p);
    let st = name_start(p, e);
    let name = p.subrange(st, e);
    if name.len() == 0 || name == seq!['.', '.'] {
        p
    } else {
        p.take(st + name_stem(name).len()) + if ext.len() > 0 {
            seq!['.'] + ext
        } else {
            Seq::<char>::empty()
        }
    }
}

proof fn lemma_name_end(p: Seq<char>)
    ensures
        0 <= name_end(p) <= p.len(),
    decreases p.len(),
{
    if p.len() > 0 && (p.last() == '/' || (p.last() == '.' && (p.len() == 1 || p[p.len() - 2] == '/'))) {
        lemma_name_end(p.drop_last());
    }
}

proof fn lemma_name_start(p: Seq<char>, e: int)
    requires
        0 <= e <= p.len(),
    ensures
        0 <= name_start(p, e) <= e,
    decreases e,
{
    if e > 0 && p[e - 1] != '/' {
        lemma_name_start(p, e - 1);
    }
}

proof fn lemma_name_stem_len(f: Seq<char>)
    ensures
        name_stem(f).len() <= f.len(),
{
    lemma_last_dot_range(f);
}

/// One past the end of the final named component of `p`.
pub(crate) fn name_end_of(p: &[char]) -> (e: usize)
    ensures
        e == name_end(p@),
{
    let mut e: usize = p.len();
    assert(p@.take(e as int) =~= p@);
    while e > 0 && (p[e - 1] == '/' || (p[e - 1] == '.' && (e == 1 || p[e - 2] == '/')))
        invariant
            e <= p.len(),
            name_end(p@) == name_end(p@.take(e as int)),
        decreases e,
    {
        assert(p@.take(e as int).drop_last() =~= p@.take(e as int - 1));
        e = e - 1;
    }
    proof {
        if e > 0 {
            assert(p@.take(e as int).last() == p@[e - 1]);
            if e >= 2 {
                assert(p@.take(e as int)[e - 2] == p@[e - 2]);
            }
        }
    }
    e
}

/// The index after the last `/` before `e` in `p` (0 when there is none).
pub(crate) fn name_start_of(p: &[char], e: usize) -> (st: usize)
    requires
        e <= p.len(),
    ensures
        st == name_start(p@, e as int),
        st <= e,
{
    let mut st: usize = e;
    while st > 0 && p[st - 1] != '/'
        invariant
            st <= e <= p.len(),
            name_start(p@, e as int) == name_start(p@, st as int),
        decreases st,
    {
        st = st - 1;
    }
    st
}

/// The path with its extension replaced by `ext`.
pub fn with_extension_of(p: &[char], ext: &[char]) -> (r: Vec<char>)
    ensures
        r@ == with_extension(p@, ext@),
{
    let mut e: usize = p.len();
    assert(p@.take(e as int) =~= p@);
    while e > 0 && (p[e - 1] == '/' || (p[e - 1] == '.' && (e == 1 || p[e - 2] == '/')))
        invariant
            e <= p.len(),
            name_end(p@) == name_end(p@.take(e as int)),
        decreases e,
    {
        assert(p@.take(e as int).drop_last() =~= p@.take(e as int - 1));
        e = e - 1;
    }
    proof {
        if e > 0 {
            assert(p@.take(e as int).last() == p@[e - 1]);
            if e >= 2 {
                assert(p@.take(e as int)[e - 2] == p@[e - 2]);
            }
        }
    }
    assert(name_end(p@) == e);
    let mut st: usize = e;
    while st > 0 && p[st - 1] != '/'
        invariant
            st <= e <= p.len(),
            name_start(p@, e as int) == name_start(p@, st as int),
        decreases st,
    {
        st = st - 1;
    }
    let mut name: Vec<char> = Vec::new();
    extend_range(&mut name, p, st, e);
    if name.len() == 0 || (name.len() == 2 && name[0] == '.' && name[1] == '.') {
        if name.len() == 2 {
            assert(name@ =~= seq!['.', '.']);
        }
        let mut out: Vec<char> = Vec::new();
        extend_range(&mut out, p, 0, p.len());
        assert(out@ =~= p@);
        return out;
    }
    assert(name@ != seq!['.', '.']) by {
        if name@ == seq!['.', '.'] {
            assert(name@[0] == '.' && name@[1] == '.');
        }
    }
    let stem = name_stem_of(&name);
    proof {
        lemma_name_stem_len(name@);
    }
    let mut out: Vec<char> = Vec::new();
    extend_range(&mut out, p, 0, st + stem.len());
    assert(out@ =~= p@.take(st + stem@.len()));
    if ext.len() > 0 {
        out.push('.');
        let mut k: usize = 0;
        let ghost base = out@;
        while k < ext.len()
            invariant
                k <= ext.len(),
                out@ == base + ext@.take(k as int),
            decreases ext.len() - k,
        {
            out.push(ext[k]);
            k = k + 1;
            assert(out@ =~= base + ext@.take(k as int));
        }
        assert(ext@.take(ext.len() as int) =~= ext@);
        assert(out@ =~= p@.take(st + stem@.len()) + (seq!['.'] + ext@));
    } else {
        assert(out@ =~= p@.take(st + stem@.len()) + Seq::<char>::empty());
    }
    out
}

} // verus!
