//! Moving the contents of nested directories up into one output directory, and what
//! to do when a destination name is already taken.

use vstd::prelude::*;
use vstd::set_lib::{lemma_int_range, lemma_len_subset, lemma_map_size, set_int_range};
use crate::paths::{last_dot, lemma_file_name_place, lemma_last_dot_range, name_end, name_end_of, name_start, name_start_of, file_name, name_extension, name_stem, file_name_of, name_extension_of, name_stem_of};
use crate::text::{extend_range, is_digit, lemma_decimal_digits, lemma_decimal_same_suffix, chars_of, decimal, extend_chars, push_decimal, string_of};

verus! {

/// Name for what `str::to_lowercase` gives for a text (Unicode lower case).
pub uninterp spec fn lowercase(s: Seq<char>) -> Seq<char>;

/// The ASCII lower case of a character: `A`..`Z` become `a`..`z`, all else is kept.
pub open spec fn ascii_lower(c: char) -> char {
    if 'A' <= c && c <= 'Z' {
        ((c as u32) + 32) as char
    } else {
        c
    }
}

/// Calls `str::to_lowercase`; its result is named `lowercase(s)`. For a text of ASCII
/// characters only, the result maps `A`..`Z` to `a`..`z` and keeps the rest, as Unicode
/// lower-casing does on ASCII.
#[verifier::external_body]
pub(crate) fn to_lowercase_text(s: &str) -> (r: String)
    ensures
        r@ == lowercase(s@),
        (forall|i: int| 0 <= i < s@.len() ==> (#[trigger] s@[i]) as u32 <= 127) ==> r@
            == s@.map_values(|c: char| ascii_lower(c)),
{
    s.to_lowercase()
}

/// How a move treats a destination that already exists.
#[derive(Clone, Copy, Debug)]
pub enum CollisionStrategy {
    /// Pick a free name next to the taken one.
    Auto,
    /// Remove what is there and move into its place.
    Override,
    /// Stop with an error.
    Halt,
}

/// The strategy a lower-cased strategy name selects.
pub open spec fn strategy_named(lowered: Seq<char>) -> Option<CollisionStrategy> {
    if lowered == "auto"@ {
        Some(CollisionStrategy::Auto)
    } else if lowered == "override"@ {
        Some(CollisionStrategy::Override)
    } else if lowered == "halt"@ {
        Some(CollisionStrategy::Halt)
    } else {
        None
    }
}

/// The strategy named by `name`, letter case ignored; none for an unknown name.
pub fn parse_collision_strategy(name: &str) -> (r: Option<CollisionStrategy>)
    ensures
        r == strategy_named(lowercase(name@)),
        (forall|i: int| 0 <= i < name@.len() ==> (#[trigger] name@[i]) as u32 <= 127) ==> r
            == strategy_named(name@.map_values(|c: char| ascii_lower(c))),
{
    let lowered = to_lowercase_text(name);
    let l = lowered.as_str();
    let auto = "auto";
    let over = "override";
    let halt = "halt";
    if crate::text::equal_chars(&chars_of(l), &chars_of(auto)) {
        Some(CollisionStrategy::Auto)
    } else if crate::text::equal_chars(&chars_of(l), &chars_of(over)) {
        Some(CollisionStrategy::Override)
    } else if crate::text::equal_chars(&chars_of(l), &chars_of(halt)) {
        Some(CollisionStrategy::Halt)
    } else {
        None
    }
}

/// What the automatic strategy does with one entry.
#[derive(Clone, Copy, Debug)]
pub enum AutoAction {
    /// Source and destination are the same file: leave it.
    Skip,
    /// The destination is taken: move under a free name next to it.
    Rename,
    /// The destination is free: move there.
    MoveThere,
}

/// The automatic strategy: skip when the destination exists and is the source itself,
/// rename when it exists otherwise, move there when it does not exist.
pub fn auto_action(dest_exists: bool, same_file: bool) -> (a: AutoAction)
    ensures
        dest_exists && same_file ==> a == AutoAction::Skip,
        dest_exists && !same_file ==> a == AutoAction::Rename,
        !dest_exists ==> a == AutoAction::MoveThere,
{
    if dest_exists && same_file {
        AutoAction::Skip
    } else if dest_exists {
        AutoAction::Rename
    } else {
        AutoAction::MoveThere
    }
}

/// The halting strategy: the destination is used as it is; an existing destination
/// stops the whole run, so it is left out here.
pub fn halt_strategy(dest: &str, dest_exists: bool) -> (r: String)
    requires
        !dest_exists,
    ensures
        r@ == dest@,
{
    dest.to_string()
}

/// What happens to one entry moved onto a destination path.
#[derive(Clone, Copy, Debug)]
pub enum CollisionAction {
    /// Leave the entry where it is.
    Skip,
    /// Move it to the destination.
    MoveThere,
    /// Move it under a free name next to the destination.
    Rename,
    /// Remove what is at the destination, then move it there.
    ReplaceThenMove,
    /// The destination is taken and the strategy forbids that: stop the run.
    Stop,
}

/// The action a strategy takes for a destination, given whether it exists and whether
/// it is the source itself.
pub open spec fn collision_action(strategy: CollisionStrategy, dest_exists: bool, same_file: bool) -> CollisionAction {
    match strategy {
        CollisionStrategy::Auto => if dest_exists && same_file {
            CollisionAction::Skip
        } else if dest_exists {
            CollisionAction::Rename
        } else {
            CollisionAction::MoveThere
        },
        CollisionStrategy::Override => if dest_exists {
            CollisionAction::ReplaceThenMove
        } else {
            CollisionAction::MoveThere
        },
        CollisionStrategy::Halt => if dest_exists {
            CollisionAction::Stop
        } else {
            CollisionAction::MoveThere
        },
    }
}

/// Whatever the strategy, an entry whose destination is free is moved there; only a
/// taken destination leads to skipping, renaming, replacing or stopping, and which one
/// the strategy alone decides (the automatic one skipping only the entry itself).
pub proof fn lemma_collision_outcomes(strategy: CollisionStrategy, dest_exists: bool, same_file: bool)
    ensures
        !dest_exists ==> collision_action(strategy, dest_exists, same_file) == CollisionAction::MoveThere,
        dest_exists ==> collision_action(strategy, dest_exists, same_file) != CollisionAction::MoveThere,
        dest_exists && strategy is Auto ==> collision_action(strategy, dest_exists, same_file) == (if same_file {
            CollisionAction::Skip
        } else {
            CollisionAction::Rename
        }),
        dest_exists && strategy is Override ==> collision_action(strategy, dest_exists, same_file)
            == CollisionAction::ReplaceThenMove,
        dest_exists && strategy is Halt ==> collision_action(strategy, dest_exists, same_file) == CollisionAction::Stop,
{
}

/// The action for one entry under a collision strategy.
pub fn handle_collision(strategy: CollisionStrategy, dest_exists: bool, same_file: bool) -> (a: CollisionAction)
    ensures
        a == collision_action(strategy, dest_exists, same_file),
        !dest_exists ==> a == CollisionAction::MoveThere,
        dest_exists && strategy is Auto ==> a == (if same_file { CollisionAction::Skip } else { CollisionAction::Rename }),
        dest_exists && strategy is Override ==> a == CollisionAction::ReplaceThenMove,
        dest_exists && strategy is Halt ==> a == CollisionAction::Stop,
{
    proof {
        lemma_collision_outcomes(strategy, dest_exists, same_file);
    }
    match strategy {
        CollisionStrategy::Auto => match auto_action(dest_exists, same_file) {
            AutoAction::Skip => CollisionAction::Skip,
            AutoAction::Rename => CollisionAction::Rename,
            AutoAction::MoveThere => CollisionAction::MoveThere,
        },
        CollisionStrategy::Override => if dest_exists {
            CollisionAction::ReplaceThenMove
        } else {
            CollisionAction::MoveThere
        },
        CollisionStrategy::Halt => if dest_exists {
            CollisionAction::Stop
        } else {
            CollisionAction::MoveThere
        },
    }
}

/// Where the final component of `p` starts: the text before it is kept when the
/// path is renamed.
pub open spec fn name_dir_len(p: Seq<char>) -> int {
    name_start(p, name_end(p))
}

/// The `i`-th alternative name for a taken path `p`: the file name `stem` becomes
/// `stem_i`, and the original extension is then put back the way
/// `PathBuf::set_extension` does it (replacing whatever `stem_i` itself has after its
/// last dot). The text before the final component stays as it is, and whatever
/// follows the file name (trailing `/` or `/.`) is dropped, as `PathBuf::set_file_name`
/// does.
pub open spec fn renamed_path(p: Seq<char>, i: nat) -> Seq<char> {
    let f = file_name(p)->0;
    let dir = p.take(name_dir_len(p));
    let n = name_stem(f) + seq!['_'] + decimal(i);
    let ext = match name_extension(f) {
        Some(e) => e,
        None => Seq::<char>::empty(),
    };
    dir + name_stem(n) + if ext.len() > 0 {
        seq!['.'] + ext
    } else {
        Seq::<char>::empty()
    }
}

/// The `i`-th alternative name for the taken path `path`.
pub fn rename_candidate(path: &str, i: u64) -> (s: String)
    requires
        file_name(path@) is Some,
    ensures
        s@ == renamed_path(path@, i as nat),
{
    let p = chars_of(path);
    proof {
        lemma_file_name_place(p@);
    }
    let e = name_end_of(&p);
    let st = name_start_of(&p, e);
    let mut out: Vec<char> = Vec::new();
    extend_range(&mut out, &p, 0, st);
    assert(out@ =~= p@.take(st as int));
    let mut f: Vec<char> = Vec::new();
    extend_range(&mut f, &p, st, e);
    assert(f@ =~= p@.subrange(st as int, e as int));
    let ghost dir = out@;
    let mut n = name_stem_of(&f);
    n.push('_');
    push_decimal(&mut n, i);
    assert(n@ == name_stem(f@) + seq!['_'] + decimal(i as nat));
    let ns = name_stem_of(&n);
    extend_chars(&mut out, &ns);
    match name_extension_of(&f) {
        Some(e) => {
            if e.len() > 0 {
                out.push('.');
                extend_chars(&mut out, &e);
                assert(out@ =~= dir + name_stem(n@) + (seq!['.'] + e@));
            } else {
                assert(out@ =~= dir + name_stem(n@) + Seq::<char>::empty());
            }
        },
        None => {
            assert(out@ =~= dir + name_stem(n@) + Seq::<char>::empty());
        },
    }
    string_of(&out)
}

/// `s` is one of the texts of `v`.
pub open spec fn listed(v: Seq<String>, s: Seq<char>) -> bool {
    exists|k: int| 0 <= k < v.len() && (#[trigger] v[k])@ == s
}

/// Different texts that are all among `v` are at most as many as `v` holds.
pub(crate) proof fn lemma_listed_count(v: Seq<String>, names: Set<Seq<char>>)
    requires
        names.finite(),
        forall|x: Seq<char>| #[trigger] names.contains(x) ==> listed(v, x),
    ensures
        names.len() <= v.len(),
{
    let views = v.map_values(|t: String| t@);
    let held = views.to_set();
    views.lemma_cardinality_of_set();
    assert forall|x: Seq<char>| names.contains(x) implies held.contains(x) by {
        let k = choose|k: int| 0 <= k < v.len() && (#[trigger] v[k])@ == x;
        assert(views[k] == x);
    }
    lemma_len_subset(names, held);
}

pub(crate) fn listed_exec(v: &Vec<String>, s: &[char]) -> (b: bool)
    ensures
        b == listed(v@, s@),
{
    let mut k: usize = 0;
    while k < v.len()
        invariant
            k <= v.len(),
            forall|j: int| 0 <= j < k ==> (#[trigger] v@[j])@ != s@,
        decreases v.len() - k,
    {
        if crate::text::equal_chars(&chars_of(v[k].as_str()), s) {
            return true;
        }
        k = k + 1;
    }
    false
}

/// The stem of the path's file name holds no dot, so its alternative names keep the
/// number that was put in.
pub open spec fn dotless_stem(p: Seq<char>) -> bool {
    !name_stem(file_name(p)->0).contains('.')
}

/// What follows the number in an alternative name: the extension after a dot, or
/// nothing.
spec fn renamed_suffix(p: Seq<char>) -> Seq<char> {
    match name_extension(file_name(p)->0) {
        Some(e) => if e.len() > 0 {
            seq!['.'] + e
        } else {
            Seq::<char>::empty()
        },
        None => Seq::<char>::empty(),
    }
}

/// With a dotless stem, the alternative name is the directory, the stem, `_`, the
/// number and the suffix; the path itself has the same directory and stem, followed
/// by a `.` or a `/` or by nothing.
proof fn lemma_renamed_shape(p: Seq<char>, i: nat)
    requires
        file_name(p) is Some,
        dotless_stem(p),
    ensures
        renamed_path(p, i) == p.take(name_dir_len(p)) + name_stem(file_name(p)->0) + seq!['_'] + decimal(i)
            + renamed_suffix(p),
        p.take(name_dir_len(p)) + name_stem(file_name(p)->0) == p.take(name_dir_len(p) + name_stem(file_name(p)->0).len()),
        name_dir_len(p) + name_stem(file_name(p)->0).len() <= p.len(),
        name_dir_len(p) + name_stem(file_name(p)->0).len() < p.len() ==> p[name_dir_len(p) + name_stem(file_name(p)->0).len()] == '.'
            || p[name_dir_len(p) + name_stem(file_name(p)->0).len()] == '/',
{
    lemma_file_name_place(p);
    let f = file_name(p)->0;
    let st = name_dir_len(p);
    let stem = name_stem(f);
    let n = stem + seq!['_'] + decimal(i);
    lemma_decimal_digits(i);
    assert forall|k: int| 0 <= k < n.len() implies n[k] != '.' by {
        if k < stem.len() {
            assert(n[k] == stem[k]);
        } else if k > stem.len() {
            assert(n[k] == decimal(i)[k - stem.len() - 1]);
            assert(is_digit(decimal(i)[k - stem.len() - 1]));
        }
    }
    lemma_last_dot_range(n);
    lemma_last_dot_range(f);
    if last_dot(n) >= 0 {
        assert(n[last_dot(n)] == '.');
    }
    assert(name_stem(n) == n);
    assert(f == p.subrange(st, name_end(p)));
    if last_dot(f) > 0 {
        assert(stem =~= f.take(last_dot(f)));
        assert(p[st + stem.len()] == f[last_dot(f)]);
    } else {
        assert(stem == f);
    }
    assert(p.take(st) + stem =~= p.take(st + stem.len()));
}

/// With a dotless stem, different numbers give different alternative names, and none
/// of them is the path itself.
proof fn lemma_renamed_distinct(p: Seq<char>, i: nat, j: nat)
    requires
        file_name(p) is Some,
        dotless_stem(p),
    ensures
        renamed_path(p, i) != p,
        renamed_path(p, i) == renamed_path(p, j) ==> i == j,
{
    lemma_renamed_shape(p, i);
    lemma_renamed_shape(p, j);
    let f = file_name(p)->0;
    let lead = p.take(name_dir_len(p)) + name_stem(f) + seq!['_'];
    lemma_file_name_place(p);
    let k = name_dir_len(p) + name_stem(f).len();
    let a = p.take(name_dir_len(p)) + name_stem(f);
    assert(a.len() == k);
    let w = a + seq!['_'];
    assert(w[k] == '_');
    assert(renamed_path(p, i) == (w + decimal(i)) + renamed_suffix(p));
    assert((w + decimal(i))[k] == '_');
    assert(renamed_path(p, i)[k] == '_');
    if k < p.len() {
        assert(p[k] != '_');
    } else {
        assert(renamed_path(p, i).len() > p.len());
    }
    if renamed_path(p, i) == renamed_path(p, j) {
        assert(renamed_path(p, i).skip(lead.len() as int) =~= decimal(i) + renamed_suffix(p));
        assert(renamed_path(p, j).skip(lead.len() as int) =~= decimal(j) + renamed_suffix(p));
        lemma_decimal_same_suffix(i, j, renamed_suffix(p));
    }
}

/// Of the first `existing.len()` alternative names of a taken path with a dotless
/// stem, one is free: they are all different, and the path is another taken one.
proof fn lemma_renamed_free(p: Seq<char>, existing: Seq<String>)
    requires
        file_name(p) is Some,
        dotless_stem(p),
        listed(existing, p),
    ensures
        exists|i: nat| 1 <= i <= existing.len() && !listed(existing, #[trigger] renamed_path(p, i)),
{
    if forall|i: nat| 1 <= i <= existing.len() ==> listed(existing, #[trigger] renamed_path(p, i)) {
        let range = set_int_range(1, existing.len() + 1int);
        lemma_int_range(1, existing.len() + 1int);
        let f = |i: int| renamed_path(p, i as nat);
        assert forall|x: int, y: int| range.contains(x) && range.contains(y) && #[trigger] f(x) == #[trigger] f(y)
            implies x == y by {
            lemma_renamed_distinct(p, x as nat, y as nat);
        }
        let names = range.map(f);
        lemma_map_size(range, names, f);
        assert(!names.contains(p)) by {
            if names.contains(p) {
                let i = choose|i: int| range.contains(i) && f(i) == p;
                lemma_renamed_distinct(p, i as nat, i as nat);
            }
        }
        let all = names.insert(p);
        assert forall|x: Seq<char>| #[trigger] all.contains(x) implies listed(existing, x) by {
            if x != p {
                let i = choose|i: int| range.contains(i) && f(i) == x;
                assert(listed(existing, renamed_path(p, i as nat)));
            }
        }
        lemma_listed_count(existing, all);
    }
}

/// A free name for `path` among the taken paths `existing`: `path` itself when it is
/// free, else the first free `renamed_path(path, i)` for `i` from 1 on. The search
/// tries `existing.len()` alternatives. When the stem has no dot they are all different,
/// so one of them is free; with a dot in the stem they can coincide, and when they are
/// all taken there is none.
pub fn rename_if_exists(path: &str, existing: &Vec<String>) -> (r: Option<String>)
    requires
        file_name(path@) is Some,
    ensures
        !listed(existing@, path@) ==> (r matches Some(q) && q@ == path@),
        listed(existing@, path@) ==> match r {
            Some(q) => exists|i: nat| 1 <= i <= existing.len()
                && #[trigger] renamed_path(path@, i) == q@
                && !listed(existing@, q@)
                && forall|j: nat| 1 <= j < i ==> listed(existing@, #[trigger] renamed_path(path@, j)),
            None => forall|j: nat| 1 <= j <= existing.len() ==> listed(existing@, #[trigger] renamed_path(path@, j)),
        },
        dotless_stem(path@) ==> r is Some,
{
    if !listed_exec(existing, &chars_of(path)) {
        return Some(path.to_string());
    }
    proof {
        if dotless_stem(path@) {
            lemma_renamed_free(path@, existing@);
        }
    }
    let mut k: usize = 0;
    while k < existing.len()
        invariant
            k <= existing.len(),
            dotless_stem(path@) ==> exists|i: nat|
                1 <= i <= existing.len() && !listed(existing@, #[trigger] renamed_path(path@, i)),
            file_name(path@) is Some,
            listed(existing@, path@),
            forall|j: nat| 1 <= j <= k ==> listed(existing@, #[trigger] renamed_path(path@, j)),
        decreases existing.len() - k,
    {
        let i: u64 = (k + 1) as u64;
        let c = rename_candidate(path, i);
        if !listed_exec(existing, &chars_of(c.as_str())) {
            assert(renamed_path(path@, i as nat) == c@);
            return Some(c);
        }
        k = k + 1;
    }
    None
}

/// A directory waiting to be expanded: where it is, where its contents go, and how
/// many more levels to descend before moving contents.
pub struct Pending {
    pub input: String,
    pub output: String,
    pub depth: u32,
}

/// The next step of an expansion.
pub enum ExpandStep {
    /// Move the contents of the first directory into the second.
    MoveContents(String, String),
    /// List the subdirectories of the first directory and queue them with the second
    /// as their output and the given depth.
    Descend(String, String, u32),
}

/// The directories still to expand, the last one taken first.
pub struct ExpandQueue {
    items: Vec<Pending>,
}

/// A pending directory as plain values.
pub open spec fn pending_view(p: Pending) -> (Seq<char>, Seq<char>, u32) {
    (p.input@, p.output@, p.depth)
}

impl ExpandQueue {
    /// The pending directories, the next one last.
    pub closed spec fn pending(&self) -> Seq<(Seq<char>, Seq<char>, u32)> {
        self.items@.map_values(|p: Pending| pending_view(p))
    }

    /// An expansion of `input` into `output`, descending `depth` levels.
    pub fn new(input: String, output: String, depth: u32) -> (q: Self)
        ensures
            q.pending() == seq![(input@, output@, depth)],
    {
        let mut items: Vec<Pending> = Vec::new();
        items.push(Pending { input, output, depth });
        let q = ExpandQueue { items };
        assert(q.pending() =~= seq![(q.items@[0].input@, q.items@[0].output@, depth)]);
        q
    }

    /// The next step: the last pending directory is taken; at depth 0 its contents are
    /// moved, otherwise its subdirectories are to be queued one level shallower.
    pub fn next(&mut self) -> (r: Option<ExpandStep>)
        ensures
            old(self).pending().len() == 0 ==> r is None && final(self).pending() == old(self).pending(),
            old(self).pending().len() > 0 ==> {
                let (i, o, d) = old(self).pending().last();
                &&& final(self).pending() == old(self).pending().drop_last()
                &&& d == 0 ==> (r matches Some(ExpandStep::MoveContents(a, b)) && a@ == i && b@ == o)
                &&& d > 0 ==> (r matches Some(ExpandStep::Descend(a, b, e)) && a@ == i && b@ == o && e == d - 1)
            },
    {
        match self.items.pop() {
            None => None,
            Some(p) => {
                assert(self.pending() =~= old(self).pending().drop_last());
                if p.depth == 0 {
                    Some(ExpandStep::MoveContents(p.input, p.output))
                } else {
                    Some(ExpandStep::Descend(p.input, p.output, p.depth - 1))
                }
            },
        }
    }

    /// Queues the subdirectories `children` of a directory, in order, each with
    /// `output` as its output and `depth` levels left.
    pub fn push_children(&mut self, children: Vec<String>, output: &str, depth: u32)
        ensures
            final(self).pending() == old(self).pending() + crate::text::string_views(children@).map_values(
                |c: Seq<char>| (c, output@, depth),
            ),
    {
        let mut k: usize = 0;
        let ghost start = self.pending();
        while k < children.len()
            invariant
                k <= children.len(),
                self.pending() == start + crate::text::string_views(children@.take(k as int)).map_values(
                    |c: Seq<char>| (c, output@, depth),
                ),
            decreases children.len() - k,
        {
            let ghost before = self.pending();
            self.items.push(Pending { input: children[k].clone(), output: output.to_string(), depth });
            assert(crate::text::string_views(children@.take(k as int + 1)).map_values(|c: Seq<char>| (c, output@, depth))
                =~= crate::text::string_views(children@.take(k as int)).map_values(|c: Seq<char>| (c, output@, depth)).push(
                (children@[k as int]@, output@, depth),
            ));
            assert(self.pending() =~= before.push((children@[k as int]@, output@, depth)));
            k = k + 1;
        }
        assert(children@.take(children.len() as int) =~= children@);
    }
}

} // verus!
