//! Factorio mod archives named `name_X.Y.Z.zip`: reading the names, keeping the latest
//! version of each mod, and choosing what to archive or install.

use vstd::prelude::*;
use crate::paths::{file_name, file_name_of, join, join_chars, parent_of, path_parent, paths_equal, same_path};
use crate::text::{concat, all_digits, chars_of, equal_chars, split_on, split_chars, starts_with, starts_with_chars, string_of, string_views, views};

verus! {

/// `v` is three non-empty runs of ASCII digits joined by dots, like `1.10.3`.
pub open spec fn is_version_triplet(v: Seq<char>) -> bool {
    let parts = split_on(v, '.');
    parts.len() == 3 && forall|k: int| 0 <= k < 3 ==> #[trigger] parts[k].len() > 0 && all_digits(parts[k])
}

/// The index of the last `_` in `s`, or -1.
pub open spec fn last_underscore(s: Seq<char>) -> int
    decreases s.len(),
{
    if s.len() == 0 {
        -1
    } else if s.last() == '_' {
        s.len() - 1
    } else {
        last_underscore(s.drop_last())
    }
}

/// The mod name and version in an archive name `name_X.Y.Z.zip`: the name is all
/// before the last `_` and holds no line break; `X.Y.Z` is three runs of digits.
pub open spec fn mod_name_parts(f: Seq<char>) -> Option<(Seq<char>, Seq<char>)> {
    let p = last_underscore(f);
    if p >= 0 && f.len() >= p + 1 + 4 && f.skip(f.len() - 4) == ".zip"@
        && is_version_triplet(f.subrange(p + 1, f.len() - 4)) && !f.take(p).contains('\n') {
        Some((f.take(p), f.subrange(p + 1, f.len() - 4)))
    } else {
        None
    }
}

/// One mod archive: the mod's name, its version and the archive's path.
pub struct ModEntry {
    pub base_name: String,
    pub version: String,
    pub source_path: String,
}

impl ModEntry {
    /// The entry as plain values.
    pub open spec fn model(&self) -> (Seq<char>, Seq<char>, Seq<char>) {
        (self.base_name@, self.version@, self.source_path@)
    }
}

impl ModEntry {
    /// A copy of the entry.
    pub fn copy(&self) -> (r: ModEntry)
        ensures
            r.model() == self.model(),
    {
        ModEntry {
            base_name: self.base_name.clone(),
            version: self.version.clone(),
            source_path: self.source_path.clone(),
        }
    }
}

/// The models of a list of entries.
pub open spec fn entry_models(v: Seq<ModEntry>) -> Seq<(Seq<char>, Seq<char>, Seq<char>)> {
    v.map_values(|e: ModEntry| e.model())
}

fn last_underscore_exec(f: &[char]) -> (r: Option<usize>)
    ensures
        r matches Some(i) ==> i == last_underscore(f@),
        r is None ==> last_underscore(f@) == -1,
{
    let mut i: usize = f.len();
    assert(f@.take(i as int) == f@);
    while i > 0
        invariant
            i <= f.len(),
            last_underscore(f@) == last_underscore(f@.take(i as int)),
        decreases i,
    {
        assert(f@.take(i as int).drop_last() == f@.take(i as int - 1));
        if f[i - 1] == '_' {
            return Some(i - 1);
        }
        i = i - 1;
    }
    None
}

proof fn lemma_last_underscore_range(f: Seq<char>)
    ensures
        -1 <= last_underscore(f) < f.len(),
    decreases f.len(),
{
    if f.len() > 0 && f.last() != '_' {
        lemma_last_underscore_range(f.drop_last());
    }
}

#[verifier::loop_isolation(false)]
fn is_version_triplet_exec(v: &[char]) -> (b: bool)
    ensures
        b == is_version_triplet(v@),
{
    let parts = split_chars(v, '.');
    if parts.len() != 3 {
        return false;
    }
    let mut k: usize = 0;
    while k < 3
        invariant
            parts.len() == 3,
            views(parts@) == split_on(v@, '.'),
            k <= 3,
            forall|j: int| 0 <= j < k ==> #[trigger] split_on(v@, '.')[j].len() > 0 && all_digits(split_on(v@, '.')[j]),
        decreases 3 - k,
    {
        let p = &parts[k];
        assert(p@ == split_on(v@, '.')[k as int]);
        if p.len() == 0 {
            return false;
        }
        let mut i: usize = 0;
        while i < p.len()
            invariant
                i <= p.len(),
                forall|j: int| 0 <= j < i ==> crate::text::is_digit(#[trigger] p@[j]),
            decreases p.len() - i,
        {
            if !('0' <= p[i] && p[i] <= '9') {
                assert(!crate::text::is_digit(p@[i as int]));
                assert(!all_digits(split_on(v@, '.')[k as int]));
                return false;
            }
            i = i + 1;
        }
        k = k + 1;
    }
    true
}

impl ModEntry {
    /// Reads an archive name `name_X.Y.Z.zip`; the archive path is the name itself.
    #[verifier::loop_isolation(false)]
    pub fn from_file_name(file_name: &str) -> (r: Option<ModEntry>)
        ensures
            r matches Some(e) ==> mod_name_parts(file_name@) == Some((e.model().0, e.model().1))
                && e.model().2 == file_name@,
            r is None ==> mod_name_parts(file_name@) is None,
    {
        let f = chars_of(file_name);
        proof {
            lemma_last_underscore_range(f@);
            reveal_strlit(".zip");
        }
        let p = match last_underscore_exec(&f) {
            Some(p) => p,
            None => return None,
        };
        if f.len() - p < 5 {
            return None;
        }
        let zip = chars_of(".zip");
        let mut tail: Vec<char> = Vec::new();
        let mut i: usize = f.len() - 4;
        while i < f.len()
            invariant
                f@.len() >= 4,
                f.len() - 4 <= i <= f.len(),
                tail@ == f@.subrange(f.len() - 4, i as int),
            decreases f.len() - i,
        {
            tail.push(f[i]);
            i = i + 1;
            assert(tail@ =~= f@.subrange(f.len() - 4, i as int));
        }
        assert(tail@ =~= f@.skip(f.len() - 4));
        if !equal_chars(&tail, &zip) {
            return None;
        }
        let mut version: Vec<char> = Vec::new();
        let mut i: usize = p + 1;
        while i < f.len() - 4
            invariant
                p + 1 <= i <= f.len() - 4,
                f@.len() >= p + 5,
                version@ == f@.subrange(p + 1, i as int),
            decreases f.len() - 4 - i,
        {
            version.push(f[i]);
            i = i + 1;
            assert(version@ =~= f@.subrange(p + 1, i as int));
        }
        if !is_version_triplet_exec(&version) {
            return None;
        }
        let mut base: Vec<char> = Vec::new();
        let mut i: usize = 0;
        while i < p
            invariant
                i <= p < f.len(),
                base@ == f@.take(i as int),
                !base@.contains('\n'),
            decreases p - i,
        {
            if f[i] == '\n' {
                assert(f@.take(p as int)[i as int] == '\n');
                assert(f@.take(p as int).contains('\n'));
                return None;
            }
            base.push(f[i]);
            i = i + 1;
            assert(base@ =~= f@.take(i as int));
        }
        Some(ModEntry {
            base_name: string_of(&base),
            version: string_of(&version),
            source_path: file_name.to_string(),
        })
    }
}

/// `a` comes before or equals `b` in the order `String` compares in (character by
/// character, a proper prefix first).
pub open spec fn text_le(a: Seq<char>, b: Seq<char>) -> bool
    decreases a.len(),
{
    if a.len() == 0 {
        true
    } else if b.len() == 0 {
        false
    } else if a[0] != b[0] {
        a[0] < b[0]
    } else {
        text_le(a.drop_first(), b.drop_first())
    }
}

/// Whether `a` comes before or equals `b` as strings compare.
pub fn text_le_exec(a: &[char], b: &[char]) -> (r: bool)
    ensures
        r == text_le(a@, b@),
{
    let mut i: usize = 0;
    assert(a@.skip(0) == a@ && b@.skip(0) == b@);
    while i < a.len() && i < b.len()
        invariant
            i <= a.len(),
            i <= b.len(),
            text_le(a@, b@) == text_le(a@.skip(i as int), b@.skip(i as int)),
        decreases a.len() - i,
    {
        assert(a@.skip(i as int)[0] == a@[i as int]);
        assert(b@.skip(i as int)[0] == b@[i as int]);
        if a[i] != b[i] {
            return a[i] < b[i];
        }
        assert(a@.skip(i as int).drop_first() =~= a@.skip(i as int + 1));
        assert(b@.skip(i as int).drop_first() =~= b@.skip(i as int + 1));
        i = i + 1;
    }
    i == a.len()
}


/// A mod archive as plain values: name, version, path.
pub type ModModel = (Seq<char>, Seq<char>, Seq<char>);

/// The mod names of `es` in order of first appearance, each once.
pub open spec fn first_names(es: Seq<ModModel>) -> Seq<Seq<char>>
    decreases es.len(),
{
    if es.len() == 0 {
        Seq::<Seq<char>>::empty()
    } else {
        let r = first_names(es.drop_last());
        if r.contains(es.last().0) {
            r
        } else {
            r.push(es.last().0)
        }
    }
}

/// The archive kept for mod `n` among `es`: going through `es` in order, a later
/// archive of `n` replaces the kept one when its version is not smaller (so among
/// equal greatest versions the last one stays).
pub open spec fn chosen(es: Seq<ModModel>, n: Seq<char>) -> Option<ModModel>
    decreases es.len(),
{
    if es.len() == 0 {
        None
    } else {
        let x = es.last();
        let c = chosen(es.drop_last(), n);
        if x.0 == n {
            match c {
                Some(b) => if text_le(b.1, x.1) {
                    Some(x)
                } else {
                    Some(b)
                },
                None => Some(x),
            }
        } else {
            c
        }
    }
}

/// The latest archive of each mod, in order of the mods' first appearance.
pub open spec fn retained(es: Seq<ModModel>) -> Seq<ModModel> {
    first_names(es).map_values(|n: Seq<char>| chosen(es, n)->0)
}

proof fn lemma_chosen_some(es: Seq<ModModel>, n: Seq<char>)
    ensures
        chosen(es, n) is Some <==> exists|i: int| 0 <= i < es.len() && (#[trigger] es[i]).0 == n,
        chosen(es, n) matches Some(b) ==> b.0 == n,
    decreases es.len(),
{
    if es.len() > 0 {
        lemma_chosen_some(es.drop_last(), n);
        if chosen(es.drop_last(), n) is Some {
            let i = choose|i: int| 0 <= i < es.drop_last().len() && (#[trigger] es.drop_last()[i]).0 == n;
            assert(es[i] == es.drop_last()[i]);
        }
        assert forall|i: int| 0 <= i < es.len() - 1 implies es[i] == es.drop_last()[i] by {}
        if es.last().0 == n {
            assert(es[es.len() - 1].0 == n);
        }
    }
}

proof fn lemma_first_names(es: Seq<ModModel>)
    ensures
        forall|n: Seq<char>| #[trigger] first_names(es).contains(n) <==> exists|i: int| 0 <= i < es.len() && (#[trigger] es[i]).0 == n,
        forall|a: int, b: int| 0 <= a < b < first_names(es).len() ==> first_names(es)[a] != first_names(es)[b],
    decreases es.len(),
{
    if es.len() > 0 {
        let d = es.drop_last();
        let x = es.last();
        lemma_first_names(d);
        let r = first_names(d);
        assert forall|n: Seq<char>| #[trigger] first_names(es).contains(n) <==> exists|i: int| 0 <= i < es.len() && (#[trigger] es[i]).0 == n by {
            if first_names(es).contains(n) {
                if r.contains(n) {
                    let i = choose|i: int| 0 <= i < d.len() && (#[trigger] d[i]).0 == n;
                    assert(es[i] == d[i]);
                } else {
                    let j = choose|j: int| 0 <= j < first_names(es).len() && first_names(es)[j] == n;
                    assert(r.push(x.0)[j] == n);
                    assert(es[es.len() - 1].0 == n);
                }
            }
            if exists|i: int| 0 <= i < es.len() && (#[trigger] es[i]).0 == n {
                let i = choose|i: int| 0 <= i < es.len() && (#[trigger] es[i]).0 == n;
                if i < es.len() - 1 {
                    assert(d[i] == es[i]);
                    assert(r.contains(n));
                    let j = choose|j: int| 0 <= j < r.len() && r[j] == n;
                    if !r.contains(x.0) {
                        assert(r.push(x.0)[j] == n);
                    }
                } else if !r.contains(n) {
                    assert(r.push(x.0)[r.len() as int] == n);
                }
            }
        }
    }
}

proof fn lemma_retained_names(es: Seq<ModModel>)
    ensures
        retained(es).len() == first_names(es).len(),
        forall|j: int| 0 <= j < first_names(es).len() ==> (#[trigger] chosen(es, first_names(es)[j])) is Some
            && retained(es)[j] == chosen(es, first_names(es)[j])->0
            && retained(es)[j].0 == first_names(es)[j],
{
    lemma_first_names(es);
    assert forall|j: int| 0 <= j < first_names(es).len() implies (#[trigger] chosen(es, first_names(es)[j])) is Some
        && retained(es)[j] == chosen(es, first_names(es)[j])->0
        && retained(es)[j].0 == first_names(es)[j] by {
        let n = first_names(es)[j];
        assert(first_names(es).contains(n));
        lemma_chosen_some(es, n);
    }
}

proof fn lemma_retained_step_found(pre: Seq<ModModel>, x: ModModel, k: int)
    requires
        0 <= k < first_names(pre).len(),
        first_names(pre)[k] == x.0,
    ensures
        first_names(pre.push(x)) == first_names(pre),
        retained(pre.push(x)) == retained(pre).update(
            k,
            if text_le(retained(pre)[k].1, x.1) { x } else { retained(pre)[k] },
        ),
{
    let cur = pre.push(x);
    assert(cur.drop_last() =~= pre);
    assert(first_names(pre).contains(x.0));
    assert(first_names(cur) == first_names(pre));
    lemma_retained_names(pre);
    lemma_first_names(pre);
    let fnames = first_names(pre);
    let expected = retained(pre).update(
        k,
        if text_le(retained(pre)[k].1, x.1) { x } else { retained(pre)[k] },
    );
    assert forall|j: int| 0 <= j < fnames.len() implies retained(cur)[j] == expected[j] by {
        if j != k {
            assert(fnames[j] != fnames[k]);
        }
    }
    assert(retained(cur) =~= expected);
}

proof fn lemma_retained_step_new(pre: Seq<ModModel>, x: ModModel)
    requires
        !first_names(pre).contains(x.0),
    ensures
        retained(pre.push(x)) == retained(pre).push(x),
{
    let cur = pre.push(x);
    assert(cur.drop_last() =~= pre);
    lemma_retained_names(pre);
    lemma_first_names(pre);
    lemma_chosen_some(pre, x.0);
    let fnames = first_names(pre);
    assert(first_names(cur) == fnames.push(x.0));
    assert forall|j: int| 0 <= j < fnames.len() implies retained(cur)[j] == retained(pre)[j] by {
        assert(fnames.contains(fnames[j]));
        assert(fnames[j] != x.0);
    }
    assert(retained(cur)[fnames.len() as int] == x);
    assert(retained(cur) =~= retained(pre).push(x));
}

/// `text_le` orders every text before or with itself.
proof fn lemma_text_le_reflexive(a: Seq<char>)
    ensures
        text_le(a, a),
    decreases a.len(),
{
    if a.len() > 0 {
        lemma_text_le_reflexive(a.drop_first());
    }
}

/// Of two texts, one comes before or with the other.
proof fn lemma_text_le_total(a: Seq<char>, b: Seq<char>)
    ensures
        text_le(a, b) || text_le(b, a),
    decreases a.len(),
{
    if a.len() > 0 && b.len() > 0 && a[0] == b[0] {
        lemma_text_le_total(a.drop_first(), b.drop_first());
    }
}

/// `text_le` is transitive.
proof fn lemma_text_le_transitive(a: Seq<char>, b: Seq<char>, c: Seq<char>)
    requires
        text_le(a, b),
        text_le(b, c),
    ensures
        text_le(a, c),
    decreases a.len(),
{
    if a.len() > 0 && b.len() > 0 && c.len() > 0 && a[0] == b[0] && b[0] == c[0] {
        lemma_text_le_transitive(a.drop_first(), b.drop_first(), c.drop_first());
    }
}

/// The archive kept for a mod is one of its archives, and no archive of that mod has
/// a version that compares greater.
proof fn lemma_chosen_greatest(es: Seq<ModModel>, n: Seq<char>)
    ensures
        chosen(es, n) matches Some(b) ==> es.contains(b) && forall|k: int|
            0 <= k < es.len() && (#[trigger] es[k]).0 == n ==> text_le(es[k].1, b.1),
    decreases es.len(),
{
    if es.len() > 0 {
        let d = es.drop_last();
        let x = es.last();
        lemma_chosen_greatest(d, n);
        lemma_text_le_reflexive(x.1);
        if let Some(c) = chosen(d, n) {
            lemma_text_le_total(c.1, x.1);
            let j = choose|j: int| 0 <= j < d.len() && d[j] == c;
            assert(es[j] == c);
        }
        if let Some(b) = chosen(es, n) {
            assert forall|k: int| 0 <= k < es.len() && (#[trigger] es[k]).0 == n implies text_le(
                es[k].1,
                b.1,
            ) by {
                if k < es.len() - 1 {
                    assert(es[k] == d[k]);
                    lemma_chosen_some(d, n);
                    let c = chosen(d, n)->0;
                    assert(text_le(d[k].1, c.1));
                    if x.0 == n && text_le(c.1, x.1) {
                        lemma_text_le_transitive(es[k].1, c.1, x.1);
                    }
                }
            }
            if b == x {
                assert(es[es.len() - 1] == b);
            }
        }
    }
}

/// Keeping the latest version of each mod leaves each mod name of the archives
/// exactly once, each kept archive is one of the archives, and no archive of a mod
/// has a version that compares greater than the one kept for it.
pub proof fn lemma_retained_latest(es: Seq<ModModel>)
    ensures
        forall|i: int, j: int|
            0 <= i < j < retained(es).len() ==> (#[trigger] retained(es)[i]).0 != (#[trigger] retained(es)[j]).0,
        forall|i: int| 0 <= i < retained(es).len() ==> es.contains(#[trigger] retained(es)[i]),
        forall|k: int|
            0 <= k < es.len() ==> exists|i: int|
                0 <= i < retained(es).len() && (#[trigger] retained(es)[i]).0 == (#[trigger] es[k]).0
                    && text_le(es[k].1, retained(es)[i].1),
{
    lemma_retained_names(es);
    lemma_first_names(es);
    let r = retained(es);
    let f = first_names(es);
    assert forall|i: int| 0 <= i < r.len() implies es.contains(#[trigger] r[i]) by {
        lemma_chosen_greatest(es, f[i]);
        assert(chosen(es, f[i]) is Some);
    }
    assert forall|k: int| 0 <= k < es.len() implies exists|i: int|
        0 <= i < r.len() && (#[trigger] r[i]).0 == (#[trigger] es[k]).0 && text_le(es[k].1, r[i].1) by {
        let n = es[k].0;
        assert(f.contains(n));
        let i = choose|i: int| 0 <= i < f.len() && f[i] == n;
        assert(chosen(es, f[i]) is Some);
        lemma_chosen_greatest(es, n);
        assert(r[i].0 == es[k].0);
    }
}

/// The latest version of each mod: one archive per mod name, the one whose version
/// compares greatest (the last of them among equal versions), in order of each name's
/// first archive.
pub fn retain_latest(entries: &Vec<ModEntry>) -> (r: Vec<ModEntry>)
    ensures
        entry_models(r@) == retained(entry_models(entries@)),
{
    let ghost es = entry_models(entries@);
    let mut r: Vec<ModEntry> = Vec::new();
    let mut i: usize = 0;
    assert(retained(es.take(0)) =~= Seq::<ModModel>::empty());
    assert(entry_models(r@) =~= Seq::<ModModel>::empty());
    while i < entries.len()
        invariant
            es == entry_models(entries@),
            i <= entries.len(),
            entry_models(r@) == retained(es.take(i as int)),
        decreases entries.len() - i,
    {
        let ghost pre = es.take(i as int);
        let ghost x = es[i as int];
        assert(es.take(i as int + 1) =~= pre.push(x));
        let e = &entries[i];
        assert(e.model() == x);
        let name = chars_of(e.base_name.as_str());
        proof {
            lemma_retained_names(pre);
        }
        let mut k: usize = 0;
        let mut found = false;
        while k < r.len()
            invariant_except_break
                k <= r.len(),
                !found,
                forall|j: int| 0 <= j < k ==> (#[trigger] r@[j]).base_name@ != name@,
            invariant
                entry_models(r@) == retained(pre),
                name@ == x.0,
            ensures
                found ==> k < r.len() && r@[k as int].base_name@ == name@,
                !found ==> forall|j: int| 0 <= j < r.len() ==> (#[trigger] r@[j]).base_name@ != name@,
            decreases r.len() - k,
        {
            if equal_chars(&chars_of(r[k].base_name.as_str()), &name) {
                found = true;
                break;
            }
            k = k + 1;
        }
        if found {
            assert(entry_models(r@)[k as int] == r@[k as int].model());
            proof {
                lemma_retained_step_found(pre, x, k as int);
            }
            let bv = chars_of(r[k].version.as_str());
            let xv = chars_of(e.version.as_str());
            if text_le_exec(&bv, &xv) {
                r.set(k, e.copy());
            }
            assert(entry_models(r@) =~= retained(pre.push(x)));
        } else {
            proof {
                assert forall|j: int| 0 <= j < first_names(pre).len() implies first_names(pre)[j] != x.0 by {
                    assert(entry_models(r@)[j] == r@[j].model());
                }
                lemma_retained_step_new(pre, x);
            }
            r.push(e.copy());
            assert(entry_models(r@) =~= retained(pre.push(x)));
        }
        i = i + 1;
    }
    assert(es.take(entries.len() as int) =~= es);
    r
}

/// The archive name of a mod: `name_version.zip`.
pub open spec fn zip_name(name: Seq<char>, version: Seq<char>) -> Seq<char> {
    name + "_"@ + version + ".zip"@
}

/// The archive name for a mod folder whose `info.json` gives `name` and `version`;
/// an error names the field that is missing.
pub fn folder_zip_name(name: Option<&str>, version: Option<&str>) -> (r: Result<String, String>)
    ensures
        match (name, version) {
            (Some(n), Some(v)) => r == Ok::<String, String>(r->Ok_0) && r->Ok_0@ == zip_name(n@, v@),
            (None, _) => r matches Err(e) && e@ == "Missing 'name' field in info.json"@,
            (Some(_), None) => r matches Err(e) && e@ == "Missing 'version' field in info.json"@,
        },
{
    match name {
        None => Err("Missing 'name' field in info.json".to_string()),
        Some(n) => match version {
            None => Err("Missing 'version' field in info.json".to_string()),
            Some(v) => {
                let a = concat(n, "_");
                let b = concat(a.as_str(), v);
                Ok(concat(b.as_str(), ".zip"))
            },
        },
    }
}

/// The text of an optional string.
pub open spec fn opt_text(o: Option<String>) -> Option<Seq<char>> {
    match o {
        Some(s) => Some(s@),
        None => None,
    }
}

/// Name for what `serde_json` finds under each key of a JSON text: the string under
/// the key of the top-level object (`Value::get`, `Value::as_str`), or none where
/// there is no such key or its value is not a string; none at all when the text does
/// not parse.
pub uninterp spec fn json_string_fields(text: Seq<char>, keys: Seq<Seq<char>>) -> Option<Seq<Option<Seq<char>>>>;

/// Parses `text` as a `serde_json::Value` and reads the string under each key; named
/// `json_string_fields`. The parser's message is passed on; nothing is stated of it.
#[verifier::external_body]
fn string_fields_of(text: &str, keys: &Vec<String>) -> (r: Result<Vec<Option<String>>, String>)
    ensures
        r matches Ok(v) ==> v.len() == keys.len() && json_string_fields(text@, string_views(keys@)) == Some(
            v@.map_values(|o: Option<String>| opt_text(o)),
        ),
        r is Err ==> json_string_fields(text@, string_views(keys@)) is None,
{
    let value: serde_json::Value = serde_json::from_str(text).map_err(|e| e.to_string())?;
    let mut out = Vec::new();
    for k in keys {
        out.push(value.get(k.as_str()).and_then(serde_json::Value::as_str).map(String::from));
    }
    Ok(out)
}

/// The archive name for a mod folder from the text of its `info.json`: the parser's
/// error when the text is not JSON, else as `folder_zip_name` gives it from the
/// strings under `name` and `version`.
pub fn zip_name_from_info(text: &str) -> (r: Result<String, String>)
    ensures
        json_string_fields(text@, seq!["name"@, "version"@]) is None ==> r is Err,
        json_string_fields(text@, seq!["name"@, "version"@]) matches Some(f) ==> match (f[0], f[1]) {
            (Some(n), Some(v)) => r matches Ok(z) && z@ == zip_name(n, v),
            (None, _) => r matches Err(e) && e@ == "Missing 'name' field in info.json"@,
            (Some(_), None) => r matches Err(e) && e@ == "Missing 'version' field in info.json"@,
        },
{
    let keys = vec!["name".to_string(), "version".to_string()];
    proof {
        assert(string_views(keys@) =~= seq!["name"@, "version"@]);
    }
    let fields = string_fields_of(text, &keys)?;
    let name = match &fields[0] {
        Some(n) => Some(n.as_str()),
        None => None,
    };
    let version = match &fields[1] {
        Some(v) => Some(v.as_str()),
        None => None,
    };
    folder_zip_name(name, version)
}

/// Where a mod to install comes from.
#[derive(Clone, Copy, Debug, PartialEq, Eq, Structural)]
pub enum ModSourceType {
    LocalFile,
    Url,
    Folder,
}

/// The kind of a mod source: a URL when it starts with `http://` or `https://`;
/// otherwise a folder or a local file as what is on disk says, and an error when
/// nothing is there.
pub fn validate_mod_source(source: &str, exists: bool, is_dir: bool) -> (r: Result<ModSourceType, String>)
    ensures
        (starts_with(source@, "http://"@) || starts_with(source@, "https://"@)) ==> r == Ok::<ModSourceType, String>(ModSourceType::Url),
        !(starts_with(source@, "http://"@) || starts_with(source@, "https://"@)) ==> {
            if !exists {
                r matches Err(e) && e@ == "File or folder not found: "@ + source@
            } else if is_dir {
                r == Ok::<ModSourceType, String>(ModSourceType::Folder)
            } else {
                r == Ok::<ModSourceType, String>(ModSourceType::LocalFile)
            }
        },
{
    let s = chars_of(source);
    if starts_with_chars(&s, &chars_of("http://")) || starts_with_chars(&s, &chars_of("https://")) {
        Ok(ModSourceType::Url)
    } else if !exists {
        Err(concat("File or folder not found: ", source))
    } else if is_dir {
        Ok(ModSourceType::Folder)
    } else {
        Ok(ModSourceType::LocalFile)
    }
}

/// How an installed archive reaches the mods directory.
pub enum InstallStep {
    /// The archive already lies in the mods directory.
    InPlace,
    /// The archive is moved to this path in the mods directory.
    MoveTo(String),
}

/// What installing the archive at `file_path` into `mods_path` does: its file name
/// must read as a mod archive; an archive outside the mods directory is moved into it
/// under the same name.
pub fn install_plan(file_path: &str, mods_path: &str) -> (r: Result<InstallStep, String>)
    ensures
        match file_name(file_path@) {
            None => r matches Err(e) && e@ == "Invalid file name"@,
            Some(n) => if mod_name_parts(n) is None {
                r matches Err(e) && e@ == "Invalid mod file name: "@ + n
            } else if path_parent(file_path@) matches Some(q) && same_path(q, mods_path@) {
                r matches Ok(InstallStep::InPlace)
            } else {
                r matches Ok(InstallStep::MoveTo(d)) && d@ == join(mods_path@, n)
            },
        },
{
    let p = chars_of(file_path);
    let n = match file_name_of(&p) {
        Some(n) => n,
        None => return Err("Invalid file name".to_string()),
    };
    let ns = string_of(&n);
    if ModEntry::from_file_name(ns.as_str()).is_none() {
        return Err(concat("Invalid mod file name: ", ns.as_str()));
    }
    let parent = match parent_of(file_path) {
        Some(q) => q,
        None => {
            assert(false);
            return Err("Invalid file name".to_string());
        },
    };
    if paths_equal(parent.as_str(), mods_path) {
        Ok(InstallStep::InPlace)
    } else {
        let m = chars_of(mods_path);
        Ok(InstallStep::MoveTo(string_of(&join_chars(&m, &n))))
    }
}

/// The path of the latest archive of mod `name` in `latest`: the first entry of that
/// name.
pub open spec fn latest_path(latest: Seq<ModModel>, name: Seq<char>) -> Option<Seq<char>>
    decreases latest.len(),
{
    if latest.len() == 0 {
        None
    } else if latest[0].0 == name {
        Some(latest[0].2)
    } else {
        latest_path(latest.drop_first(), name)
    }
}

/// An archive is old when its mod has a latest archive and that is another file.
pub open spec fn is_old(e: ModModel, latest: Seq<ModModel>) -> bool {
    latest_path(latest, e.0) matches Some(p) && p != e.2
}

/// The paths of the old archives among `es`, in order.
pub open spec fn old_paths(es: Seq<ModModel>, latest: Seq<ModModel>) -> Seq<Seq<char>>
    decreases es.len(),
{
    if es.len() == 0 {
        Seq::<Seq<char>>::empty()
    } else {
        let r = old_paths(es.drop_last(), latest);
        if is_old(es.last(), latest) {
            r.push(es.last().2)
        } else {
            r
        }
    }
}

fn latest_path_of(latest: &Vec<ModEntry>, name: &[char]) -> (r: Option<Vec<char>>)
    ensures
        r matches Some(p) ==> latest_path(entry_models(latest@), name@) == Some(p@),
        r is None ==> latest_path(entry_models(latest@), name@) is None,
{
    let ghost ls = entry_models(latest@);
    let mut k: usize = 0;
    assert(ls.skip(0) =~= ls);
    while k < latest.len()
        invariant
            k <= latest.len(),
            ls == entry_models(latest@),
            latest_path(ls, name@) == latest_path(ls.skip(k as int), name@),
        decreases latest.len() - k,
    {
        let ghost rest = ls.skip(k as int);
        assert(rest[0] == latest@[k as int].model());
        assert(rest.drop_first() =~= ls.skip(k as int + 1));
        if equal_chars(&chars_of(latest[k].base_name.as_str()), name) {
            return Some(chars_of(latest[k].source_path.as_str()));
        }
        k = k + 1;
    }
    assert(ls.skip(k as int) =~= Seq::<ModModel>::empty());
    None
}

/// The archives to move out of the mods directory: every archive whose mod has a
/// latest archive in `latest` that is another file.
pub fn old_archives(entries: &Vec<ModEntry>, latest: &Vec<ModEntry>) -> (r: Vec<String>)
    ensures
        string_views(r@) == old_paths(entry_models(entries@), entry_models(latest@)),
{
    let ghost es = entry_models(entries@);
    let ghost ls = entry_models(latest@);
    let mut r: Vec<String> = Vec::new();
    let mut i: usize = 0;
    assert(string_views(r@) =~= old_paths(es.take(0), ls));
    while i < entries.len()
        invariant
            i <= entries.len(),
            es == entry_models(entries@),
            ls == entry_models(latest@),
            string_views(r@) == old_paths(es.take(i as int), ls),
        decreases entries.len() - i,
    {
        assert(es.take(i as int + 1).drop_last() =~= es.take(i as int));
        assert(es.take(i as int + 1).last() == entries@[i as int].model());
        let name = chars_of(entries[i].base_name.as_str());
        let path = chars_of(entries[i].source_path.as_str());
        match latest_path_of(latest, &name) {
            Some(p) => {
                if !equal_chars(&p, &path) {
                    r.push(entries[i].source_path.clone());
                    assert(string_views(r@) =~= old_paths(es.take(i as int + 1), ls));
                }
            },
            None => {},
        }
        i = i + 1;
    }
    assert(es.take(entries.len() as int) =~= es);
    r
}

/// One entry of the mod list file: the mod's name and whether it is enabled, each
/// absent when the file does not give it as a string or a boolean.
pub struct ModListItem {
    pub name: Option<String>,
    pub enabled: Option<bool>,
}

/// An entry of the mod list as plain values.
pub open spec fn list_item_model(it: ModListItem) -> (Option<Seq<char>>, Option<bool>) {
    (opt_text(it.name), it.enabled)
}

/// Name for what `serde_json` finds in the text of a mod list: for each element of the
/// array under `mods`, the string under `name` and the boolean under `enabled` (each
/// absent when missing or of another type); no entries when there is no such array;
/// none when the text does not parse.
pub uninterp spec fn json_mod_list(text: Seq<char>) -> Option<Seq<(Option<Seq<char>>, Option<bool>)>>;

/// Parses `text` as a `serde_json::Value` and reads the entries of its `mods` array;
/// named `json_mod_list`. The parser's message is passed on; nothing is stated of it.
#[verifier::external_body]
fn mod_list_of(text: &str) -> (r: Result<Vec<ModListItem>, String>)
    ensures
        r matches Ok(v) ==> json_mod_list(text@) == Some(v@.map_values(|it: ModListItem| list_item_model(it))),
        r is Err ==> json_mod_list(text@) is None,
{
    let config: serde_json::Value = serde_json::from_str(text).map_err(|e| e.to_string())?;
    let mut items = Vec::new();
    for m in config.get("mods").and_then(serde_json::Value::as_array).into_iter().flatten() {
        let name = m.get("name").and_then(serde_json::Value::as_str).map(String::from);
        items.push(ModListItem { name, enabled: m.get("enabled").and_then(serde_json::Value::as_bool) });
    }
    Ok(items)
}

/// The entries of a mod list file's text; the parser's error when it is not JSON.
pub fn read_mod_list(text: &str) -> (r: Result<Vec<ModListItem>, String>)
    ensures
        json_mod_list(text@) is None <==> r is Err,
        r matches Ok(v) ==> json_mod_list(text@) == Some(v@.map_values(|it: ModListItem| list_item_model(it))),
{
    mod_list_of(text)
}

/// Whether mod `name` is enabled: the last complete entry for it says so; a mod
/// without one is not.
pub open spec fn enabled_in(items: Seq<ModListItem>, name: Seq<char>) -> bool
    decreases items.len(),
{
    if items.len() == 0 {
        false
    } else {
        let it = items.last();
        if it.name matches Some(n) && n@ == name && it.enabled is Some {
            it.enabled->0
        } else {
            enabled_in(items.drop_last(), name)
        }
    }
}

fn enabled_exec(items: &Vec<ModListItem>, name: &[char]) -> (b: bool)
    ensures
        b == enabled_in(items@, name@),
{
    let mut k: usize = items.len();
    assert(items@.take(k as int) =~= items@);
    while k > 0
        invariant
            k <= items.len(),
            enabled_in(items@, name@) == enabled_in(items@.take(k as int), name@),
        decreases k,
    {
        assert(items@.take(k as int).drop_last() =~= items@.take(k as int - 1));
        assert(items@.take(k as int).last() == items@[k as int - 1]);
        let it = &items[k - 1];
        if let Some(n) = &it.name {
            if let Some(en) = it.enabled {
                if equal_chars(&chars_of(n.as_str()), name) {
                    return en;
                }
            }
        }
        k = k - 1;
    }
    false
}

/// The source paths of the archives of enabled mods among `es`, in order.
pub open spec fn enabled_paths(es: Seq<ModModel>, items: Seq<ModListItem>) -> Seq<Seq<char>>
    decreases es.len(),
{
    if es.len() == 0 {
        Seq::<Seq<char>>::empty()
    } else {
        let r = enabled_paths(es.drop_last(), items);
        if enabled_in(items, es.last().0) {
            r.push(es.last().2)
        } else {
            r
        }
    }
}

/// The files put into an export archive: the mod list when it exists, the archives
/// of enabled mods, and the settings file when asked for and present.
pub open spec fn export_files(
    list_path: Seq<char>,
    list_exists: bool,
    es: Seq<ModModel>,
    items: Seq<ModListItem>,
    include_settings: bool,
    settings_path: Seq<char>,
    settings_exists: bool,
) -> Seq<Seq<char>> {
    (if list_exists { seq![list_path] } else { Seq::<Seq<char>>::empty() })
        + enabled_paths(es, items)
        + (if include_settings && settings_exists { seq![settings_path] } else { Seq::<Seq<char>>::empty() })
}

/// The files to compress when exporting the enabled mods.
pub fn files_to_compress(
    list_path: &str,
    list_exists: bool,
    entries: &Vec<ModEntry>,
    items: &Vec<ModListItem>,
    include_settings: bool,
    settings_path: &str,
    settings_exists: bool,
) -> (r: Vec<String>)
    ensures
        string_views(r@) == export_files(
            list_path@,
            list_exists,
            entry_models(entries@),
            items@,
            include_settings,
            settings_path@,
            settings_exists,
        ),
{
    let ghost es = entry_models(entries@);
    let mut r: Vec<String> = Vec::new();
    if list_exists {
        r.push(list_path.to_string());
    }
    let ghost head = string_views(r@);
    assert(head =~= (if list_exists { seq![list_path@] } else { Seq::<Seq<char>>::empty() }));
    let mut i: usize = 0;
    assert(string_views(r@) =~= head + enabled_paths(es.take(0), items@));
    while i < entries.len()
        invariant
            i <= entries.len(),
            es == entry_models(entries@),
            string_views(r@) == head + enabled_paths(es.take(i as int), items@),
        decreases entries.len() - i,
    {
        assert(es.take(i as int + 1).drop_last() =~= es.take(i as int));
        assert(es.take(i as int + 1).last() == entries@[i as int].model());
        let name = chars_of(entries[i].base_name.as_str());
        let ghost prev = string_views(r@);
        let ghost step = enabled_paths(es.take(i as int + 1), items@);
        if enabled_exec(items, &name) {
            let sp = entries[i].source_path.clone();
            r.push(sp);
            assert(step == enabled_paths(es.take(i as int), items@).push(entries@[i as int].source_path@));
            assert(string_views(r@) =~= prev.push(entries@[i as int].source_path@));
        } else {
            assert(step == enabled_paths(es.take(i as int), items@));
        }
        assert(string_views(r@) =~= head + step);
        i = i + 1;
    }
    assert(es.take(entries.len() as int) =~= es);
    let ghost mid = string_views(r@);
    if include_settings && settings_exists {
        r.push(settings_path.to_string());
    }
    assert(string_views(r@) =~= export_files(
        list_path@,
        list_exists,
        es,
        items@,
        include_settings,
        settings_path@,
        settings_exists,
    ));
    r
}

} // verus!
