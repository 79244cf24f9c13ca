//! Grouping source directories into buckets of at least a minimum number of files,
//! each bucket moved into the next numbered target directory (`1th`, `2th`, ...).

use vstd::prelude::*;
use crate::paths::{file_name, file_stem, file_name_of, file_stem_of, join, join_chars};
use crate::text::{
    chars_of, decimal, ends_with, ends_with_chars, parse_int, parse_usize, push_decimal,
    string_of, string_views,
};

verus! {

/// Directories collected until they hold at least `min_size` files between them.
pub struct Bucket {
    min_size: usize,
    cur_size: usize,
    dir_paths: Vec<String>,
}

impl Bucket {
    /// The threshold, the files counted so far and the directories collected.
    pub closed spec fn model(&self) -> (usize, usize, Seq<Seq<char>>) {
        (self.min_size, self.cur_size, string_views(self.dir_paths@))
    }

    /// An empty bucket that fills at `min_size` files.
    pub fn new(min_size: usize) -> (b: Bucket)
        ensures
            b.model() == (min_size, 0usize, Seq::<Seq<char>>::empty()),
    {
        let b = Bucket { min_size, cur_size: 0, dir_paths: Vec::new() };
        assert(string_views(b.dir_paths@) =~= Seq::<Seq<char>>::empty());
        b
    }

    /// Adds the directory `path`, which holds `num_files` entries.
    pub fn add_path(&mut self, path: &str, num_files: usize)
        requires
            old(self).model().1 + num_files <= usize::MAX,
        ensures
            final(self).model() == (
                old(self).model().0,
                (old(self).model().1 + num_files) as usize,
                old(self).model().2.push(path@),
            ),
    {
        self.cur_size = self.cur_size + num_files;
        self.dir_paths.push(path.to_string());
        assert(string_views(self.dir_paths@) =~= string_views(old(self).dir_paths@).push(path@));
    }

    /// The bucket holds at least its threshold of files.
    pub fn is_amplified(&self) -> (b: bool)
        ensures
            b == (self.model().1 >= self.model().0),
    {
        self.cur_size >= self.min_size
    }

    /// Empties the bucket; its threshold stays.
    pub fn clear(&mut self)
        ensures
            final(self).model() == (old(self).model().0, 0usize, Seq::<Seq<char>>::empty()),
    {
        self.cur_size = 0;
        self.dir_paths.clear();
        assert(string_views(self.dir_paths@) =~= Seq::<Seq<char>>::empty());
    }

    /// The number of files counted so far.
    pub fn cur_size(&self) -> (n: usize)
        ensures
            n == self.model().1,
    {
        self.cur_size
    }

    /// The directories collected, in the order they were added.
    pub fn dir_paths(&self) -> (v: &Vec<String>)
        ensures
            string_views(v@) == self.model().2,
    {
        &self.dir_paths
    }
}

/// The index a target directory's path carries: its file stem without the suffix
/// `th`, read as a `usize`.
pub open spec fn target_index(p: Seq<char>) -> Option<int> {
    match file_stem(p) {
        Some(s) => if ends_with(s, "th"@) {
            parse_int(s.take(s.len() - 2), 0, usize::MAX as int)
        } else {
            None
        },
        None => None,
    }
}

/// The largest index among the first `n` paths, 0 when none carries one.
pub open spec fn max_target_index(ps: Seq<Seq<char>>, n: int) -> int
    decreases n,
{
    if n <= 0 {
        0
    } else {
        let m = max_target_index(ps, n - 1);
        match target_index(ps[n - 1]) {
            Some(i) => if i > m {
                i
            } else {
                m
            },
            None => m,
        }
    }
}

/// The directory name counts as a target: it ends in `th`.
pub open spec fn is_target_name(p: Seq<char>) -> bool {
    file_name(p) matches Some(f) && ends_with(f, "th"@)
}

/// The largest index among the first `n` paths does not look past them.
proof fn lemma_max_target_index_prefix(ps: Seq<Seq<char>>, p: Seq<char>, n: int)
    requires
        0 <= n <= ps.len(),
    ensures
        max_target_index(ps.push(p), n) == max_target_index(ps, n),
    decreases n,
{
    if n > 0 {
        lemma_max_target_index_prefix(ps, p, n - 1);
        assert(ps.push(p)[n - 1] == ps[n - 1]);
    }
}

/// The target made after the largest index `m` (as `next_target` makes it under any
/// root) counts as a target, carries the index `m + 1`, and, added to targets whose
/// largest index is `m`, makes `m + 1` the largest index (as `find_max_index` reads it).
pub proof fn lemma_next_target_found(root: Seq<char>, targets: Seq<Seq<char>>, m: int)
    requires
        0 <= m < usize::MAX,
        max_target_index(targets, targets.len() as int) == m,
    ensures
        is_target_name(join(root, decimal((m + 1) as nat) + "th"@)),
        target_index(join(root, decimal((m + 1) as nat) + "th"@)) == Some(m + 1),
        max_target_index(
            targets.push(join(root, decimal((m + 1) as nat) + "th"@)),
            targets.len() + 1 as int,
        ) == m + 1,
{
    reveal_strlit("th");
    let k = (m + 1) as nat;
    let d = decimal(k);
    let name = d + "th"@;
    crate::text::lemma_decimal_digits(k);
    assert forall|i: int| 0 <= i < name.len() implies name[i] != '/' && name[i] != '.' by {
        if i < d.len() {
            assert(crate::text::is_digit(d[i]));
        }
    }
    assert(name != seq!['.']) by {
        assert(name.len() >= 3);
    }
    assert(name != seq!['.', '.']) by {
        assert(name.len() >= 3);
    }
    crate::paths::lemma_file_name_of_join(root, name);
    crate::paths::lemma_name_stem_without_dot(name);
    let p = join(root, name);
    assert(file_stem(p) == Some(name));
    assert(name.skip(name.len() - 2) =~= "th"@);
    assert(name.take(name.len() - 2) =~= d);
    crate::text::lemma_decimal_parses(k, 0, usize::MAX as int);
    lemma_max_target_index_prefix(targets, p, targets.len() as int);
    assert(targets.push(p)[targets.len() as int] == p);
}

/// Creates numbered target directories under a root.
pub struct TargetGenerator {
    target_root: String,
}

impl TargetGenerator {
    /// The root under which targets are made.
    pub closed spec fn root(&self) -> Seq<char> {
        self.target_root@
    }

    /// A generator for targets under `target_root`.
    pub fn new(target_root: String) -> (g: TargetGenerator)
        ensures
            g.root() == target_root@,
    {
        TargetGenerator { target_root }
    }

    /// Whether the directory `path` counts as an existing target (its name ends in `th`).
    pub fn is_existing_target(path: &str) -> (b: bool)
        ensures
            b == is_target_name(path@),
    {
        match file_name_of(&chars_of(path)) {
            Some(f) => ends_with_chars(&f, &chars_of("th")),
            None => false,
        }
    }

    /// The largest index among existing targets, 0 when none has one.
    pub fn find_max_index(targets: &Vec<String>) -> (m: usize)
        ensures
            m == max_target_index(string_views(targets@), targets@.len() as int),
    {
        let ghost ps = string_views(targets@);
        proof {
            reveal_strlit("th");
        }
        let mut m: usize = 0;
        let mut k: usize = 0;
        while k < targets.len()
            invariant
                ps == string_views(targets@),
                k <= targets.len(),
                m == max_target_index(ps, k as int),
            decreases targets.len() - k,
        {
            let p = chars_of(targets[k].as_str());
            assert(p@ == ps[k as int]);
            match file_stem_of(&p) {
                Some(s) => {
                    if ends_with_chars(&s, &chars_of("th")) {
                        proof {
                            reveal_strlit("th");
                        }
                        let mut t: Vec<char> = Vec::new();
                        let mut i: usize = 0;
                        while i < s.len() - 2
                            invariant
                                s@.len() >= 2,
                                i <= s@.len() - 2,
                                t@ == s@.take(i as int),
                            decreases s.len() - 2 - i,
                        {
                            t.push(s[i]);
                            i = i + 1;
                            assert(t@ =~= s@.take(i as int));
                        }
                        match parse_usize(&t) {
                            Some(v) => {
                                if v > m {
                                    m = v;
                                }
                            },
                            None => {},
                        }
                    }
                },
                None => {},
            }
            k = k + 1;
        }
        m
    }

    /// The path of the next target after the largest existing index `max_index`:
    /// `root/Nth` with `N = max_index + 1`.
    pub fn next_target(&self, max_index: usize) -> (p: String)
        requires
            max_index < usize::MAX,
        ensures
            p@ == join(self.root(), decimal((max_index + 1) as nat) + "th"@),
    {
        let mut name: Vec<char> = Vec::new();
        push_decimal(&mut name, (max_index + 1) as u64);
        name.push('t');
        name.push('h');
        let ghost d = decimal((max_index + 1) as nat);
        assert(name@ =~= d + "th"@) by {
            reveal_strlit("th");
        }
        string_of(&join_chars(&chars_of(self.target_root.as_str()), &name))
    }
}

} // verus!
