//! Orders and names of files in a directory: concatenation order by the number in a
//! name, sequential renaming, and citation statistics of a document.

use vstd::prelude::*;
use crate::citations::{first_keys, first_keys_exec};
use crate::paths::{extension, extension_of, same_path, paths_equal};
use crate::sorting::{keyed_views, names_of, sort_by_key_stable, sort_texts, sorted_by_key, sorted_texts};
use crate::text::{
    lemma_decimal_then_dot,
    all_digits, chars_of, decimal, digits_value, ends_with, ends_with_chars, equal_chars, extend_chars,
    extend_range, is_digit, push_decimal, string_of, string_views, views,
};

verus! {

/// The leading run of ASCII digits of `s`.
pub open spec fn leading_digits(s: Seq<char>) -> Seq<char>
    decreases s.len(),
{
    if s.len() == 0 || !is_digit(s[0]) {
        Seq::<char>::empty()
    } else {
        seq![s[0]] + leading_digits(s.drop_first())
    }
}

/// The first run of ASCII digits in `s`, if it has a digit.
pub open spec fn first_number(s: Seq<char>) -> Option<Seq<char>>
    decreases s.len(),
{
    if s.len() == 0 {
        None
    } else if is_digit(s[0]) {
        Some(leading_digits(s))
    } else {
        first_number(s.drop_first())
    }
}

/// The sort key of a file name: its first number, read as an `i32`; 0 when it has
/// none or the number does not fit.
pub open spec fn number_key(name: Seq<char>) -> int {
    match first_number(name) {
        Some(d) => if digits_value(d) <= i32::MAX { digits_value(d) as int } else { 0 },
        None => 0,
    }
}

/// The leading run of digits is a prefix of the text made of digits, and whatever
/// follows it is not a digit.
pub(crate) proof fn lemma_leading_digits(s: Seq<char>)
    ensures
        leading_digits(s).len() <= s.len(),
        all_digits(leading_digits(s)),
        leading_digits(s) == s.take(leading_digits(s).len() as int),
        leading_digits(s).len() < s.len() ==> !is_digit(s[leading_digits(s).len() as int]),
    decreases s.len(),
{
    if s.len() > 0 && is_digit(s[0]) {
        lemma_leading_digits(s.drop_first());
        let r = leading_digits(s.drop_first());
        assert(leading_digits(s) =~= seq![s[0]] + r);
        assert(s.take(r.len() + 1 as int) =~= seq![s[0]] + s.drop_first().take(r.len() as int));
        if r.len() + 1 < s.len() {
            assert(s[r.len() + 1 as int] == s.drop_first()[r.len() as int]);
        }
    }
}

proof fn lemma_digits_value_step(d: Seq<char>)
    requires
        d.len() > 0,
    ensures
        digits_value(d) >= digits_value(d.drop_last()),
{
}

fn number_key_exec(name: &[char]) -> (k: u64)
    ensures
        k as int == number_key(name@),
{
    let mut i: usize = 0;
    assert(name@.skip(0) =~= name@);
    while i < name.len() && !('0' <= name[i] && name[i] <= '9')
        invariant
            i <= name.len(),
            first_number(name@) == first_number(name@.skip(i as int)),
        decreases name.len() - i,
    {
        assert(name@.skip(i as int)[0] == name@[i as int]);
        assert(name@.skip(i as int).drop_first() =~= name@.skip(i as int + 1));
        i = i + 1;
    }
    if i == name.len() {
        assert(name@.skip(i as int) =~= Seq::<char>::empty());
        return 0;
    }
    assert(name@.skip(i as int)[0] == name@[i as int]);
    let ghost rest = name@.skip(i as int);
    assert(first_number(name@) == Some(leading_digits(rest)));
    proof {
        lemma_leading_digits(rest);
    }
    let mut j: usize = i;
    let mut value: u64 = 0;
    let mut fits = true;
    while j < name.len() && '0' <= name[j] && name[j] <= '9'
        invariant
            i <= j <= name.len(),
            rest == name@.skip(i as int),
            forall|q: int| i <= q < j ==> is_digit(#[trigger] name@[q]),
            fits ==> value as int == digits_value(name@.subrange(i as int, j as int)),
            fits ==> value <= i32::MAX,
            !fits ==> digits_value(name@.subrange(i as int, j as int)) > i32::MAX,
        decreases name.len() - j,
    {
        let d = (name[j] as u32 - '0' as u32) as u64;
        let ghost prev = name@.subrange(i as int, j as int);
        assert(name@.subrange(i as int, j as int + 1).drop_last() =~= prev);
        assert(name@.subrange(i as int, j as int + 1).last() == name@[j as int]);
        if fits {
            let next = value * 10 + d;
            if next > i32::MAX as u64 {
                fits = false;
            } else {
                value = next;
            }
        } else {
            proof {
                lemma_digits_value_step(name@.subrange(i as int, j as int + 1));
            }
        }
        j = j + 1;
    }
    proof {
        assert(j - i <= rest.len());
        if (j - i) < rest.len() {
            assert(rest[j - i] == name@[j as int]);
        }
        assert forall|q: int| 0 <= q < j - i implies is_digit(#[trigger] rest[q]) by {
            assert(rest[q] == name@[i + q]);
        }
        lemma_leading_prefix(rest, (j - i) as int);
        assert(name@.subrange(i as int, j as int) =~= rest.take((j - i) as int));
    }
    if fits { value } else { 0 }
}

proof fn lemma_leading_prefix(s: Seq<char>, n: int)
    requires
        0 <= n <= s.len(),
        forall|q: int| 0 <= q < n ==> is_digit(#[trigger] s[q]),
        n == s.len() || !is_digit(s[n]),
    ensures
        leading_digits(s) == s.take(n),
    decreases s.len(),
{
    if s.len() > 0 && is_digit(s[0]) {
        assert(n > 0);
        assert forall|q: int| 0 <= q < n - 1 implies is_digit(#[trigger] s.drop_first()[q]) by {
            assert(s.drop_first()[q] == s[q + 1]);
        }
        if n - 1 < s.drop_first().len() {
            assert(s.drop_first()[n - 1] == s[n]);
        }
        lemma_leading_prefix(s.drop_first(), n - 1);
        assert(s.take(n) =~= seq![s[0]] + s.drop_first().take(n - 1));
    } else {
        assert(n == 0);
        assert(s.take(0) =~= Seq::<char>::empty());
    }
}

/// The file names in the order their texts are concatenated: by the number in each
/// name, files with equal numbers in the order given.
pub open spec fn concat_order(names: Seq<Seq<char>>) -> Seq<Seq<char>> {
    names_of(sorted_by_key(names.map_values(|n: Seq<char>| (n, number_key(n) as u64))))
}

/// The files in concatenation order.
pub fn order_by_number(names: &Vec<String>) -> (r: Vec<String>)
    ensures
        string_views(r@) == concat_order(string_views(names@)),
{
    let ghost nv = string_views(names@);
    let mut keyed: Vec<(String, u64)> = Vec::new();
    let mut i: usize = 0;
    while i < names.len()
        invariant
            i <= names.len(),
            nv == string_views(names@),
            keyed.len() == i,
            keyed_views(keyed@) == nv.take(i as int).map_values(|n: Seq<char>| (n, number_key(n) as u64)),
        decreases names.len() - i,
    {
        let k = number_key_exec(&chars_of(names[i].as_str()));
        let ghost before = keyed_views(keyed@);
        keyed.push((names[i].clone(), k));
        let ghost want = nv.take(i as int + 1).map_values(|n: Seq<char>| (n, number_key(n) as u64));
        assert(want[i as int] == (names@[i as int]@, k));
        assert forall|q: int| 0 <= q < i implies #[trigger] keyed_views(keyed@)[q] == want[q] by {
            assert(keyed_views(keyed@)[q] == before[q]);
        }
        assert(keyed_views(keyed@) =~= want);
        i = i + 1;
    }
    assert(nv.take(names.len() as int) =~= nv);
    let sorted = sort_by_key_stable(&keyed);
    let mut r: Vec<String> = Vec::new();
    let mut j: usize = 0;
    while j < sorted.len()
        invariant
            j <= sorted.len(),
            r.len() == j,
            string_views(r@) == names_of(keyed_views(sorted@)).take(j as int),
        decreases sorted.len() - j,
    {
        let ghost before = string_views(r@);
        r.push(sorted[j].0.clone());
        let ghost want = names_of(keyed_views(sorted@)).take(j as int + 1);
        assert(want[j as int] == sorted@[j as int].0@);
        assert forall|q: int| 0 <= q < j implies #[trigger] string_views(r@)[q] == want[q] by {
            assert(string_views(r@)[q] == before[q]);
        }
        assert(string_views(r@) =~= want);
        j = j + 1;
    }
    assert(names_of(keyed_views(sorted@)).take(sorted.len() as int) =~= names_of(keyed_views(sorted@)));
    r
}

/// A directory entry is concatenated when its name ends in `.txt` and it is not the
/// output file itself.
pub fn is_text_input(name: &str, path: &str, output: &str) -> (b: bool)
    ensures
        b == (ends_with(name@, ".txt"@) && !same_path(path@, output@)),
{
    ends_with_chars(&chars_of(name), &chars_of(".txt")) && !paths_equal(path, output)
}

/// The new name of the `i`-th file (from 0) in name order: its number from 1, then
/// `.` and its extension when it has a non-empty one.
pub open spec fn numbered_name(i: int, name: Seq<char>) -> Seq<char> {
    decimal((i + 1) as nat) + match extension(name) {
        Some(e) => if e.len() > 0 { "."@ + e } else { Seq::<char>::empty() },
        None => Seq::<char>::empty(),
    }
}

/// Files at different places in the order get different new names, whatever their
/// extensions: the number before the first `.` tells them apart.
pub proof fn lemma_numbered_names_differ(i: int, j: int, a: Seq<char>, b: Seq<char>)
    requires
        0 <= i,
        0 <= j,
        i != j,
    ensures
        numbered_name(i, a) != numbered_name(j, b),
{
    reveal_strlit(".");
    let x = match extension(a) {
        Some(e) => if e.len() > 0 { "."@ + e } else { Seq::<char>::empty() },
        None => Seq::<char>::empty(),
    };
    let y = match extension(b) {
        Some(e) => if e.len() > 0 { "."@ + e } else { Seq::<char>::empty() },
        None => Seq::<char>::empty(),
    };
    if numbered_name(i, a) == numbered_name(j, b) {
        lemma_decimal_then_dot((i + 1) as nat, (j + 1) as nat, x, y);
    }
}

/// The renaming of a directory's files: the names in text order, each with its new
/// number name.
pub fn rename_plan(names: &Vec<String>) -> (r: Vec<(String, String)>)
    requires
        names.len() < u64::MAX,
    ensures
        r.len() == names.len(),
        forall|i: int| 0 <= i < r.len() ==> (#[trigger] r@[i]).0@ == sorted_texts(string_views(names@))[i]
            && r@[i].1@ == numbered_name(i, sorted_texts(string_views(names@))[i]),
        forall|i: int, j: int| 0 <= i < j < r.len() ==> (#[trigger] r@[i]).1@ != (#[trigger] r@[j]).1@,
{
    let sorted = sort_texts(names);
    proof {
        crate::sorting::lemma_sorted_texts_len(string_views(names@));
    }
    let mut r: Vec<(String, String)> = Vec::new();
    let mut i: usize = 0;
    while i < sorted.len()
        invariant
            i <= sorted.len(),
            sorted.len() == names.len(),
            names.len() < u64::MAX,
            r.len() == i,
            string_views(sorted@) == sorted_texts(string_views(names@)),
            forall|q: int| 0 <= q < i ==> (#[trigger] r@[q]).0@ == string_views(sorted@)[q]
                && r@[q].1@ == numbered_name(q, string_views(sorted@)[q]),
        decreases sorted.len() - i,
    {
        let mut v: Vec<char> = Vec::new();
        push_decimal(&mut v, (i + 1) as u64);
        let ghost base = v@;
        match extension_of(&chars_of(sorted[i].as_str())) {
            Some(e) => {
                if e.len() > 0 {
                    v.push('.');
                    extend_chars(&mut v, &e);
                    proof {
                        reveal_strlit(".");
                    }
                    assert(v@ =~= base + ("."@ + e@));
                } else {
                    assert(v@ =~= base + Seq::<char>::empty());
                }
            },
            None => {
                assert(v@ =~= base + Seq::<char>::empty());
            },
        }
        assert(string_views(sorted@)[i as int] == sorted@[i as int]@);
        r.push((sorted[i].clone(), string_of(&v)));
        i = i + 1;
    }
    assert forall|i: int, j: int| 0 <= i < j < r.len() implies (#[trigger] r@[i]).1@ != (#[trigger] r@[j]).1@ by {
        lemma_numbered_names_differ(i, j, string_views(sorted@)[i], string_views(sorted@)[j]);
    }
    r
}

/// The end of the citation `#cite(key)` that starts at `i`, if one does: the key runs
/// to the first `)` and is not empty.
pub open spec fn plain_cite_end(s: Seq<char>, i: int) -> Option<int> {
    if 0 <= i && i + 6 <= s.len() && s.subrange(i, i + 6) == "#cite("@ {
        let j = first_paren(s, i + 6);
        if j > i + 6 && j < s.len() {
            Some(j + 1)
        } else {
            None
        }
    } else {
        None
    }
}

/// The index of the first `)` in `s` at or after `k`, or `s.len()`.
pub open spec fn first_paren(s: Seq<char>, k: int) -> int
    decreases s.len() - k,
{
    if k >= s.len() {
        s.len() as int
    } else if s[k] == ')' {
        k
    } else {
        first_paren(s, k + 1)
    }
}

/// The keys of the citations of `s` from `pos` on, leftmost first, each search going
/// on after the previous citation.
pub open spec fn cite_keys_from(s: Seq<char>, pos: int) -> Seq<Seq<char>>
    decreases s.len() - pos,
{
    if pos < 0 || pos >= s.len() {
        Seq::<Seq<char>>::empty()
    } else {
        match plain_cite_end(s, pos) {
            Some(e) => seq![s.subrange(pos + 6, e - 1)] + cite_keys_from(s, e),
            None => cite_keys_from(s, pos + 1),
        }
    }
}

fn plain_cite_end_exec(s: &Vec<char>, i: usize) -> (r: Option<usize>)
    requires
        i < s.len(),
    ensures
        r matches Some(e) ==> plain_cite_end(s@, i as int) == Some(e as int),
        r is None ==> plain_cite_end(s@, i as int) is None,
{
    proof {
        reveal_strlit("#cite(");
    }
    if s.len() - i < 6 {
        return None;
    }
    let open = chars_of("#cite(");
    assert(open@.len() == 6);
    let mut t: usize = 0;
    while t < 6
        invariant
            i + 6 <= s.len(),
            open.len() == 6,
            open@ == "#cite("@,
            t <= 6,
            forall|q: int| 0 <= q < t ==> s@[i + q] == open@[q],
        decreases 6 - t,
    {
        if s[i + t] != open[t] {
            assert(s@.subrange(i as int, i + 6)[t as int] != "#cite("@[t as int]);
            return None;
        }
        t = t + 1;
    }
    assert(s@.subrange(i as int, i + 6) =~= "#cite("@);
    let mut j: usize = i + 6;
    while j < s.len() && s[j] != ')'
        invariant
            i + 6 <= j <= s.len(),
            first_paren(s@, i + 6) == first_paren(s@, j as int),
        decreases s.len() - j,
    {
        j = j + 1;
    }
    assert(first_paren(s@, j as int) == j);
    if j > i + 6 && j < s.len() {
        Some(j + 1)
    } else {
        None
    }
}

/// The keys of the `#cite(key)` citations of a text, in order.
pub fn cite_keys(content: &str) -> (r: Vec<Vec<char>>)
    ensures
        views(r@) == cite_keys_from(content@, 0),
{
    let s = chars_of(content);
    let mut r: Vec<Vec<char>> = Vec::new();
    let mut pos: usize = 0;
    while pos < s.len()
        invariant
            pos <= s.len(),
            s@ == content@,
            cite_keys_from(s@, 0) == views(r@) + cite_keys_from(s@, pos as int),
        decreases s.len() - pos,
    {
        match plain_cite_end_exec(&s, pos) {
            Some(e) => {
                let mut k: Vec<char> = Vec::new();
                extend_range(&mut k, &s, pos + 6, e - 1);
                let ghost before = views(r@);
                r.push(k);
                assert(views(r@) =~= before.push(s@.subrange(pos + 6, e - 1)));
                assert(cite_keys_from(s@, pos as int) == seq![s@.subrange(pos + 6, e - 1)] + cite_keys_from(s@, e as int));
                assert(before + cite_keys_from(s@, pos as int) =~= views(r@) + cite_keys_from(s@, e as int));
                pos = e;
            },
            None => {
                pos = pos + 1;
            },
        }
    }
    assert(cite_keys_from(s@, pos as int) =~= Seq::<Seq<char>>::empty());
    assert(views(r@) + Seq::<Seq<char>>::empty() =~= views(r@));
    r
}

/// How often and where (as indices among all citations) a key is cited.
pub struct CitationStat {
    pub key: String,
    pub count: usize,
    pub positions: Vec<usize>,
}

/// The indices at which `k` occurs in `keys`.
pub open spec fn occurrences(keys: Seq<Seq<char>>, k: Seq<char>) -> Seq<int>
    decreases keys.len(),
{
    if keys.len() == 0 {
        Seq::<int>::empty()
    } else if keys.last() == k {
        occurrences(keys.drop_last(), k).push(keys.len() - 1)
    } else {
        occurrences(keys.drop_last(), k)
    }
}

/// The cited keys, most cited first (keys cited equally often in order of first
/// citation), each with its count and positions, keeping those cited at least
/// `threshold` times.
pub open spec fn citation_table(keys: Seq<Seq<char>>, threshold: int) -> Seq<Seq<char>> {
    names_of(sorted_by_key(first_keys(keys).map_values(
        |k: Seq<char>| (k, (u64::MAX - occurrences(keys, k).len()) as u64),
    ))).filter(|k: Seq<char>| occurrences(keys, k).len() >= threshold)
}

fn occurrences_exec(keys: &Vec<Vec<char>>, k: &[char]) -> (r: Vec<usize>)
    ensures
        r@.map_values(|p: usize| p as int) == occurrences(views(keys@), k@),
{
    let ghost kv = views(keys@);
    let mut r: Vec<usize> = Vec::new();
    let mut i: usize = 0;
    assert(r@.map_values(|p: usize| p as int) =~= occurrences(kv.take(0), k@));
    while i < keys.len()
        invariant
            i <= keys.len(),
            kv == views(keys@),
            r@.map_values(|p: usize| p as int) == occurrences(kv.take(i as int), k@),
        decreases keys.len() - i,
    {
        assert(kv.take(i as int + 1).drop_last() =~= kv.take(i as int));
        assert(kv.take(i as int + 1).last() == keys@[i as int]@);
        if equal_chars(&keys[i], k) {
            r.push(i);
            assert(r@.map_values(|p: usize| p as int) =~= occurrences(kv.take(i as int), k@).push(i as int));
        }
        i = i + 1;
    }
    assert(kv.take(keys.len() as int) =~= kv);
    r
}

proof fn lemma_occurrences_len(keys: Seq<Seq<char>>, k: Seq<char>)
    ensures
        occurrences(keys, k).len() <= keys.len(),
    decreases keys.len(),
{
    if keys.len() > 0 {
        lemma_occurrences_len(keys.drop_last(), k);
    }
}

/// The citation statistics of a text: the keys cited at least `threshold` times, most
/// cited first, with their counts and positions.
pub fn citation_stats(content: &str, threshold: usize) -> (r: Vec<CitationStat>)
    ensures
        r@.map_values(|c: CitationStat| c.key@) == citation_table(cite_keys_from(content@, 0), threshold as int),
        forall|i: int| 0 <= i < r.len() ==> (#[trigger] r@[i]).positions@.map_values(|p: usize| p as int)
            == occurrences(cite_keys_from(content@, 0), r@[i].key@) && r@[i].count == r@[i].positions.len(),
{
    let keys = cite_keys(content);
    let ghost kv = views(keys@);
    let distinct = first_keys_exec(&keys);
    let ghost dv = views(distinct@);
    let mut keyed: Vec<(String, u64)> = Vec::new();
    let mut i: usize = 0;
    while i < distinct.len()
        invariant
            i <= distinct.len(),
            kv == views(keys@),
            dv == views(distinct@),
            dv == first_keys(kv),
            keyed.len() == i,
            keyed_views(keyed@) == dv.take(i as int).map_values(
                |k: Seq<char>| (k, (u64::MAX - occurrences(kv, k).len()) as u64),
            ),
        decreases distinct.len() - i,
    {
        let occ = occurrences_exec(&keys, &distinct[i]);
        proof {
            lemma_occurrences_len(kv, distinct@[i as int]@);
        }
        let key = u64::MAX - occ.len() as u64;
        let ghost before = keyed_views(keyed@);
        keyed.push((string_of(&distinct[i]), key));
        let ghost want = dv.take(i as int + 1).map_values(|k: Seq<char>| (k, (u64::MAX - occurrences(kv, k).len()) as u64));
        assert(dv[i as int] == distinct@[i as int]@);
        assert(want[i as int] == (distinct@[i as int]@, key));
        assert forall|q: int| 0 <= q < i implies #[trigger] keyed_views(keyed@)[q] == want[q] by {
            assert(keyed_views(keyed@)[q] == before[q]);
        }
        assert(keyed_views(keyed@) =~= want);
        i = i + 1;
    }
    assert(dv.take(distinct.len() as int) =~= dv);
    let sorted = sort_by_key_stable(&keyed);
    let ghost ordered = names_of(keyed_views(sorted@));
    let mut r: Vec<CitationStat> = Vec::new();
    let mut j: usize = 0;
    while j < sorted.len()
        invariant
            j <= sorted.len(),
            kv == views(keys@),
            ordered == names_of(keyed_views(sorted@)),
            r@.map_values(|c: CitationStat| c.key@) == ordered.take(j as int).filter(
                |k: Seq<char>| occurrences(kv, k).len() >= threshold,
            ),
            forall|q: int| 0 <= q < r.len() ==> (#[trigger] r@[q]).positions@.map_values(|p: usize| p as int)
                == occurrences(kv, r@[q].key@) && r@[q].count == r@[q].positions.len(),
        decreases sorted.len() - j,
    {
        let kc = chars_of(sorted[j].0.as_str());
        let occ = occurrences_exec(&keys, &kc);
        assert(ordered[j as int] == sorted@[j as int].0@);
        assert(ordered.take(j as int + 1).drop_last() =~= ordered.take(j as int));
        let ghost before = r@.map_values(|c: CitationStat| c.key@);
        if occ.len() >= threshold {
            r.push(CitationStat { key: sorted[j].0.clone(), count: occ.len(), positions: occ });
            assert(r@.map_values(|c: CitationStat| c.key@) =~= before.push(ordered[j as int]));
        }
        proof {
            ordered.take(j as int).lemma_filter_push(
                ordered[j as int],
                |k: Seq<char>| occurrences(kv, k).len() >= threshold,
            );
            assert(ordered.take(j as int).push(ordered[j as int]) =~= ordered.take(j as int + 1));
        }
        j = j + 1;
    }
    assert(ordered.take(sorted.len() as int) =~= ordered);
    r
}

/// The text with every `#cite(key)` citation removed unless the character just before
/// it is `等`, from position `pos` on.
pub open spec fn uncited_from(s: Seq<char>, pos: int) -> Seq<char>
    decreases s.len() - pos,
{
    if pos < 0 || pos >= s.len() {
        Seq::<char>::empty()
    } else {
        match plain_cite_end(s, pos) {
            Some(e) => (if pos > 0 && s[pos - 1] == '等' { s.subrange(pos, e) } else { Seq::<char>::empty() })
                + uncited_from(s, e),
            None => seq![s[pos]] + uncited_from(s, pos + 1),
        }
    }
}

/// The text with the citations that do not follow `等` removed.
pub fn drop_uncredited_citations(content: &str) -> (r: String)
    ensures
        r@ == uncited_from(content@, 0),
{
    let s = chars_of(content);
    let mut out: Vec<char> = Vec::new();
    let mut pos: usize = 0;
    while pos < s.len()
        invariant
            pos <= s.len(),
            s@ == content@,
            uncited_from(s@, 0) == out@ + uncited_from(s@, pos as int),
        decreases s.len() - pos,
    {
        match plain_cite_end_exec(&s, pos) {
            Some(e) => {
                let ghost before = out@;
                if pos > 0 && s[pos - 1] == '等' {
                    extend_range(&mut out, &s, pos, e);
                } else {
                    assert(out@ =~= before + Seq::<char>::empty());
                }
                assert(before + uncited_from(s@, pos as int) =~= out@ + uncited_from(s@, e as int));
                pos = e;
            },
            None => {
                let ghost before = out@;
                out.push(s[pos]);
                assert(before + uncited_from(s@, pos as int) =~= out@ + uncited_from(s@, pos + 1));
                pos = pos + 1;
            },
        }
    }
    assert(uncited_from(s@, pos as int) =~= Seq::<char>::empty());
    assert(out@ + Seq::<char>::empty() =~= out@);
    string_of(&out)
}

} // verus!
