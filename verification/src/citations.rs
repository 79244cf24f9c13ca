//! Reordering Typst citations: inside each run of adjacent `#cite(<key>)` marks, the
//! keys are put in the order in which the document first cites them.

use vstd::prelude::*;
use crate::sorting::{keyed_views, lemma_sorted_by_key, names_of, sort_by_key_stable, sorted_by_key};
use crate::text::{chars_of, equal_chars, extend_chars, extend_range, string_of, views};

verus! {

/// The text that opens a citation mark.
pub open spec fn cite_open() -> Seq<char> {
    "#cite(<"@
}

/// The index of the first `>` in `s` at or after `k`, or `s.len()` if there is none.
pub open spec fn first_close(s: Seq<char>, k: int) -> int
    decreases s.len() - k,
{
    if k >= s.len() {
        s.len() as int
    } else if s[k] == '>' {
        k
    } else {
        first_close(s, k + 1)
    }
}

/// The end of the citation mark `#cite(<key>)` that starts at `i`, if one does: the
/// key runs to the first `>`, is not empty, and `>` is followed by `)`.
pub open spec fn cite_end(s: Seq<char>, i: int) -> Option<int> {
    if 0 <= i && i + 7 <= s.len() && s.subrange(i, i + 7) == cite_open() {
        let j = first_close(s, i + 7);
        if j > i + 7 && j < s.len() && s.len() - j > 1 && s[j + 1] == ')' {
            Some(j + 2)
        } else {
            None
        }
    } else {
        None
    }
}

/// The citation marks of `s` from `pos` on, as (start, end) pairs: leftmost first, each
/// search going on after the previous mark.
pub open spec fn marks_from(s: Seq<char>, pos: int) -> Seq<(int, int)>
    decreases s.len() - pos,
{
    if pos < 0 || pos >= s.len() {
        Seq::<(int, int)>::empty()
    } else {
        match cite_end(s, pos) {
            Some(e) => seq![(pos, e)] + marks_from(s, e),
            None => marks_from(s, pos + 1),
        }
    }
}

/// The key of the mark (start, end).
pub open spec fn mark_key(s: Seq<char>, m: (int, int)) -> Seq<char> {
    s.subrange(m.0 + 7, m.1 - 2)
}

/// The keys in order of first appearance, each once.
pub open spec fn first_keys(keys: Seq<Seq<char>>) -> Seq<Seq<char>>
    decreases keys.len(),
{
    if keys.len() == 0 {
        Seq::<Seq<char>>::empty()
    } else {
        let r = first_keys(keys.drop_last());
        if r.contains(keys.last()) {
            r
        } else {
            r.push(keys.last())
        }
    }
}

/// The keys in order of first appearance hold each key once, and hold exactly the
/// keys given.
pub proof fn lemma_first_keys_distinct(keys: Seq<Seq<char>>)
    ensures
        forall|i: int, j: int|
            0 <= i < j < first_keys(keys).len() ==> #[trigger] first_keys(keys)[i] != #[trigger] first_keys(keys)[j],
        forall|x: Seq<char>| first_keys(keys).contains(x) <==> keys.contains(x),
    decreases keys.len(),
{
    if keys.len() > 0 {
        let d = keys.drop_last();
        lemma_first_keys_distinct(d);
        let r = first_keys(d);
        let last = keys.last();
        let fk = first_keys(keys);
        assert(keys =~= d.push(last));
        assert forall|x: Seq<char>| fk.contains(x) <==> keys.contains(x) by {
            assert(keys.contains(x) <==> (d.contains(x) || x == last)) by {
                if keys.contains(x) && x != last {
                    let k = choose|k: int| 0 <= k < keys.len() && keys[k] == x;
                    assert(k < d.len());
                    assert(d[k] == x);
                }
                if d.contains(x) {
                    let k = choose|k: int| 0 <= k < d.len() && d[k] == x;
                    assert(keys[k] == x);
                }
                if x == last {
                    assert(keys[keys.len() - 1] == x);
                }
            }
            if r.contains(last) {
                assert(fk == r);
            } else {
                assert(fk == r.push(last));
                assert(fk.contains(x) <==> (r.contains(x) || x == last)) by {
                    if fk.contains(x) && x != last {
                        let k = choose|k: int| 0 <= k < fk.len() && fk[k] == x;
                        assert(k < r.len());
                        assert(r[k] == x);
                    }
                    if r.contains(x) {
                        let k = choose|k: int| 0 <= k < r.len() && r[k] == x;
                        assert(fk[k] == x);
                    }
                    if x == last {
                        assert(fk[fk.len() - 1] == x);
                    }
                }
            }
        }
        if !r.contains(keys.last()) {
            assert forall|i: int, j: int|
                0 <= i < j < first_keys(keys).len() implies #[trigger] first_keys(keys)[i] != #[trigger] first_keys(keys)[j] by {
                if j == r.len() {
                    assert(first_keys(keys)[i] == r[i]);
                }
            }
        }
    }
}

/// The index of the first `x` in `s`, or `s.len()`.
pub open spec fn position_of(s: Seq<Seq<char>>, x: Seq<char>) -> int
    decreases s.len(),
{
    if s.len() == 0 {
        0
    } else if s[0] == x {
        0
    } else {
        1 + position_of(s.drop_first(), x)
    }
}

/// The text of citation marks for `keys`, in order.
pub open spec fn cites(keys: Seq<Seq<char>>) -> Seq<char>
    decreases keys.len(),
{
    if keys.len() == 0 {
        Seq::<char>::empty()
    } else {
        cites(keys.drop_last()) + cite_open() + keys.last() + ">)"@
    }
}

/// The keys of a run, sorted (stably) by where `order` first lists them.
pub open spec fn ordered_keys(run: Seq<Seq<char>>, order: Seq<Seq<char>>) -> Seq<Seq<char>> {
    names_of(sorted_by_key(run.map_values(|k: Seq<char>| (k, position_of(order, k) as u64))))
}

proof fn lemma_position_of_bound(s: Seq<Seq<char>>, x: Seq<char>)
    ensures
        0 <= position_of(s, x) <= s.len(),
    decreases s.len(),
{
    if s.len() > 0 && s[0] != x {
        lemma_position_of_bound(s.drop_first(), x);
    }
}

/// Putting a run of citations in order neither loses nor adds one (each key occurs
/// as often as before) and lists the keys by where `order` first lists them.
pub proof fn lemma_ordered_keys_permute(run: Seq<Seq<char>>, order: Seq<Seq<char>>)
    requires
        order.len() <= u64::MAX,
    ensures
        ordered_keys(run, order).to_multiset() == run.to_multiset(),
        forall|i: int, j: int|
            0 <= i <= j < ordered_keys(run, order).len() ==> position_of(order, #[trigger] ordered_keys(run, order)[i])
                <= position_of(order, #[trigger] ordered_keys(run, order)[j]),
{
    broadcast use vstd::seq_lib::group_to_multiset_ensures;
    let t = run.map_values(|k: Seq<char>| (k, position_of(order, k) as u64));
    let st = sorted_by_key(t);
    crate::sorting::lemma_sorted_by_key_names(t);
    lemma_sorted_by_key(t);
    assert(names_of(t) =~= run);
    assert forall|i: int| 0 <= i < st.len() implies (#[trigger] st[i]).1 == position_of(order, st[i].0) as u64 by {
        assert(st.contains(st[i]));
        assert(t.to_multiset().count(st[i]) > 0);
        let k = choose|k: int| 0 <= k < t.len() && t[k] == st[i];
        assert(t[k] == (run[k], position_of(order, run[k]) as u64));
    }
    assert forall|i: int, j: int| 0 <= i <= j < st.len() implies position_of(order, #[trigger] names_of(st)[i])
        <= position_of(order, #[trigger] names_of(st)[j]) by {
        lemma_position_of_bound(order, st[i].0);
        lemma_position_of_bound(order, st[j].0);
        assert(st[i].1 <= st[j].1);
        assert(st[i].1 == position_of(order, st[i].0) as u64);
        assert(st[j].1 == position_of(order, st[j].0) as u64);
    }
}

/// The index one past the run of adjacent marks that starts at mark `i`: marks are
/// adjacent when one starts where the previous ends.
pub open spec fn run_end(ms: Seq<(int, int)>, i: int) -> int
    decreases ms.len() - i,
{
    if i < 0 || i + 1 >= ms.len() || ms[i + 1].0 != ms[i].1 {
        i + 1
    } else {
        run_end(ms, i + 1)
    }
}

proof fn lemma_run_end(ms: Seq<(int, int)>, i: int)
    requires
        0 <= i < ms.len(),
    ensures
        i < run_end(ms, i) <= ms.len(),
        forall|k: int| i <= k < run_end(ms, i) - 1 ==> #[trigger] ms[k + 1].0 == ms[k].1,
        run_end(ms, i) < ms.len() ==> ms[run_end(ms, i)].0 != ms[run_end(ms, i) - 1].1,
    decreases ms.len() - i,
{
    if i + 1 < ms.len() && ms[i + 1].0 == ms[i].1 {
        lemma_run_end(ms, i + 1);
    }
}

/// The rewritten text from the run starting at mark `i` to the end of `s`: each run
/// of marks in key order, the text between runs as it is.
pub open spec fn rewritten_from(s: Seq<char>, ms: Seq<(int, int)>, order: Seq<Seq<char>>, i: int) -> Seq<char>
    decreases ms.len() - i,
{
    if i < 0 || i >= ms.len() {
        Seq::<char>::empty()
    } else {
        let j = run_end(ms, i);
        let next = if j < ms.len() { ms[j].0 } else { s.len() as int };
        if j <= i || j > ms.len() {
            Seq::<char>::empty()
        } else {
            cites(ordered_keys(ms.subrange(i, j).map_values(|m: (int, int)| mark_key(s, m)), order))
                + s.subrange(ms[j - 1].1, next) + rewritten_from(s, ms, order, j)
        }
    }
}

/// The text with every run of adjacent citation marks put in order of first citation.
pub open spec fn reordered(s: Seq<char>) -> Seq<char> {
    let ms = marks_from(s, 0);
    let order = first_keys(ms.map_values(|m: (int, int)| mark_key(s, m)));
    if ms.len() == 0 {
        s
    } else {
        s.subrange(0, ms[0].0) + rewritten_from(s, ms, order, 0)
    }
}

proof fn lemma_first_close(s: Seq<char>, k: int)
    requires
        0 <= k <= s.len(),
    ensures
        k <= first_close(s, k) <= s.len(),
        first_close(s, k) < s.len() ==> s[first_close(s, k)] == '>',
        forall|t: int| k <= t < first_close(s, k) ==> s[t] != '>',
    decreases s.len() - k,
{
    if k < s.len() && s[k] != '>' {
        lemma_first_close(s, k + 1);
    }
}

/// The marks lie in order inside `s`, after `pos`, each at least nine characters long,
/// none overlapping the next.
proof fn lemma_marks(s: Seq<char>, pos: int)
    requires
        0 <= pos,
    ensures
        forall|k: int| 0 <= k < marks_from(s, pos).len() ==> pos <= (#[trigger] marks_from(s, pos)[k]).0
            && marks_from(s, pos)[k].0 + 9 <= marks_from(s, pos)[k].1 <= s.len(),
        forall|k: int| 0 <= k < marks_from(s, pos).len() - 1 ==> (#[trigger] marks_from(s, pos)[k]).1
            <= marks_from(s, pos)[k + 1].0,
    decreases s.len() - pos,
{
    if pos < s.len() {
        match cite_end(s, pos) {
            Some(e) => {
                assert(pos + 9 <= e <= s.len());
                lemma_marks(s, e);
                let r = marks_from(s, e);
                assert(marks_from(s, pos) == seq![(pos, e)] + r);
                assert forall|k: int| 0 <= k < marks_from(s, pos).len() - 1 implies (#[trigger] marks_from(s, pos)[k]).1
                    <= marks_from(s, pos)[k + 1].0 by {
                    if k > 0 {
                        assert(marks_from(s, pos)[k] == r[k - 1]);
                        assert(marks_from(s, pos)[k + 1] == r[k]);
                    } else {
                        assert(marks_from(s, pos)[1] == r[0]);
                    }
                }
                assert forall|k: int| 0 <= k < marks_from(s, pos).len() implies pos <= (#[trigger] marks_from(s, pos)[k]).0
                    && marks_from(s, pos)[k].0 + 9 <= marks_from(s, pos)[k].1 <= s.len() by {
                    if k > 0 {
                        assert(marks_from(s, pos)[k] == r[k - 1]);
                    }
                }
            },
            None => {
                assert(marks_from(s, pos) == marks_from(s, pos + 1));
                lemma_marks(s, pos + 1);
            },
        }
    }
}

/// The end of the citation mark starting at `i`, if one does.
fn cite_end_exec(s: &Vec<char>, i: usize) -> (r: Option<usize>)
    requires
        i < s.len(),
    ensures
        r matches Some(e) ==> cite_end(s@, i as int) == Some(e as int),
        r is None ==> cite_end(s@, i as int) is None,
{
    proof {
        reveal_strlit("#cite(<");
    }
    if s.len() - i < 7 {
        return None;
    }
    let open = chars_of("#cite(<");
    assert(open@.len() == 7);
    let mut t: usize = 0;
    while t < 7
        invariant
            i + 7 <= s.len(),
            open.len() == 7,
            open@ == cite_open(),
            t <= 7,
            forall|q: int| 0 <= q < t ==> s@[i + q] == open@[q],
        decreases 7 - t,
    {
        if s[i + t] != open[t] {
            assert(s@.subrange(i as int, i + 7)[t as int] != cite_open()[t as int]);
            return None;
        }
        t = t + 1;
    }
    assert(s@.subrange(i as int, i + 7) =~= cite_open());
    let mut j: usize = i + 7;
    while j < s.len() && s[j] != '>'
        invariant
            i + 7 <= j <= s.len(),
            first_close(s@, i + 7) == first_close(s@, j as int),
        decreases s.len() - j,
    {
        j = j + 1;
    }
    assert(first_close(s@, j as int) == j);
    if j > i + 7 && j < s.len() && s.len() - j > 1 && s[j + 1] == ')' {
        Some(j + 2)
    } else {
        None
    }
}

/// The citation marks of `s`, as (start, end) positions.
fn find_marks(s: &Vec<char>) -> (ms: Vec<(usize, usize)>)
    ensures
        ms@.map_values(|m: (usize, usize)| (m.0 as int, m.1 as int)) == marks_from(s@, 0),
{
    let mut ms: Vec<(usize, usize)> = Vec::new();
    let mut pos: usize = 0;
    while pos < s.len()
        invariant
            pos <= s.len(),
            marks_from(s@, 0) == ms@.map_values(|m: (usize, usize)| (m.0 as int, m.1 as int)) + marks_from(s@, pos as int),
        decreases s.len() - pos,
    {
        let ghost before = ms@.map_values(|m: (usize, usize)| (m.0 as int, m.1 as int));
        match cite_end_exec(s, pos) {
            Some(e) => {
                ms.push((pos, e));
                assert(ms@.map_values(|m: (usize, usize)| (m.0 as int, m.1 as int)) =~= before.push((pos as int, e as int)));
                assert(marks_from(s@, pos as int) == seq![(pos as int, e as int)] + marks_from(s@, e as int));
                assert(before + marks_from(s@, pos as int) =~= before.push((pos as int, e as int)) + marks_from(s@, e as int));
                pos = e;
            },
            None => {
                pos = pos + 1;
            },
        }
    }
    assert(marks_from(s@, pos as int) =~= Seq::<(int, int)>::empty());
    assert(ms@.map_values(|m: (usize, usize)| (m.0 as int, m.1 as int)) + Seq::<(int, int)>::empty()
        =~= ms@.map_values(|m: (usize, usize)| (m.0 as int, m.1 as int)));
    ms
}

/// The marks as integer pairs.
pub open spec fn mark_views(ms: Seq<(usize, usize)>) -> Seq<(int, int)> {
    ms.map_values(|m: (usize, usize)| (m.0 as int, m.1 as int))
}

pub(crate) fn first_keys_exec(keys: &Vec<Vec<char>>) -> (r: Vec<Vec<char>>)
    ensures
        views(r@) == first_keys(views(keys@)),
{
    let ghost kv = views(keys@);
    let mut r: Vec<Vec<char>> = Vec::new();
    let mut k: usize = 0;
    assert(views(r@) =~= first_keys(kv.take(0)));
    while k < keys.len()
        invariant
            k <= keys.len(),
            kv == views(keys@),
            views(r@) == first_keys(kv.take(k as int)),
        decreases keys.len() - k,
    {
        let ghost pre = kv.take(k as int);
        assert(kv.take(k as int + 1).drop_last() =~= pre);
        assert(kv.take(k as int + 1).last() == keys@[k as int]@);
        let mut found = false;
        let mut t: usize = 0;
        while t < r.len()
            invariant_except_break
                t <= r.len(),
                !found,
                forall|q: int| 0 <= q < t ==> (#[trigger] r@[q])@ != keys@[k as int]@,
            invariant
                k < keys.len(),
            ensures
                found ==> t < r.len() && r@[t as int]@ == keys@[k as int]@,
                !found ==> forall|q: int| 0 <= q < r.len() ==> (#[trigger] r@[q])@ != keys@[k as int]@,
            decreases r.len() - t,
        {
            if equal_chars(&r[t], &keys[k]) {
                found = true;
                break;
            }
            t = t + 1;
        }
        if found {
            assert(views(r@)[t as int] == keys@[k as int]@);
            assert(views(r@).contains(keys@[k as int]@));
        } else {
            assert(!views(r@).contains(keys@[k as int]@)) by {
                if views(r@).contains(keys@[k as int]@) {
                    let q = choose|q: int| 0 <= q < views(r@).len() && views(r@)[q] == keys@[k as int]@;
                    assert(r@[q]@ == keys@[k as int]@);
                }
            }
            let copy = keys[k].clone();
            r.push(copy);
            assert(views(r@) =~= first_keys(pre).push(keys@[k as int]@));
        }
        k = k + 1;
    }
    assert(kv.take(keys.len() as int) =~= kv);
    r
}

fn position_exec(order: &Vec<Vec<char>>, key: &Vec<char>) -> (p: usize)
    ensures
        p as int == position_of(views(order@), key@),
{
    let ghost ov = views(order@);
    let mut j: usize = 0;
    assert(ov.skip(0) =~= ov);
    while j < order.len()
        invariant
            j <= order.len(),
            ov == views(order@),
            position_of(ov, key@) == j + position_of(ov.skip(j as int), key@),
        decreases order.len() - j,
    {
        assert(ov.skip(j as int)[0] == order@[j as int]@);
        if equal_chars(&order[j], key) {
            return j;
        }
        assert(ov.skip(j as int).drop_first() =~= ov.skip(j as int + 1));
        j = j + 1;
    }
    j
}

proof fn lemma_position_bound(s: Seq<Seq<char>>, x: Seq<char>)
    ensures
        0 <= position_of(s, x) <= s.len(),
    decreases s.len(),
{
    if s.len() > 0 && s[0] != x {
        lemma_position_bound(s.drop_first(), x);
    }
}

/// Appends the citation marks for `names` to `out`.
fn push_cites(out: &mut Vec<char>, sorted: &Vec<(String, u64)>)
    ensures
        final(out)@ == old(out)@ + cites(names_of(keyed_views(sorted@))),
{
    let ghost start = out@;
    let ghost names = names_of(keyed_views(sorted@));
    let open = chars_of("#cite(<");
    let close = chars_of(">)");
    let mut t: usize = 0;
    assert(names.take(0) =~= Seq::<Seq<char>>::empty());
    assert(out@ =~= start + cites(names.take(0)));
    while t < sorted.len()
        invariant
            t <= sorted.len(),
            names == names_of(keyed_views(sorted@)),
            names.len() == sorted.len(),
            open@ == cite_open(),
            close@ == ">)"@,
            out@ == start + cites(names.take(t as int)),
        decreases sorted.len() - t,
    {
        assert(names.take(t as int + 1).drop_last() =~= names.take(t as int));
        assert(names.take(t as int + 1).last() == sorted@[t as int].0@);
        extend_chars(out, &open);
        extend_chars(out, &chars_of(sorted[t].0.as_str()));
        extend_chars(out, &close);
        t = t + 1;
        assert(out@ =~= start + cites(names.take(t as int)));
    }
    assert(names.take(sorted.len() as int) =~= names);
}

/// The text with every run of adjacent `#cite(<key>)` marks rewritten so that its keys
/// come in the order in which the text first cites them; everything else is kept.
pub fn reorder_citations(content: &str) -> (r: String)
    ensures
        r@ == reordered(content@),
{
    let c = chars_of(content);
    let ms = find_marks(&c);
    let ghost s = c@;
    let ghost msv = marks_from(s, 0);
    proof {
        lemma_marks(s, 0);
    }
    assert(mark_views(ms@) == msv);
    if ms.len() == 0 {
        return content.to_string();
    }
    let mut keys: Vec<Vec<char>> = Vec::new();
    let mut k: usize = 0;
    while k < ms.len()
        invariant
            k <= ms.len(),
            s == c@,
            mark_views(ms@) == msv,
            forall|q: int| 0 <= q < msv.len() ==> 0 <= (#[trigger] msv[q]).0 && msv[q].0 + 9 <= msv[q].1 <= s.len(),
            keys.len() == k,
            views(keys@) == msv.take(k as int).map_values(|m: (int, int)| mark_key(s, m)),
        decreases ms.len() - k,
    {
        let (a, b) = ms[k];
        assert(msv[k as int] == (a as int, b as int));
        let mut v: Vec<char> = Vec::new();
        extend_range(&mut v, &c, a + 7, b - 2);
        assert(v@ =~= mark_key(s, msv[k as int]));
        let ghost before = views(keys@);
        keys.push(v);
        let ghost want = msv.take(k as int + 1).map_values(|m: (int, int)| mark_key(s, m));
        assert(views(keys@).len() == want.len());
        assert forall|q: int| 0 <= q < want.len() implies #[trigger] views(keys@)[q] == want[q] by {
            if q < k {
                assert(views(keys@)[q] == before[q]);
            }
        }
        assert(views(keys@) =~= want);
        k = k + 1;
    }
    assert(msv.take(ms.len() as int) =~= msv);
    let ghost allkeys = msv.map_values(|m: (int, int)| mark_key(s, m));
    let order = first_keys_exec(&keys);
    let ghost ov = first_keys(allkeys);
    let mut out: Vec<char> = Vec::new();
    let first_start = ms[0].0;
    assert(msv[0] == (ms@[0].0 as int, ms@[0].1 as int));
    extend_range(&mut out, &c, 0, first_start);
    let mut i: usize = 0;
    while i < ms.len()
        invariant
            i <= ms.len(),
            ms.len() > 0,
            s == c@,
            mark_views(ms@) == msv,
            views(keys@) == allkeys,
            keys.len() == ms.len(),
            allkeys == msv.map_values(|m: (int, int)| mark_key(s, m)),
            views(order@) == ov,
            forall|q: int| 0 <= q < msv.len() ==> 0 <= (#[trigger] msv[q]).0 && msv[q].0 + 9 <= msv[q].1 <= s.len(),
            forall|q: int| 0 <= q < msv.len() - 1 ==> (#[trigger] msv[q]).1 <= msv[q + 1].0,
            reordered(s) == out@ + rewritten_from(s, msv, ov, i as int),
        decreases ms.len() - i,
    {
        proof {
            lemma_run_end(msv, i as int);
        }
        let mut j: usize = i + 1;
        while j < ms.len() && ms[j].0 == ms[j - 1].1
            invariant
                i < j <= ms.len(),
                mark_views(ms@) == msv,
                run_end(msv, i as int) == run_end(msv, j as int - 1),
            decreases ms.len() - j,
        {
            assert(msv[j as int] == (ms@[j as int].0 as int, ms@[j as int].1 as int));
            assert(msv[j as int - 1] == (ms@[j as int - 1].0 as int, ms@[j as int - 1].1 as int));
            j = j + 1;
        }
        proof {
            if j < ms.len() {
                assert(msv[j as int] == (ms@[j as int].0 as int, ms@[j as int].1 as int));
                assert(msv[j as int - 1] == (ms@[j as int - 1].0 as int, ms@[j as int - 1].1 as int));
            }
        }
        assert(run_end(msv, j as int - 1) == j);
        let ghost run = msv.subrange(i as int, j as int).map_values(|m: (int, int)| mark_key(s, m));
        let mut keyed: Vec<(String, u64)> = Vec::new();
        let mut t: usize = i;
        while t < j
            invariant
                i <= t <= j <= ms.len(),
                keys.len() == ms.len(),
                mark_views(ms@) == msv,
                msv.len() == ms.len(),
                views(keys@) == allkeys,
                allkeys == msv.map_values(|m: (int, int)| mark_key(s, m)),
                views(order@) == ov,
                run == msv.subrange(i as int, j as int).map_values(|m: (int, int)| mark_key(s, m)),
                keyed.len() == t - i,
                keyed_views(keyed@) == run.take(t - i).map_values(|x: Seq<char>| (x, position_of(ov, x) as u64)),
            decreases j - t,
        {
            let p = position_exec(&order, &keys[t]);
            let name = string_of(&keys[t]);
            let ghost before = keyed_views(keyed@);
            keyed.push((name, p as u64));
            assert(msv.subrange(i as int, j as int)[t - i] == msv[t as int]);
            assert(run[t - i] == allkeys[t as int]);
            assert(keys@[t as int]@ == allkeys[t as int]);
            let ghost want = run.take(t - i + 1).map_values(|x: Seq<char>| (x, position_of(ov, x) as u64));
            assert(keyed_views(keyed@).len() == want.len());
            assert forall|q: int| 0 <= q < want.len() implies #[trigger] keyed_views(keyed@)[q] == want[q] by {
                if q < t - i {
                    assert(keyed_views(keyed@)[q] == before[q]);
                }
            }
            assert(keyed_views(keyed@) =~= want);
            t = t + 1;
        }
        assert(run.take(j - i) =~= run);
        let sorted = sort_by_key_stable(&keyed);
        let ghost mid = out@;
        push_cites(&mut out, &sorted);
        assert(out@ == mid + cites(ordered_keys(run, ov)));
        let end = ms[j - 1].1;
        assert(msv[j as int - 1] == (ms@[j as int - 1].0 as int, end as int));
        let next = if j < ms.len() { ms[j].0 } else { c.len() };
        proof {
            if j < ms.len() {
                assert(msv[j as int] == (next as int, ms@[j as int].1 as int));
            }
        }
        extend_range(&mut out, &c, end, next);
        assert(rewritten_from(s, msv, ov, i as int) == cites(ordered_keys(run, ov)) + s.subrange(end as int, next as int)
            + rewritten_from(s, msv, ov, j as int));
        assert(out@ + rewritten_from(s, msv, ov, j as int) =~= mid + rewritten_from(s, msv, ov, i as int));
        i = j;
    }
    assert(rewritten_from(s, msv, ov, ms.len() as int) =~= Seq::<char>::empty());
    assert(out@ =~= reordered(s));
    string_of(&out)
}

} // verus!
