//! Stable sorting of named items by an integer key, the order `sort_by_key` gives.

use vstd::prelude::*;
use crate::text::string_views;

verus! {

/// `s` with `x` put after the last element whose key is not greater than `x`'s.
pub open spec fn insert_by_key(s: Seq<(Seq<char>, u64)>, x: (Seq<char>, u64)) -> Seq<(Seq<char>, u64)>
    decreases s.len(),
{
    if s.len() == 0 {
        seq![x]
    } else if s.last().1 <= x.1 {
        s.push(x)
    } else {
        insert_by_key(s.drop_last(), x).push(s.last())
    }
}

/// The stable sort of `s` by key: equal keys keep their order.
pub open spec fn sorted_by_key(s: Seq<(Seq<char>, u64)>) -> Seq<(Seq<char>, u64)>
    decreases s.len(),
{
    if s.len() == 0 {
        s
    } else {
        insert_by_key(sorted_by_key(s.drop_last()), s.last())
    }
}

/// The keys of `s` never decrease.
pub open spec fn keys_ascending(s: Seq<(Seq<char>, u64)>) -> bool {
    forall|i: int, j: int| 0 <= i <= j < s.len() ==> s[i].1 <= s[j].1
}

/// Two lists ascending by key that hold the same elements are the same list, when
/// no two different elements share a key.
pub(crate) proof fn lemma_ascending_unique(s: Seq<(Seq<char>, u64)>, t: Seq<(Seq<char>, u64)>)
    requires
        s.to_multiset() == t.to_multiset(),
        keys_ascending(s),
        keys_ascending(t),
        forall|x: (Seq<char>, u64), y: (Seq<char>, u64)| s.contains(x) && s.contains(y) && x.1 == y.1 ==> x == y,
    ensures
        s == t,
    decreases s.len(),
{
    broadcast use vstd::seq_lib::group_to_multiset_ensures;
    assert(s.to_multiset().len() == s.len());
    assert(t.to_multiset().len() == t.len());
    assert(s.len() == t.len());
    if s.len() == 0 {
        assert(s =~= t);
    } else {
        assert(t.contains(t[0]));
        assert(t.to_multiset().count(t[0]) > 0);
        assert(s.to_multiset().count(t[0]) > 0);
        assert(s.contains(t[0]));
        let k = choose|k: int| 0 <= k < s.len() && s[k] == t[0];
        assert(s[0].1 <= s[k].1);
        assert(s.contains(s[0]));
        assert(s.to_multiset().count(s[0]) > 0);
        assert(t.to_multiset().count(s[0]) > 0);
        assert(t.contains(s[0]));
        let m = choose|m: int| 0 <= m < t.len() && t[m] == s[0];
        assert(t[0].1 <= t[m].1);
        assert(s[0] == t[0]);
        let s1 = s.remove(0);
        let t1 = t.remove(0);
        assert(s1 =~= s.drop_first());
        assert(t1 =~= t.drop_first());
        assert(s1.to_multiset() == t1.to_multiset());
        assert forall|x: (Seq<char>, u64)| s1.contains(x) implies s.contains(x) by {
            let q = choose|q: int| 0 <= q < s1.len() && s1[q] == x;
            assert(s[q + 1] == x);
        }
        assert forall|i: int, j: int| 0 <= i <= j < s1.len() implies s1[i].1 <= s1[j].1 by {
            assert(s1[i] == s[i + 1] && s1[j] == s[j + 1]);
        }
        assert forall|i: int, j: int| 0 <= i <= j < t1.len() implies t1[i].1 <= t1[j].1 by {
            assert(t1[i] == t[i + 1] && t1[j] == t[j + 1]);
        }
        lemma_ascending_unique(s1, t1);
        assert(s =~= seq![s[0]] + s1);
        assert(t =~= seq![t[0]] + t1);
    }
}

proof fn lemma_insert_by_key(s: Seq<(Seq<char>, u64)>, x: (Seq<char>, u64))
    requires
        keys_ascending(s),
    ensures
        keys_ascending(insert_by_key(s, x)),
        insert_by_key(s, x).to_multiset() == s.to_multiset().insert(x),
        insert_by_key(s, x).len() == s.len() + 1,
    decreases s.len(),
{
    broadcast use vstd::seq_lib::group_to_multiset_ensures;
    if s.len() > 0 {
        if s.last().1 <= x.1 {
        } else {
            let d = s.drop_last();
            assert(keys_ascending(d));
            lemma_insert_by_key(d, x);
            let r = insert_by_key(d, x);
            assert(s =~= d.push(s.last()));
            assert forall|i: int| 0 <= i < r.len() implies r[i].1 <= s.last().1 by {
                assert(r.to_multiset().count(r[i]) > 0);
                assert(d.to_multiset().insert(x).count(r[i]) > 0);
                if r[i] != x {
                    assert(d.to_multiset().count(r[i]) > 0);
                    assert(d.contains(r[i]));
                    let k = choose|k: int| 0 <= k < d.len() && d[k] == r[i];
                    assert(s[k] == d[k]);
                }
            }
        }
    }
}

/// The stable sort by key is ascending and holds the same elements.
pub proof fn lemma_sorted_by_key(s: Seq<(Seq<char>, u64)>)
    ensures
        keys_ascending(sorted_by_key(s)),
        sorted_by_key(s).to_multiset() == s.to_multiset(),
        sorted_by_key(s).len() == s.len(),
    decreases s.len(),
{
    broadcast use vstd::seq_lib::group_to_multiset_ensures;
    if s.len() > 0 {
        lemma_sorted_by_key(s.drop_last());
        lemma_insert_by_key(sorted_by_key(s.drop_last()), s.last());
        assert(s =~= s.drop_last().push(s.last()));
    }
}

proof fn lemma_insert_by_key_names(s: Seq<(Seq<char>, u64)>, x: (Seq<char>, u64))
    ensures
        names_of(insert_by_key(s, x)).to_multiset() == names_of(s).to_multiset().insert(x.0),
    decreases s.len(),
{
    broadcast use vstd::seq_lib::group_to_multiset_ensures;
    if s.len() == 0 {
        assert(names_of(seq![x]) =~= Seq::<Seq<char>>::empty().push(x.0));
        assert(names_of(s) =~= Seq::<Seq<char>>::empty());
    } else if s.last().1 <= x.1 {
        assert(names_of(s.push(x)) =~= names_of(s).push(x.0));
    } else {
        let d = s.drop_last();
        lemma_insert_by_key_names(d, x);
        assert(names_of(insert_by_key(d, x).push(s.last())) =~= names_of(insert_by_key(d, x)).push(s.last().0));
        assert(names_of(s) =~= names_of(d).push(s.last().0));
        assert(names_of(d).to_multiset().insert(x.0).insert(s.last().0) =~= names_of(d).to_multiset().insert(
            s.last().0,
        ).insert(x.0));
    }
}

/// Sorting by key keeps the names: each name occurs as often as before.
pub proof fn lemma_sorted_by_key_names(s: Seq<(Seq<char>, u64)>)
    ensures
        names_of(sorted_by_key(s)).to_multiset() == names_of(s).to_multiset(),
    decreases s.len(),
{
    broadcast use vstd::seq_lib::group_to_multiset_ensures;
    if s.len() == 0 {
    } else {
        lemma_sorted_by_key_names(s.drop_last());
        lemma_insert_by_key_names(sorted_by_key(s.drop_last()), s.last());
        assert(names_of(s) =~= names_of(s.drop_last()).push(s.last().0));
    }
}

/// The views of a list of named keys.
pub open spec fn keyed_views(v: Seq<(String, u64)>) -> Seq<(Seq<char>, u64)> {
    v.map_values(|p: (String, u64)| (p.0@, p.1))
}

fn insert_keyed(sorted: &mut Vec<(String, u64)>, x: (String, u64))
    ensures
        keyed_views(final(sorted)@) == insert_by_key(keyed_views(old(sorted)@), (x.0@, x.1)),
    decreases old(sorted)@.len(),
{
    let ghost xv = (x.0@, x.1);
    if sorted.len() == 0 {
        sorted.push(x);
        assert(keyed_views(sorted@) =~= seq![xv]);
    } else if sorted[sorted.len() - 1].1 <= x.1 {
        sorted.push(x);
        assert(keyed_views(sorted@) =~= keyed_views(old(sorted)@).push(xv));
    } else {
        let last = sorted.pop().unwrap();
        assert(keyed_views(sorted@) =~= keyed_views(old(sorted)@).drop_last());
        insert_keyed(sorted, x);
        sorted.push(last);
        assert(keyed_views(sorted@) =~= insert_by_key(keyed_views(old(sorted)@).drop_last(), xv).push(
            keyed_views(old(sorted)@).last(),
        ));
    }
}

/// `items` sorted by key, stably: the order `sort_by_key` gives.
pub fn sort_by_key_stable(items: &Vec<(String, u64)>) -> (r: Vec<(String, u64)>)
    ensures
        keyed_views(r@) == sorted_by_key(keyed_views(items@)),
{
    let ghost all = keyed_views(items@);
    let mut r: Vec<(String, u64)> = Vec::new();
    let mut i: usize = 0;
    assert(keyed_views(r@) =~= sorted_by_key(all.take(0)));
    while i < items.len()
        invariant
            i <= items.len(),
            all == keyed_views(items@),
            keyed_views(r@) == sorted_by_key(all.take(i as int)),
        decreases items.len() - i,
    {
        let x = (items[i].0.clone(), items[i].1);
        assert(all.take(i as int + 1).drop_last() =~= all.take(i as int));
        assert((x.0@, x.1) == all.take(i as int + 1).last());
        insert_keyed(&mut r, x);
        i = i + 1;
    }
    assert(all.take(items.len() as int) =~= all);
    r
}

/// Names paired with keys, position by position.
pub open spec fn with_keys(names: Seq<Seq<char>>, keys: Seq<u64>) -> Seq<(Seq<char>, u64)> {
    Seq::new(names.len(), |i: int| (names[i], keys[i]))
}

/// The names of a list of named keys.
pub open spec fn names_of(s: Seq<(Seq<char>, u64)>) -> Seq<Seq<char>> {
    s.map_values(|p: (Seq<char>, u64)| p.0)
}

/// `s` with `x` put after the last element that is not greater than `x` in text order.
pub open spec fn insert_text(s: Seq<Seq<char>>, x: Seq<char>) -> Seq<Seq<char>>
    decreases s.len(),
{
    if s.len() == 0 {
        seq![x]
    } else if crate::mods::text_le(s.last(), x) {
        s.push(x)
    } else {
        insert_text(s.drop_last(), x).push(s.last())
    }
}

/// The stable sort of `s` in text order, as `sort_by` on strings gives it.
pub open spec fn sorted_texts(s: Seq<Seq<char>>) -> Seq<Seq<char>>
    decreases s.len(),
{
    if s.len() == 0 {
        s
    } else {
        insert_text(sorted_texts(s.drop_last()), s.last())
    }
}

fn insert_text_exec(sorted: &mut Vec<String>, x: String)
    ensures
        string_views(final(sorted)@) == insert_text(string_views(old(sorted)@), x@),
    decreases old(sorted)@.len(),
{
    let xv = crate::text::chars_of(x.as_str());
    if sorted.len() == 0 {
        sorted.push(x);
        assert(string_views(sorted@) =~= seq![x@]);
    } else if crate::mods::text_le_exec(&crate::text::chars_of(sorted[sorted.len() - 1].as_str()), &xv) {
        sorted.push(x);
        assert(string_views(sorted@) =~= string_views(old(sorted)@).push(x@));
    } else {
        let last = sorted.pop().unwrap();
        assert(string_views(sorted@) =~= string_views(old(sorted)@).drop_last());
        insert_text_exec(sorted, x);
        sorted.push(last);
        assert(string_views(sorted@) =~= insert_text(string_views(old(sorted)@).drop_last(), xv@).push(
            string_views(old(sorted)@).last(),
        ));
    }
}

/// The texts in text order; equal texts keep their order.
pub fn sort_texts(items: &Vec<String>) -> (r: Vec<String>)
    ensures
        string_views(r@) == sorted_texts(string_views(items@)),
{
    let ghost all = string_views(items@);
    let mut r: Vec<String> = Vec::new();
    let mut i: usize = 0;
    assert(string_views(r@) =~= sorted_texts(all.take(0)));
    while i < items.len()
        invariant
            i <= items.len(),
            all == string_views(items@),
            string_views(r@) == sorted_texts(all.take(i as int)),
        decreases items.len() - i,
    {
        assert(all.take(i as int + 1).drop_last() =~= all.take(i as int));
        assert(all.take(i as int + 1).last() == items@[i as int]@);
        insert_text_exec(&mut r, items[i].clone());
        i = i + 1;
    }
    assert(all.take(items.len() as int) =~= all);
    r
}

proof fn lemma_insert_text_len(s: Seq<Seq<char>>, x: Seq<char>)
    ensures
        insert_text(s, x).len() == s.len() + 1,
    decreases s.len(),
{
    if s.len() > 0 && !crate::mods::text_le(s.last(), x) {
        lemma_insert_text_len(s.drop_last(), x);
    }
}

/// Sorting keeps the number of texts.
pub proof fn lemma_sorted_texts_len(s: Seq<Seq<char>>)
    ensures
        sorted_texts(s).len() == s.len(),
    decreases s.len(),
{
    if s.len() > 0 {
        lemma_sorted_texts_len(s.drop_last());
        lemma_insert_text_len(sorted_texts(s.drop_last()), s.last());
    }
}

} // verus!
