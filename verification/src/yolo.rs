//! Splitting an image/label dataset into training and validation sets, and the
//! `data.yaml` that describes it.

use vstd::prelude::*;
use std::hash::{Hash, Hasher};
use crate::collision::{lowercase, to_lowercase_text};
use crate::paths::{extension, extension_of, file_stem, file_stem_of, join, join_chars};
use crate::sorting::{lemma_ascending_unique, lemma_sorted_by_key, keyed_views, names_of, sort_by_key_stable, sorted_by_key, with_keys};
use crate::text::{
    chars_of, concat, decimal, extend_chars, push_decimal, split_chars, split_on, string_of,
    string_views, trim_chars, trimmed_nonempty, views,
};

verus! {

/// The class names listed in a classes file: one per line, trimmed, blank lines left
/// out.
pub fn class_names(content: &str) -> (v: Vec<String>)
    ensures
        string_views(v@) == trimmed_nonempty(split_on(content@, '\n')),
{
    let cs = chars_of(content);
    let pieces = split_chars(&cs, '\n');
    let ghost sp = split_on(content@, '\n');
    let mut v: Vec<String> = Vec::new();
    let mut k: usize = 0;
    while k < pieces.len()
        invariant
            views(pieces@) == sp,
            k <= pieces.len(),
            string_views(v@) == trimmed_nonempty(sp.take(k as int)),
        decreases pieces.len() - k,
    {
        let t = trim_chars(&pieces[k]);
        assert(sp.take(k as int + 1).drop_last() == sp.take(k as int));
        assert(pieces[k as int]@ == sp[k as int]);
        if t.len() > 0 {
            v.push(string_of(&t));
            assert(string_views(v@) =~= trimmed_nonempty(sp.take(k as int)).push(t@));
        }
        k = k + 1;
    }
    assert(sp.take(pieces.len() as int) == sp);
    v
}

/// Name for the text `{:?}` gives for a list of strings: the strings quoted and
/// escaped, between brackets, separated by `, `.
pub uninterp spec fn debug_list(items: Seq<Seq<char>>) -> Seq<char>;

/// Formats a list of strings with `{:?}`; the text is named `debug_list`.
#[verifier::external_body]
fn debug_strings(items: &Vec<String>) -> (s: String)
    ensures
        s@ == debug_list(string_views(items@)),
{
    format!("{:?}", items)
}

/// The contents of `data.yaml` for a dataset in `output_dir` with these classes.
pub open spec fn yaml_text(output_dir: Seq<char>, no_validation: bool, classes: Seq<Seq<char>>) -> Seq<char> {
    "train: "@ + output_dir + "/train/images"@ + "\nval: "@
        + (if no_validation { Seq::<char>::empty() } else { output_dir + "/val/images"@ })
        + "\nnc: "@ + decimal(classes.len()) + "\nnames: "@ + debug_list(classes)
}

/// The contents of `data.yaml`.
pub fn yaml_content(output_dir: &str, no_validation: bool, classes: &Vec<String>) -> (s: String)
    ensures
        s@ == yaml_text(output_dir@, no_validation, string_views(classes@)),
{
    let a = concat("train: ", output_dir);
    let b = concat(a.as_str(), "/train/images");
    let c = concat(b.as_str(), "\nval: ");
    let d = if no_validation {
        c
    } else {
        let e = concat(c.as_str(), output_dir);
        concat(e.as_str(), "/val/images")
    };
    let f = concat(d.as_str(), "\nnc: ");
    let mut v = chars_of(f.as_str());
    push_decimal(&mut v, classes.len() as u64);
    let g = chars_of("\nnames: ");
    extend_chars(&mut v, &g);
    let names = debug_strings(classes);
    let h = chars_of(names.as_str());
    extend_chars(&mut v, &h);
    proof {
        reveal_strlit("");
    }
    assert(v@ =~= yaml_text(output_dir@, no_validation, string_views(classes@)));
    string_of(&v)
}

/// Why the input directories cannot be used, if they cannot: the image directory is
/// checked first.
pub fn input_dirs_error(image_dir: &str, image_exists: bool, label_dir: &str, label_exists: bool) -> (r: Option<String>)
    ensures
        !image_exists ==> (r matches Some(e) && e@ == "Image directory does not exist: "@ + image_dir@),
        image_exists && !label_exists ==> (r matches Some(e) && e@ == "Label directory does not exist: "@ + label_dir@),
        image_exists && label_exists ==> r is None,
{
    if !image_exists {
        Some(concat("Image directory does not exist: ", image_dir))
    } else if !label_exists {
        Some(concat("Label directory does not exist: ", label_dir))
    } else {
        None
    }
}

/// The stem of an image file of the dataset: the file's extension, lower-cased, is
/// `image_ext`.
pub open spec fn image_stem(path: Seq<char>, image_ext: Seq<char>) -> Option<Seq<char>> {
    match extension(path) {
        Some(e) => if lowercase(e) == image_ext { file_stem(path) } else { None },
        None => None,
    }
}

/// The stem of `path` when it is an image of the dataset.
pub fn image_stem_of(path: &str, image_ext: &str) -> (r: Option<String>)
    ensures
        r matches Some(s) ==> image_stem(path@, image_ext@) == Some(s@),
        r is None ==> image_stem(path@, image_ext@) is None,
{
    let p = chars_of(path);
    match extension_of(&p) {
        Some(e) => {
            let es = string_of(&e);
            let low = to_lowercase_text(es.as_str());
            if crate::text::equal_chars(&chars_of(low.as_str()), &chars_of(image_ext)) {
                match file_stem_of(&p) {
                    Some(s) => Some(string_of(&s)),
                    None => None,
                }
            } else {
                None
            }
        },
        None => None,
    }
}

/// The message when the image directory holds no image of the dataset.
pub fn no_images_error(image_ext: &str) -> (s: String)
    ensures
        s@ == "No ."@ + image_ext@ + " image files found in directory"@,
{
    let a = concat("No .", image_ext);
    concat(a.as_str(), " image files found in directory")
}

/// The label file of the image with stem `name`.
pub fn label_path(label_dir: &str, name: &str) -> (s: String)
    ensures
        s@ == join(label_dir@, name@ + ".txt"@),
{
    let f = concat(name, ".txt");
    string_of(&join_chars(&chars_of(label_dir), &chars_of(f.as_str())))
}

/// Where the image and the label of one file of a split are copied from and to.
pub struct CopyPaths {
    pub src_img: String,
    pub src_label: String,
    pub dst_img: String,
    pub dst_label: String,
}

/// The four paths for copying file `name` into split `split_name`: from the image
/// and label directories into `images` and `labels` under the split's directory.
pub fn copy_paths(
    name: &str,
    image_dir: &str,
    label_dir: &str,
    output_dir: &str,
    split_name: &str,
    image_ext: &str,
) -> (r: CopyPaths)
    ensures
        r.src_img@ == join(image_dir@, name@ + "."@ + image_ext@),
        r.src_label@ == join(label_dir@, name@ + ".txt"@),
        r.dst_img@ == join(join(join(output_dir@, split_name@), "images"@), name@ + "."@ + image_ext@),
        r.dst_label@ == join(join(join(output_dir@, split_name@), "labels"@), name@ + ".txt"@),
{
    let dotted = concat(name, ".");
    let img_name = concat(dotted.as_str(), image_ext);
    let img_name_c = chars_of(img_name.as_str());
    let label_name = concat(name, ".txt");
    let label_name_c = chars_of(label_name.as_str());
    let split_dir = join_chars(&chars_of(output_dir), &chars_of(split_name));
    let img_dir = join_chars(&split_dir, &chars_of("images"));
    let lab_dir = join_chars(&split_dir, &chars_of("labels"));
    CopyPaths {
        src_img: string_of(&join_chars(&chars_of(image_dir), &img_name_c)),
        src_label: string_of(&join_chars(&chars_of(label_dir), &label_name_c)),
        dst_img: string_of(&join_chars(&img_dir, &img_name_c)),
        dst_label: string_of(&join_chars(&lab_dir, &label_name_c)),
    }
}

/// The training and validation sets: the first `split_idx` files train; the rest
/// validate unless there is no validation set.
pub fn split_at_index(files: &Vec<String>, split_idx: usize, no_validation: bool) -> (r: (Vec<String>, Vec<String>))
    requires
        split_idx <= files.len(),
    ensures
        string_views(r.0@) == string_views(files@).take(split_idx as int),
        string_views(r.1@) == if no_validation {
            Seq::<Seq<char>>::empty()
        } else {
            string_views(files@).skip(split_idx as int)
        },
        !no_validation ==> string_views(r.0@) + string_views(r.1@) == string_views(files@),
{
    let ghost names = string_views(files@);
    let mut train: Vec<String> = Vec::new();
    let mut i: usize = 0;
    assert(string_views(train@) =~= names.take(0));
    while i < split_idx
        invariant
            split_idx <= files.len(),
            names == string_views(files@),
            i <= split_idx,
            string_views(train@) == names.take(i as int),
        decreases split_idx - i,
    {
        train.push(files[i].clone());
        assert(names.take(i as int + 1) =~= names.take(i as int).push(files@[i as int]@));
        assert(string_views(train@) =~= names.take(i as int).push(files@[i as int]@));
        i = i + 1;
    }
    let mut val: Vec<String> = Vec::new();
    if !no_validation {
        let mut j: usize = split_idx;
        assert(string_views(val@) =~= names.subrange(split_idx as int, split_idx as int));
        while j < files.len()
            invariant
                split_idx <= j <= files.len(),
                names == string_views(files@),
                string_views(val@) == names.subrange(split_idx as int, j as int),
            decreases files.len() - j,
        {
            val.push(files[j].clone());
            assert(names.subrange(split_idx as int, j as int + 1) =~= names.subrange(split_idx as int, j as int).push(files@[j as int]@));
            assert(string_views(val@) =~= names.subrange(split_idx as int, j as int).push(files@[j as int]@));
            j = j + 1;
        }
        assert(names.subrange(split_idx as int, files.len() as int) =~= names.skip(split_idx as int));
        assert(names.take(split_idx as int) + names.skip(split_idx as int) =~= names);
    } else {
        assert(string_views(val@) =~= Seq::<Seq<char>>::empty());
    }
    (train, val)
}

/// Name for the hash a `DefaultHasher::new()` hasher gives a text after `str::hash`.
/// `DefaultHasher::new()` is not seeded per process: every hasher made by it is the
/// same, so the hash depends on the text alone (std does not promise the algorithm
/// stays the same across releases of Rust).
pub uninterp spec fn default_hash(s: Seq<char>) -> u64;

/// Hashes a file name with a `DefaultHasher::new()` hasher; the value is named
/// `default_hash(s)`.
#[verifier::external_body]
fn name_hash(s: &str) -> (h: u64)
    ensures
        h == default_hash(s@),
{
    let mut hasher = std::collections::hash_map::DefaultHasher::new();
    s.hash(&mut hasher);
    hasher.finish()
}

/// Each name paired with its `DefaultHasher` hash.
pub open spec fn hashed_names(names: Seq<Seq<char>>) -> Seq<(Seq<char>, u64)> {
    names.map_values(|n: Seq<char>| (n, default_hash(n)))
}

proof fn lemma_hashed_count(a: Seq<Seq<char>>, p: (Seq<char>, u64))
    ensures
        hashed_names(a).to_multiset().count(p) == if p.1 == default_hash(p.0) {
            a.to_multiset().count(p.0)
        } else {
            0
        },
    decreases a.len(),
{
    broadcast use vstd::seq_lib::group_to_multiset_ensures;
    if a.len() == 0 {
        assert(hashed_names(a) =~= Seq::<(Seq<char>, u64)>::empty());
    } else {
        let d = a.drop_last();
        lemma_hashed_count(d, p);
        assert(a =~= d.push(a.last()));
        assert(hashed_names(a) =~= hashed_names(d).push((a.last(), default_hash(a.last()))));
    }
}

/// The shuffled order does not depend on the order the files are listed in: two
/// listings of the same files give the same order, as long as no two different names
/// share a hash.
pub proof fn lemma_shuffle_order_free(a: Seq<Seq<char>>, b: Seq<Seq<char>>)
    requires
        a.to_multiset() == b.to_multiset(),
        forall|x: Seq<char>, y: Seq<char>|
            a.contains(x) && a.contains(y) && default_hash(x) == default_hash(y) ==> x == y,
    ensures
        names_of(sorted_by_key(hashed_names(a))) == names_of(sorted_by_key(hashed_names(b))),
{
    broadcast use vstd::seq_lib::group_to_multiset_ensures;
    assert(hashed_names(a).to_multiset() =~= hashed_names(b).to_multiset()) by {
        assert forall|p: (Seq<char>, u64)| hashed_names(a).to_multiset().count(p) == hashed_names(b).to_multiset().count(p) by {
            lemma_hashed_count(a, p);
            lemma_hashed_count(b, p);
        }
    }
    let sa = sorted_by_key(hashed_names(a));
    let sb = sorted_by_key(hashed_names(b));
    lemma_sorted_by_key(hashed_names(a));
    lemma_sorted_by_key(hashed_names(b));
    assert forall|x: (Seq<char>, u64), y: (Seq<char>, u64)| sa.contains(x) && sa.contains(y) && x.1 == y.1 implies x == y by {
        assert(sa.to_multiset().count(x) > 0);
        assert(sa.to_multiset().count(y) > 0);
        lemma_hashed_count(a, x);
        lemma_hashed_count(a, y);
        assert(a.contains(x.0));
        assert(a.contains(y.0));
    }
    lemma_ascending_unique(sa, sb);
}

/// The files in a fixed pseudo-random order: sorted, stably, by the hash of each
/// name.
pub fn shuffle_files(files: &Vec<String>) -> (r: Vec<String>)
    ensures
        string_views(r@) == names_of(sorted_by_key(hashed_names(string_views(files@)))),
        string_views(r@).to_multiset() == string_views(files@).to_multiset(),
{
    let mut keyed: Vec<(String, u64)> = Vec::new();
    let mut i: usize = 0;
    let ghost mut keys: Seq<u64> = Seq::empty();
    while i < files.len()
        invariant
            i <= files.len(),
            keys.len() == i,
            forall|k: int| 0 <= k < i ==> keys[k] == default_hash(#[trigger] files@[k]@),
            keyed.len() == i,
            keyed_views(keyed@) == with_keys(string_views(files@).take(i as int), keys),
        decreases files.len() - i,
    {
        let h = name_hash(files[i].as_str());
        let name = files[i].clone();
        let ghost before = keyed_views(keyed@);
        let ghost old_keys = keys;
        keyed.push((name, h));
        proof {
            keys = keys.push(h);
        }
        let ghost want = with_keys(string_views(files@).take(i as int + 1), keys);
        assert forall|k: int| 0 <= k < i implies #[trigger] want[k] == before[k] by {
            assert(before[k] == with_keys(string_views(files@).take(i as int), old_keys)[k]);
        }
        assert(keyed_views(keyed@).len() == want.len());
        assert(keyed_views(keyed@)[i as int] == want[i as int]);
        assert forall|k: int| 0 <= k < i implies #[trigger] keyed_views(keyed@)[k] == before[k] by {}
        assert(keyed_views(keyed@) =~= want);
        i = i + 1;
    }
    assert(string_views(files@).take(files.len() as int) =~= string_views(files@));
    let sorted = sort_by_key_stable(&keyed);
    let mut r: Vec<String> = Vec::new();
    let mut j: usize = 0;
    while j < sorted.len()
        invariant
            j <= sorted.len(),
            r.len() == j,
            string_views(r@) == names_of(keyed_views(sorted@)).take(j as int),
        decreases sorted.len() - j,
    {
        let name = sorted[j].0.clone();
        let ghost before = string_views(r@);
        r.push(name);
        let ghost want = names_of(keyed_views(sorted@)).take(j as int + 1);
        assert(want[j as int] == sorted@[j as int].0@);
        assert forall|k: int| 0 <= k < j implies #[trigger] want[k] == before[k] by {}
        assert(string_views(r@)[j as int] == want[j as int]);
        assert forall|k: int| 0 <= k < j implies #[trigger] string_views(r@)[k] == before[k] by {}
        assert(string_views(r@) =~= want);
        j = j + 1;
    }
    assert(names_of(keyed_views(sorted@)).take(sorted.len() as int) =~= names_of(keyed_views(sorted@)));
    assert(with_keys(string_views(files@), keys) =~= hashed_names(string_views(files@))) by {
        assert forall|k: int| 0 <= k < files.len() implies #[trigger] with_keys(string_views(files@), keys)[k]
            == hashed_names(string_views(files@))[k] by {
            assert(string_views(files@)[k] == files@[k]@);
        }
    }
    assert(string_views(r@) == names_of(sorted_by_key(hashed_names(string_views(files@)))));
    proof {
        crate::sorting::lemma_sorted_by_key_names(hashed_names(string_views(files@)));
        assert(names_of(hashed_names(string_views(files@))) =~= string_views(files@));
    }
    r
}

} // verus!
