//! Batching PDF files into fixed-size chunks for an external converter.

use vstd::prelude::*;
use crate::paths::{extension, extension_of};
use crate::text::{chars_of, decimal, equal_chars, push_decimal, string_of, string_views};

verus! {

/// The `k`-th chunk of `s` in chunks of `n`: items `k*n` up to `(k+1)*n` or the end.
pub open spec fn chunk_at<A>(s: Seq<A>, n: int, k: int) -> Seq<A> {
    s.subrange(k * n, if (k + 1) * n <= s.len() { (k + 1) * n } else { s.len() as int })
}

/// The number of chunks of `n` that `len` items fill: `len / n` rounded up.
pub open spec fn chunk_count(len: int, n: int) -> int {
    (len + n - 1) / n
}

/// The chunks of `s`, each of `n` items except possibly the last, as `slice::chunks`
/// makes them.
pub open spec fn chunks_of<A>(s: Seq<A>, n: int) -> Seq<Seq<A>> {
    Seq::new(chunk_count(s.len() as int, n) as nat, |k: int| chunk_at(s, n, k))
}

/// The items of the chunks, chunk after chunk.
pub open spec fn flatten<A>(cs: Seq<Seq<A>>) -> Seq<A>
    decreases cs.len(),
{
    if cs.len() == 0 {
        Seq::<A>::empty()
    } else {
        flatten(cs.drop_last()) + cs.last()
    }
}

proof fn lemma_chunk_bounds(len: int, n: int, k: int) by (nonlinear_arith)
    requires
        n > 0,
        len >= 0,
        0 <= k < chunk_count(len, n),
    ensures
        k * n < len,
        0 <= k * n,
{
}

proof fn lemma_chunk_count_step(len: int, n: int, k: int) by (nonlinear_arith)
    requires
        n > 0,
        0 <= k,
        k * n < len,
    ensures
        k < chunk_count(len, n),
{
}

proof fn lemma_chunk_count_end(len: int, n: int, k: int) by (nonlinear_arith)
    requires
        n > 0,
        0 <= k,
        len >= 0,
        k * n >= len,
        k == 0 || (k - 1) * n < len,
    ensures
        k == chunk_count(len, n),
{
}

proof fn lemma_chunk_count_covers(len: int, n: int) by (nonlinear_arith)
    requires
        n > 0,
        len >= 0,
    ensures
        chunk_count(len, n) * n >= len,
        chunk_count(len, n) >= 0,
{
}

proof fn lemma_flatten_prefix<A>(s: Seq<A>, n: int, j: int)
    requires
        n > 0,
        0 <= j <= chunk_count(s.len() as int, n),
    ensures
        flatten(chunks_of(s, n).take(j)) == s.take(if j * n <= s.len() { j * n } else { s.len() as int }),
    decreases j,
{
    lemma_chunk_count_covers(s.len() as int, n);
    let cs = chunks_of(s, n);
    if j == 0 {
        assert(cs.take(0) =~= Seq::<Seq<A>>::empty());
        assert(s.take(0) =~= Seq::<A>::empty());
        assert(0 * n == 0) by (nonlinear_arith);
    } else {
        lemma_flatten_prefix(s, n, j - 1);
        lemma_chunk_bounds(s.len() as int, n, j - 1);
        assert(cs.take(j).drop_last() =~= cs.take(j - 1));
        assert(cs.take(j).last() == chunk_at(s, n, j - 1));
        assert((j - 1) * n + n == j * n) by (nonlinear_arith);
        let e = if j * n <= s.len() { j * n } else { s.len() as int };
        assert(s.take((j - 1) * n) + s.subrange((j - 1) * n, e) =~= s.take(e));
    }
}

/// Chunking loses and reorders nothing: the chunks, one after another, are the list
/// itself, and every chunk but the last holds exactly `n` items.
pub proof fn lemma_chunks_partition<A>(s: Seq<A>, n: int)
    requires
        n > 0,
    ensures
        flatten(chunks_of(s, n)) == s,
        forall|k: int| 0 <= k < chunk_count(s.len() as int, n) - 1 ==> (#[trigger] chunks_of(s, n)[k]).len() == n,
{
    let c = chunk_count(s.len() as int, n);
    lemma_chunk_count_covers(s.len() as int, n);
    lemma_flatten_prefix(s, n, c);
    assert(chunks_of(s, n).take(c) =~= chunks_of(s, n));
    assert(s.take(s.len() as int) =~= s);
    assert forall|k: int| 0 <= k < c - 1 implies (#[trigger] chunks_of(s, n)[k]).len() == n by {
        lemma_chunk_bounds(s.len() as int, n, k + 1);
        assert((k + 1) * n == k * n + n) by (nonlinear_arith);
        assert(k * n >= 0) by (nonlinear_arith) requires k >= 0, n > 0;
    }
}

/// Splits `files` into chunks of `chunk_size` files, in order; the last chunk holds
/// what is left.
pub fn chunk_files(files: Vec<String>, chunk_size: usize) -> (r: Vec<Vec<String>>)
    requires
        chunk_size > 0,
    ensures
        r@.len() == chunk_count(files@.len() as int, chunk_size as int),
        forall|k: int| 0 <= k < r@.len() ==> (#[trigger] r@[k])@ == chunk_at(files@, chunk_size as int, k),
{
    let mut r: Vec<Vec<String>> = Vec::new();
    let mut start: usize = 0;
    let n = chunk_size;
    assert(0 * (n as int) == 0) by (nonlinear_arith);
    while start < files.len()
        invariant
            n == chunk_size,
            n > 0,
            start <= files.len(),
            start == files.len() || start as int == r@.len() * n,
            start <= r@.len() * n,
            r@.len() == 0 || (r@.len() - 1) * n < files@.len(),
            forall|k: int| 0 <= k < r@.len() ==> (#[trigger] r@[k])@ == chunk_at(files@, n as int, k),
        decreases files.len() - start,
    {
        let ghost k = r@.len() as int;
        assert(start as int == k * n);
        let end: usize = if files.len() - start >= n { start + n } else { files.len() };
        let mut c: Vec<String> = Vec::new();
        let mut i: usize = start;
        while i < end
            invariant
                start <= i <= end <= files.len(),
                c@ == files@.subrange(start as int, i as int),
            decreases end - i,
        {
            c.push(files[i].clone());
            i = i + 1;
            assert(c@ =~= files@.subrange(start as int, i as int));
        }
        assert((k + 1) * n == k * n + n) by (nonlinear_arith);
        assert(c@ == chunk_at(files@, n as int, k));
        r.push(c);
        start = end;
        assert(start == files.len() || start as int == r@.len() * n);
        assert(start <= r@.len() * n);
    }
    proof {
        let k = r@.len() as int;
        lemma_chunk_count_end(files@.len() as int, n as int, k);
    }
    r
}

/// The name of the directory for the `index`-th chunk (counting from 0): `chunk_N` with
/// `N = index + 1`.
pub fn chunk_dir_name(index: usize) -> (s: String)
    requires
        index < usize::MAX,
    ensures
        s@ == "chunk_"@ + decimal((index + 1) as nat),
{
    let mut v = chars_of("chunk_");
    push_decimal(&mut v, (index + 1) as u64);
    string_of(&v)
}

/// The path names a PDF file: its extension is exactly `pdf`.
pub open spec fn is_pdf(path: Seq<char>) -> bool {
    extension(path) == Some("pdf"@)
}

/// Whether `path` has the extension `pdf`.
pub fn is_pdf_path(path: &str) -> (b: bool)
    ensures
        b == is_pdf(path@),
{
    let p = chars_of(path);
    match extension_of(&p) {
        Some(e) => equal_chars(&e, &chars_of("pdf")),
        None => false,
    }
}

/// Why no PDF list could be made.
#[derive(Debug)]
pub enum PdfSelectionError {
    /// The path names a file that is not a PDF.
    NotAPdf,
}

impl PdfSelectionError {
    /// The message shown for the error.
    pub fn message(&self) -> (s: String)
        ensures
            s@ == "Specified file is not a PDF"@,
    {
        "Specified file is not a PDF".to_string()
    }
}

/// The PDF list for a path that names a file: the file itself when it is a PDF.
pub fn single_pdf(path: &str) -> (r: Result<Vec<String>, PdfSelectionError>)
    ensures
        is_pdf(path@) ==> (r matches Ok(v) && string_views(v@) == seq![path@]),
        !is_pdf(path@) ==> (r matches Err(PdfSelectionError::NotAPdf)),
{
    if is_pdf_path(path) {
        let v = vec![path.to_string()];
        assert(string_views(v@) =~= seq![path@]);
        Ok(v)
    } else {
        Err(PdfSelectionError::NotAPdf)
    }
}

} // verus!
