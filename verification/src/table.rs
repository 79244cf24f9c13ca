//! Tables read from CSV files, as rows of text fields: finding columns by header,
//! dropping empty columns, numbering groups of rows.

use vstd::prelude::*;
use crate::text::{chars_of, decimal, equal_chars, push_decimal, string_of, string_views, trim, trim_chars};

verus! {

/// The rows of a table as text.
pub open spec fn rows_view(rows: Seq<Vec<String>>) -> Seq<Seq<Seq<char>>> {
    rows.map_values(|r: Vec<String>| string_views(r@))
}

/// Column `c` holds nothing but blanks: every row either has no field `c` or has one
/// that is empty once trimmed.
pub open spec fn column_blank(rows: Seq<Seq<Seq<char>>>, c: int) -> bool {
    forall|k: int| 0 <= k < rows.len() ==> (c >= (#[trigger] rows[k]).len() || trim(rows[k][c]).len() == 0)
}

/// The blank columns among the first `n`, in increasing order.
pub open spec fn blank_columns(n: int, rows: Seq<Seq<Seq<char>>>) -> Seq<usize>
    decreases n,
{
    if n <= 0 {
        Seq::<usize>::empty()
    } else if column_blank(rows, n - 1) {
        blank_columns(n - 1, rows).push((n - 1) as usize)
    } else {
        blank_columns(n - 1, rows)
    }
}

fn column_blank_exec(records: &Vec<Vec<String>>, c: usize) -> (b: bool)
    ensures
        b == column_blank(rows_view(records@), c as int),
{
    let ghost rv = rows_view(records@);
    let mut k: usize = 0;
    while k < records.len()
        invariant
            k <= records.len(),
            rv == rows_view(records@),
            forall|q: int| 0 <= q < k ==> (c >= (#[trigger] rv[q]).len() || trim(rv[q][c as int]).len() == 0),
        decreases records.len() - k,
    {
        assert(rv[k as int] == string_views(records@[k as int]@));
        if c < records[k].len() {
            let t = trim_chars(&chars_of(records[k][c].as_str()));
            if t.len() > 0 {
                assert(!(c >= rv[k as int].len() || trim(rv[k as int][c as int]).len() == 0));
                return false;
            }
        }
        k = k + 1;
    }
    true
}

/// The columns, among the header's `num_columns`, whose fields are all blank.
pub fn identify_empty_columns(num_columns: usize, records: &Vec<Vec<String>>) -> (r: Vec<usize>)
    ensures
        r@ == blank_columns(num_columns as int, rows_view(records@)),
{
    let mut r: Vec<usize> = Vec::new();
    let mut c: usize = 0;
    while c < num_columns
        invariant
            c <= num_columns,
            r@ == blank_columns(c as int, rows_view(records@)),
        decreases num_columns - c,
    {
        if column_blank_exec(records, c) {
            r.push(c);
        }
        c = c + 1;
    }
    r
}

/// The fields of `row` whose positions are not in `removed`, in order.
pub open spec fn kept_fields(row: Seq<Seq<char>>, removed: Seq<usize>) -> Seq<Seq<char>>
    decreases row.len(),
{
    if row.len() == 0 {
        Seq::<Seq<char>>::empty()
    } else if removed.contains((row.len() - 1) as usize) {
        kept_fields(row.drop_last(), removed)
    } else {
        kept_fields(row.drop_last(), removed).push(row.last())
    }
}

fn listed_index(removed: &Vec<usize>, i: usize) -> (b: bool)
    ensures
        b == removed@.contains(i),
{
    let mut k: usize = 0;
    while k < removed.len()
        invariant
            k <= removed.len(),
            forall|q: int| 0 <= q < k ==> removed@[q] != i,
        decreases removed.len() - k,
    {
        if removed[k] == i {
            assert(removed@[k as int] == i);
            return true;
        }
        k = k + 1;
    }
    false
}

/// The new header row: the kept columns, the timestamp column renamed `timestamp`,
/// and a final `item_id` column.
pub open spec fn new_headers(headers: Seq<Seq<char>>, ts_idx: int, removed: Seq<usize>) -> Seq<Seq<char>> {
    kept_fields(renamed_headers(headers, ts_idx), removed).push("item_id"@)
}

/// The header row with the timestamp column renamed `timestamp`.
pub open spec fn renamed_headers(headers: Seq<Seq<char>>, ts_idx: int) -> Seq<Seq<char>> {
    Seq::new(headers.len(), |i: int| if i == ts_idx { "timestamp"@ } else { headers[i] })
}

/// The header row of the converted table.
pub fn build_new_headers(headers: &Vec<String>, ts_idx: usize, columns_to_remove: &Vec<usize>) -> (r: Vec<String>)
    ensures
        string_views(r@) == new_headers(string_views(headers@), ts_idx as int, columns_to_remove@),
{
    let ghost renamed = renamed_headers(string_views(headers@), ts_idx as int);
    let mut r: Vec<String> = Vec::new();
    let mut i: usize = 0;
    assert(string_views(r@) =~= kept_fields(renamed.take(0), columns_to_remove@));
    while i < headers.len()
        invariant
            i <= headers.len(),
            renamed == renamed_headers(string_views(headers@), ts_idx as int),
            string_views(r@) == kept_fields(renamed.take(i as int), columns_to_remove@),
        decreases headers.len() - i,
    {
        assert(renamed.take(i as int + 1).drop_last() =~= renamed.take(i as int));
        if !listed_index(columns_to_remove, i) {
            assert(renamed[i as int] == if i == ts_idx { "timestamp"@ } else { headers@[i as int]@ });
            let h = if i == ts_idx { "timestamp".to_string() } else { headers[i].clone() };
            r.push(h);
            assert(string_views(r@) =~= kept_fields(renamed.take(i as int), columns_to_remove@).push(renamed[i as int]));
        }
        i = i + 1;
    }
    assert(renamed.take(headers.len() as int) =~= renamed);
    let ghost body = string_views(r@);
    r.push("item_id".to_string());
    assert(string_views(r@) =~= body.push("item_id"@));
    r
}

/// The group number of row `i`: rows are numbered in groups of `group_size` from 1; a
/// group size of 0 puts every row in group 1.
pub open spec fn item_id(i: int, group_size: int) -> int {
    if group_size == 0 { 1 } else { i / group_size + 1 }
}

/// The converted rows: each row's kept fields, then its group number.
pub open spec fn converted_rows(rows: Seq<Seq<Seq<char>>>, removed: Seq<usize>, group_size: int) -> Seq<Seq<Seq<char>>> {
    Seq::new(rows.len(), |i: int| kept_fields(rows[i], removed).push(decimal(item_id(i, group_size) as nat)))
}

fn kept_of(row: &Vec<String>, removed: &Vec<usize>) -> (r: Vec<String>)
    ensures
        string_views(r@) == kept_fields(string_views(row@), removed@),
{
    let ghost rv = string_views(row@);
    let mut r: Vec<String> = Vec::new();
    let mut i: usize = 0;
    assert(string_views(r@) =~= kept_fields(rv.take(0), removed@));
    while i < row.len()
        invariant
            i <= row.len(),
            rv == string_views(row@),
            string_views(r@) == kept_fields(rv.take(i as int), removed@),
        decreases row.len() - i,
    {
        assert(rv.take(i as int + 1).drop_last() =~= rv.take(i as int));
        if !listed_index(removed, i) {
            r.push(row[i].clone());
            assert(string_views(r@) =~= kept_fields(rv.take(i as int), removed@).push(rv[i as int]));
        }
        i = i + 1;
    }
    assert(rv.take(row.len() as int) =~= rv);
    r
}

/// The rows of the converted table, in order.
pub fn process_records(records: &Vec<Vec<String>>, columns_to_remove: &Vec<usize>, group_size: usize) -> (r: Vec<Vec<String>>)
    ensures
        rows_view(r@) == converted_rows(rows_view(records@), columns_to_remove@, group_size as int),
{
    let ghost want = converted_rows(rows_view(records@), columns_to_remove@, group_size as int);
    let mut r: Vec<Vec<String>> = Vec::new();
    let mut i: usize = 0;
    while i < records.len()
        invariant
            i <= records.len(),
            r.len() == i,
            want == converted_rows(rows_view(records@), columns_to_remove@, group_size as int),
            forall|q: int| 0 <= q < i ==> string_views((#[trigger] r@[q])@) == want[q],
        decreases records.len() - i,
    {
        let mut row = kept_of(&records[i], columns_to_remove);
        let id: usize = if group_size == 0 { 1 } else { i / group_size + 1 };
        let mut d: Vec<char> = Vec::new();
        push_decimal(&mut d, id as u64);
        let ghost kept = string_views(row@);
        row.push(string_of(&d));
        assert(string_views(row@) =~= kept.push(d@));
        assert(rows_view(records@)[i as int] == string_views(records@[i as int]@));
        r.push(row);
        i = i + 1;
    }
    assert(rows_view(r@) =~= want);
    r
}

/// The position of the header named `name`, if there is one.
pub open spec fn header_position(headers: Seq<Seq<char>>, name: Seq<char>) -> Option<int>
    decreases headers.len(),
{
    if headers.len() == 0 {
        None
    } else if headers[0] == name {
        Some(0)
    } else {
        match header_position(headers.drop_first(), name) {
            Some(p) => Some(p + 1),
            None => None,
        }
    }
}

proof fn lemma_header_position(headers: Seq<Seq<char>>, name: Seq<char>)
    ensures
        header_position(headers, name) matches Some(p) ==> 0 <= p < headers.len() && headers[p] == name,
    decreases headers.len(),
{
    if headers.len() > 0 && headers[0] != name {
        lemma_header_position(headers.drop_first(), name);
    }
}

/// The position of the column named `name`.
pub fn column_index(headers: &Vec<String>, name: &str) -> (r: Option<usize>)
    ensures
        r matches Some(p) ==> header_position(string_views(headers@), name@) == Some(p as int),
        r is None ==> header_position(string_views(headers@), name@) is None,
{
    let ghost hv = string_views(headers@);
    let n = chars_of(name);
    let mut k: usize = 0;
    assert(hv.skip(0) =~= hv);
    while k < headers.len()
        invariant
            k <= headers.len(),
            hv == string_views(headers@),
            n@ == name@,
            header_position(hv, name@) == match header_position(hv.skip(k as int), name@) {
                Some(p) => Some(p + k),
                None => None,
            },
        decreases headers.len() - k,
    {
        assert(hv.skip(k as int)[0] == headers@[k as int]@);
        if equal_chars(&chars_of(headers[k].as_str()), &n) {
            return Some(k);
        }
        assert(hv.skip(k as int).drop_first() =~= hv.skip(k as int + 1));
        k = k + 1;
    }
    None
}

/// The error when a CSV file has no column of the given name.
pub fn missing_column_error(column: &str) -> (s: String)
    ensures
        s@ == "Column '"@ + column@ + "' not found in CSV"@,
{
    let a = crate::text::concat("Column '", column);
    crate::text::concat(a.as_str(), "' not found in CSV")
}

/// The field at `idx` of each row that has one, in order.
pub open spec fn column_values(rows: Seq<Seq<Seq<char>>>, idx: int) -> Seq<Seq<char>>
    decreases rows.len(),
{
    if rows.len() == 0 {
        Seq::<Seq<char>>::empty()
    } else if idx < rows.last().len() {
        column_values(rows.drop_last(), idx).push(rows.last()[idx])
    } else {
        column_values(rows.drop_last(), idx)
    }
}

/// The fields of column `idx`, from the rows that have one.
pub fn column_of(records: &Vec<Vec<String>>, idx: usize) -> (r: Vec<String>)
    ensures
        string_views(r@) == column_values(rows_view(records@), idx as int),
{
    let ghost rv = rows_view(records@);
    let mut r: Vec<String> = Vec::new();
    let mut k: usize = 0;
    assert(string_views(r@) =~= column_values(rv.take(0), idx as int));
    while k < records.len()
        invariant
            k <= records.len(),
            rv == rows_view(records@),
            string_views(r@) == column_values(rv.take(k as int), idx as int),
        decreases records.len() - k,
    {
        assert(rv.take(k as int + 1).drop_last() =~= rv.take(k as int));
        assert(rv.take(k as int + 1).last() == string_views(records@[k as int]@));
        if idx < records[k].len() {
            r.push(records[k][idx].clone());
            assert(string_views(r@) =~= column_values(rv.take(k as int), idx as int).push(records@[k as int]@[idx as int]@));
        }
        k = k + 1;
    }
    assert(rv.take(records.len() as int) =~= rv);
    r
}

/// The positions of the named columns that the header has, in the order of `names`.
pub open spec fn column_positions(headers: Seq<Seq<char>>, names: Seq<Seq<char>>) -> Seq<int>
    decreases names.len(),
{
    if names.len() == 0 {
        Seq::<int>::empty()
    } else {
        match header_position(headers, names.last()) {
            Some(p) => column_positions(headers, names.drop_last()).push(p),
            None => column_positions(headers, names.drop_last()),
        }
    }
}

proof fn lemma_column_positions(headers: Seq<Seq<char>>, names: Seq<Seq<char>>)
    ensures
        forall|k: int| 0 <= k < column_positions(headers, names).len() ==> 0 <= #[trigger] column_positions(headers, names)[k] < headers.len(),
    decreases names.len(),
{
    if names.len() > 0 {
        lemma_column_positions(headers, names.drop_last());
        lemma_header_position(headers, names.last());
        let prev = column_positions(headers, names.drop_last());
        assert forall|k: int| 0 <= k < column_positions(headers, names).len() implies 0 <= #[trigger] column_positions(headers, names)[k] < headers.len() by {
            if k < prev.len() {
                assert(column_positions(headers, names)[k] == prev[k]);
            }
        }
    }
}

/// Each row cut down to the named columns the header has, in the order of `names`.
/// Every row has as many fields as the header (as the CSV reader makes sure).
pub fn get_columns(headers: &Vec<String>, records: &Vec<Vec<String>>, names: &Vec<String>) -> (r: Vec<Vec<String>>)
    requires
        forall|k: int| 0 <= k < records.len() ==> (#[trigger] records@[k]).len() == headers.len(),
    ensures
        r.len() == records.len(),
        forall|k: int| 0 <= k < records.len() ==> string_views((#[trigger] r@[k])@) == column_positions(
            string_views(headers@),
            string_views(names@),
        ).map_values(|p: int| string_views(records@[k]@)[p]),
{
    let ghost hv = string_views(headers@);
    let ghost nv = string_views(names@);
    let mut inds: Vec<usize> = Vec::new();
    let mut t: usize = 0;
    assert(nv.take(0) =~= Seq::<Seq<char>>::empty());
    while t < names.len()
        invariant
            t <= names.len(),
            hv == string_views(headers@),
            nv == string_views(names@),
            inds@.map_values(|p: usize| p as int) == column_positions(hv, nv.take(t as int)),
        decreases names.len() - t,
    {
        assert(nv.take(t as int + 1).drop_last() =~= nv.take(t as int));
        assert(nv.take(t as int + 1).last() == names@[t as int]@);
        match column_index(headers, names[t].as_str()) {
            Some(p) => {
                inds.push(p);
                assert(inds@.map_values(|p: usize| p as int) =~= column_positions(hv, nv.take(t as int)).push(p as int));
            },
            None => {},
        }
        t = t + 1;
    }
    assert(nv.take(names.len() as int) =~= nv);
    let ghost pos = column_positions(hv, nv);
    proof {
        lemma_column_positions(hv, nv);
    }
    let mut r: Vec<Vec<String>> = Vec::new();
    let mut k: usize = 0;
    while k < records.len()
        invariant
            k <= records.len(),
            r.len() == k,
            hv == string_views(headers@),
            inds@.map_values(|p: usize| p as int) == pos,
            pos == column_positions(hv, nv),
            nv == string_views(names@),
            forall|q: int| 0 <= q < pos.len() ==> 0 <= #[trigger] pos[q] < hv.len(),
            forall|q: int| 0 <= q < records.len() ==> (#[trigger] records@[q]).len() == headers.len(),
            forall|q: int| 0 <= q < k ==> string_views((#[trigger] r@[q])@) == pos.map_values(
                |p: int| string_views(records@[q]@)[p],
            ),
        decreases records.len() - k,
    {
        let mut row: Vec<String> = Vec::new();
        let mut j: usize = 0;
        while j < inds.len()
            invariant
                j <= inds.len(),
                k < records.len(),
                inds@.map_values(|p: usize| p as int) == pos,
                forall|q: int| 0 <= q < pos.len() ==> 0 <= #[trigger] pos[q] < hv.len(),
                hv.len() == headers.len(),
                records@[k as int].len() == headers.len(),
                row.len() == j,
                string_views(row@) == pos.take(j as int).map_values(|p: int| string_views(records@[k as int]@)[p]),
            decreases inds.len() - j,
        {
            let p = inds[j];
            assert(pos[j as int] == p as int);
            let ghost before = string_views(row@);
            row.push(records[k][p].clone());
            let ghost want = pos.take(j as int + 1).map_values(|p: int| string_views(records@[k as int]@)[p]);
            assert(want[j as int] == records@[k as int]@[p as int]@);
            assert forall|q: int| 0 <= q < j implies #[trigger] string_views(row@)[q] == want[q] by {
                assert(string_views(row@)[q] == before[q]);
            }
            assert(string_views(row@) =~= want);
            j = j + 1;
        }
        assert(pos.take(inds.len() as int) =~= pos);
        r.push(row);
        k = k + 1;
    }
    r
}

} // verus!
