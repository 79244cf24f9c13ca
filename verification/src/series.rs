//! Time series extracted from NetCDF files: which input files are read, the checks
//! on a variable's shape, the order of the samples and their timestamps.

use vstd::prelude::*;
use crate::collision::{lowercase, to_lowercase_text};
use crate::paths::{extension, extension_of};
use crate::text::{chars_of, concat, decimal, equal_chars, push_decimal, string_of, string_views};

verus! {

/// Name for the text of the moment `seconds` after midnight of the date
/// `year-month-day`, formatted by chrono with `format`; none when chrono's calendar
/// cannot hold the date or the moment.
pub uninterp spec fn timestamp_text(year: i32, month: u32, day: u32, seconds: int, format: Seq<char>) -> Option<Seq<char>>;

/// The format of the timestamps written, year to second.
pub open spec fn timestamp_format() -> Seq<char> {
    "%Y-%m-%d %H:%M:%S"@
}

/// The timestamp text of the moment `seconds` after 1900-01-01 00:00:00.
pub open spec fn since_1900(seconds: int) -> Option<Seq<char>> {
    timestamp_text(1900, 1, 1, seconds, timestamp_format())
}

/// Adds `seconds` to midnight of `year-month-day` with chrono
/// (`NaiveDate::from_ymd_opt`, `TimeDelta::try_seconds`,
/// `NaiveDateTime::checked_add_signed`) and formats the moment with `format`; the text
/// is named `timestamp_text`. The format is the one written here, which chrono accepts
/// (an invalid one makes `to_string` panic). chrono's dates run from -262143-01-01 to
/// 262142-12-31 (`MIN_YEAR`, `MAX_YEAR`), so a moment counted from 1900-01-01 has a
/// text exactly when it lies from 8,332,392,240,000 seconds before it to
/// 8,212,475,865,599 seconds after it.
#[verifier::external_body]
fn chrono_timestamp(year: i32, month: u32, day: u32, seconds: i64, format: &str) -> (r: Option<String>)
    requires
        format@ == timestamp_format(),
    ensures
        r matches Some(t) ==> timestamp_text(year, month, day, seconds as int, format@) == Some(t@),
        r is None ==> timestamp_text(year, month, day, seconds as int, format@) is None,
        year == 1900 && month == 1 && day == 1 ==> (r is Some <==> -8_332_392_240_000 <= seconds <= 8_212_475_865_599),
{
    let base = chrono::NaiveDate::from_ymd_opt(year, month, day)?.and_hms_opt(0, 0, 0)?;
    let moment = base.checked_add_signed(chrono::TimeDelta::try_seconds(seconds)?)?;
    Some(moment.format(format).to_string())
}

/// The timestamp text of the moment `seconds` after 1900-01-01 00:00:00, if chrono's
/// calendar holds it.
pub fn seconds_timestamp(seconds: i64) -> (r: Option<String>)
    ensures
        r matches Some(t) ==> since_1900(seconds as int) == Some(t@),
        r is None ==> since_1900(seconds as int) is None,
        r is Some <==> -8_332_392_240_000 <= seconds <= 8_212_475_865_599,
{
    proof {
        reveal_strlit("%Y-%m-%d %H:%M:%S");
    }
    chrono_timestamp(1900, 1, 1, seconds, "%Y-%m-%d %H:%M:%S")
}

/// The timestamp `seconds` after 1900-01-01 00:00:00, for every moment chrono's
/// calendar holds.
pub fn internal_seconds_to_timestamp_string(seconds_since_1900: i64) -> (s: String)
    requires
        -8_332_392_240_000 <= seconds_since_1900 <= 8_212_475_865_599,
    ensures
        since_1900(seconds_since_1900 as int) == Some(s@),
{
    match seconds_timestamp(seconds_since_1900) {
        Some(t) => t,
        None => String::new(),
    }
}

/// The timestamp of an internal time value, read as seconds since 1900-01-01
/// 00:00:00, for every moment chrono's calendar holds.
pub fn hours_to_timestamp_string(hours: i64) -> (s: String)
    requires
        -8_332_392_240_000 <= hours <= 8_212_475_865_599,
    ensures
        since_1900(hours as int) == Some(s@),
{
    internal_seconds_to_timestamp_string(hours)
}

/// The input files of a conversion: every `.nc` file of a directory, or a single `.nc`
/// file; an error says why there are none.
pub open spec fn nc_inputs(input: Seq<char>, exists: bool, is_dir: bool, is_file: bool, walked: Seq<Seq<char>>) -> Result<Seq<Seq<char>>, Seq<char>> {
    if !exists {
        Err("Input path does not exist: "@ + input)
    } else if is_dir && !is_file {
        let found = walked.filter(|p: Seq<char>| extension(p) == Some("nc"@));
        if found.len() == 0 {
            Err("No .nc files found in directory: "@ + input)
        } else {
            Ok(found)
        }
    } else if !is_dir && is_file {
        if extension(input) == Some("nc"@) {
            Ok(seq![input])
        } else {
            Err("Input file is not a .nc file: "@ + input)
        }
    } else {
        Err("Input path is not a valid file or directory: "@ + input)
    }
}

fn is_nc(path: &str) -> (b: bool)
    ensures
        b == (extension(path@) == Some("nc"@)),
{
    match extension_of(&chars_of(path)) {
        Some(e) => equal_chars(&e, &chars_of("nc")),
        None => false,
    }
}

/// The `.nc` files to read, given what the input path is and, for a directory, the
/// files found under it.
pub fn collect_input_files(input: &str, exists: bool, is_dir: bool, is_file: bool, walked: &Vec<String>) -> (r: Result<Vec<String>, String>)
    ensures
        match nc_inputs(input@, exists, is_dir, is_file, string_views(walked@)) {
            Ok(fs) => r matches Ok(v) && string_views(v@) == fs,
            Err(m) => r matches Err(e) && e@ == m,
        },
{
    if !exists {
        return Err(concat("Input path does not exist: ", input));
    }
    if is_dir && !is_file {
        let ghost wv = string_views(walked@);
        let mut found: Vec<String> = Vec::new();
        let mut k: usize = 0;
        while k < walked.len()
            invariant
                k <= walked.len(),
                wv == string_views(walked@),
                string_views(found@) == wv.take(k as int).filter(|p: Seq<char>| extension(p) == Some("nc"@)),
            decreases walked.len() - k,
        {
            let ghost before = string_views(found@);
            if is_nc(walked[k].as_str()) {
                found.push(walked[k].clone());
                assert(string_views(found@) =~= before.push(walked@[k as int]@));
            }
            proof {
                wv.take(k as int).lemma_filter_push(walked@[k as int]@, |p: Seq<char>| extension(p) == Some("nc"@));
                assert(wv.take(k as int).push(walked@[k as int]@) =~= wv.take(k as int + 1));
            }
            k = k + 1;
        }
        assert(wv.take(walked.len() as int) =~= wv);
        if found.len() == 0 {
            return Err(concat("No .nc files found in directory: ", input));
        }
        return Ok(found);
    }
    if !is_dir && is_file {
        if is_nc(input) {
            let v = vec![input.to_string()];
            assert(string_views(v@) =~= seq![input@]);
            return Ok(v);
        }
        return Err(concat("Input file is not a .nc file: ", input));
    }
    Err(concat("Input path is not a valid file or directory: ", input))
}

fn number_text(n: usize) -> (s: String)
    ensures
        s@ == decimal(n as nat),
{
    let mut v: Vec<char> = Vec::new();
    push_decimal(&mut v, n as u64);
    string_of(&v)
}

/// The length of dimension `k`, or 0 when the variable has no such dimension.
pub open spec fn dim_len(dims: Seq<usize>, k: int) -> int {
    if k < dims.len() { dims[k] as int } else { 0 }
}

/// Why a variable cannot be sampled at the point's indices, if it cannot: it needs
/// at least three dimensions (time, latitude, longitude), and the indices must lie
/// within the dimensions at positions `lat_dim` and `lon_dim`.
pub open spec fn shape_problem_at(
    variable: Seq<char>,
    dataset: Seq<char>,
    dims: Seq<usize>,
    lat_dim: int,
    lon_dim: int,
    lat_idx: usize,
    lon_idx: usize,
) -> Option<Seq<char>> {
    if dims.len() < 3 {
        Some("Variable '"@ + variable + "' in "@ + dataset + " has insufficient dimensions (expected >=3, got "@
            + decimal(dims.len()) + ")"@)
    } else if lat_idx >= dim_len(dims, lat_dim) {
        Some("Latitude index "@ + decimal(lat_idx as nat) + " out of bounds for "@ + dataset + " (lat_dim_len: "@
            + decimal(dim_len(dims, lat_dim) as nat) + ")"@)
    } else if lon_idx >= dim_len(dims, lon_dim) {
        Some("Longitude index "@ + decimal(lon_idx as nat) + " out of bounds for "@ + dataset + " (lon_dim_len: "@
            + decimal(dim_len(dims, lon_dim) as nat) + ")"@)
    } else {
        None
    }
}

/// The shape problem of a variable whose dimensions are (time, latitude, longitude).
pub open spec fn shape_problem(variable: Seq<char>, dataset: Seq<char>, dims: Seq<usize>, lat_idx: usize, lon_idx: usize) -> Option<Seq<char>> {
    shape_problem_at(variable, dataset, dims, 1, 2, lat_idx, lon_idx)
}

/// The first position from `k` on of a dimension whose lower-cased name is `short`
/// or `long`.
pub open spec fn named_dim_from(names: Seq<Seq<char>>, short: Seq<char>, long: Seq<char>, k: int) -> Option<int>
    decreases names.len() - k,
{
    if k < 0 || k >= names.len() {
        None
    } else if lowercase(names[k]) == short || lowercase(names[k]) == long {
        Some(k)
    } else {
        named_dim_from(names, short, long, k + 1)
    }
}

/// The position of the dimension named `short` or `long` (letter case ignored), or
/// `fallback` when no dimension has either name.
pub open spec fn dim_position(names: Seq<Seq<char>>, short: Seq<char>, long: Seq<char>, fallback: int) -> int {
    match named_dim_from(names, short, long, 0) {
        Some(k) => k,
        None => fallback,
    }
}

/// Where a dimension is among the variable's dimension names.
pub fn dimension_position(names: &Vec<String>, short: &str, long: &str, fallback: usize) -> (r: usize)
    ensures
        r == dim_position(string_views(names@), short@, long@, fallback as int),
{
    let ghost nv = string_views(names@);
    let mut k: usize = 0;
    while k < names.len()
        invariant
            k <= names.len(),
            nv == string_views(names@),
            named_dim_from(nv, short@, long@, 0) == named_dim_from(nv, short@, long@, k as int),
        decreases names.len() - k,
    {
        let l = to_lowercase_text(names[k].as_str());
        assert(nv[k as int] == names@[k as int]@);
        if equal_chars(&chars_of(l.as_str()), &chars_of(short)) || equal_chars(&chars_of(l.as_str()), &chars_of(long)) {
            return k;
        }
        k = k + 1;
    }
    fallback
}

fn join3(a: &str, b: &str, c: &str) -> (s: String)
    ensures
        s@ == a@ + b@ + c@,
{
    let x = concat(a, b);
    concat(x.as_str(), c)
}

/// The shape check of a variable before sampling it, with its latitude and longitude
/// at dimension positions `lat_dim` and `lon_dim`.
pub fn check_shape_at(
    variable: &str,
    dataset: &str,
    dims: &Vec<usize>,
    lat_dim: usize,
    lon_dim: usize,
    lat_idx: usize,
    lon_idx: usize,
) -> (r: Option<String>)
    ensures
        match shape_problem_at(variable@, dataset@, dims@, lat_dim as int, lon_dim as int, lat_idx, lon_idx) {
            Some(m) => r matches Some(e) && e@ == m,
            None => r is None,
        },
{
    if dims.len() < 3 {
        let a = join3("Variable '", variable, "' in ");
        let b = join3(a.as_str(), dataset, " has insufficient dimensions (expected >=3, got ");
        let n = number_text(dims.len());
        return Some(join3(b.as_str(), n.as_str(), ")"));
    }
    let lat_len: usize = if lat_dim < dims.len() { dims[lat_dim] } else { 0 };
    let lon_len: usize = if lon_dim < dims.len() { dims[lon_dim] } else { 0 };
    if lat_idx >= lat_len {
        let a = join3("Latitude index ", number_text(lat_idx).as_str(), " out of bounds for ");
        let b = join3(a.as_str(), dataset, " (lat_dim_len: ");
        return Some(join3(b.as_str(), number_text(lat_len).as_str(), ")"));
    }
    if lon_idx >= lon_len {
        let a = join3("Longitude index ", number_text(lon_idx).as_str(), " out of bounds for ");
        let b = join3(a.as_str(), dataset, " (lon_dim_len: ");
        return Some(join3(b.as_str(), number_text(lon_len).as_str(), ")"));
    }
    None
}

/// The shape check of a variable whose dimensions are (time, latitude, longitude).
pub fn check_shape(variable: &str, dataset: &str, dims: &Vec<usize>, lat_idx: usize, lon_idx: usize) -> (r: Option<String>)
    ensures
        match shape_problem(variable@, dataset@, dims@, lat_idx, lon_idx) {
            Some(m) => r matches Some(e) && e@ == m,
            None => r is None,
        },
{
    check_shape_at(variable, dataset, dims, 1, 2, lat_idx, lon_idx)
}

/// The check that a file has one timestamp per value.
pub fn check_lengths(dataset: &str, values: usize, times: usize) -> (r: Option<String>)
    ensures
        values == times ==> r is None,
        values != times ==> (r matches Some(e) && e@ == "Mismatch in data points/timestamps in "@ + dataset@ + " ("@
            + decimal(values as nat) + " vs "@ + decimal(times as nat) + ")"@),
{
    if values == times {
        return None;
    }
    let a = join3("Mismatch in data points/timestamps in ", dataset, " (");
    let b = join3(a.as_str(), number_text(values).as_str(), " vs ");
    Some(join3(b.as_str(), number_text(times).as_str(), ")"))
}

/// The message when no file gave any data.
pub fn no_data_error() -> (s: String)
    ensures
        s@ == "No data extracted. All files/groups might have failed processing or contained no matching data."@,
{
    "No data extracted. All files/groups might have failed processing or contained no matching data.".to_string()
}

/// `order` lists each index below `n` exactly once.
pub open spec fn is_permutation(order: Seq<usize>, n: int) -> bool {
    &&& order.len() == n
    &&& forall|i: int| 0 <= i < order.len() ==> order[i] < n
    &&& forall|i: int, j: int| 0 <= i < j < order.len() ==> order[i] != order[j]
}

/// The keys along `order` never decrease.
pub open spec fn ascending_along(keys: Seq<i64>, order: Seq<usize>) -> bool {
    forall|i: int, j: int| 0 <= i <= j < order.len() ==> keys[order[i] as int] <= keys[order[j] as int]
}

/// The order in which samples are written: by timestamp, earliest first.
pub fn timestamp_order(keys: &Vec<i64>) -> (order: Vec<usize>)
    ensures
        is_permutation(order@, keys.len() as int),
        ascending_along(keys@, order@),
{
    let mut order: Vec<usize> = Vec::new();
    let mut i: usize = 0;
    while i < keys.len()
        invariant
            i <= keys.len(),
            is_permutation(order@, i as int),
            ascending_along(keys@, order@),
        decreases keys.len() - i,
    {
        let x = keys[i];
        let mut p: usize = 0;
        while p < order.len() && keys[order[p]] <= x
            invariant
                p <= order.len(),
                is_permutation(order@, i as int),
                i < keys.len(),
                forall|q: int| 0 <= q < p ==> keys@[order@[q] as int] <= x,
            decreases order.len() - p,
        {
            p = p + 1;
        }
        let ghost old_order = order@;
        order.insert(p, i);
        assert(order@ == old_order.insert(p as int, i));
        assert forall|a: int, b: int| 0 <= a <= b < order@.len() implies keys@[order@[a] as int] <= keys@[order@[b] as int] by {
            if a < p && b < p {
                assert(order@[a] == old_order[a] && order@[b] == old_order[b]);
            } else if a < p && b == p {
            } else if a < p && b > p {
                assert(order@[a] == old_order[a] && order@[b] == old_order[b - 1]);
                assert(keys@[old_order[a] as int] <= keys@[old_order[b - 1] as int]);
            } else if a == p && b == p {
            } else if a == p && b > p {
                assert(order@[b] == old_order[b - 1]);
                assert(keys@[old_order[p as int] as int] > x);
                assert(keys@[old_order[p as int] as int] <= keys@[old_order[b - 1] as int]);
            } else {
                assert(order@[a] == old_order[a - 1] && order@[b] == old_order[b - 1]);
            }
        }
        assert forall|a: int, b: int| 0 <= a < b < order@.len() implies order@[a] != order@[b] by {
            if a == p {
                assert(order@[b] == old_order[b - 1]);
            } else if b == p {
                assert(order@[a] == old_order[a]);
            } else {
                let ia = if a < p { a } else { a - 1 };
                let ib = if b < p { b } else { b - 1 };
                assert(order@[a] == old_order[ia] && order@[b] == old_order[ib]);
            }
        }
        assert forall|a: int| 0 <= a < order@.len() implies order@[a] < i + 1 by {
            if a < p {
                assert(order@[a] == old_order[a]);
            } else if a > p {
                assert(order@[a] == old_order[a - 1]);
            }
        }
        i = i + 1;
    }
    order
}

} // verus!
