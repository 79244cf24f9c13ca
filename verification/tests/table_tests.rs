use toolbox::table::{
    build_new_headers, column_index, column_of, get_columns, identify_empty_columns, missing_column_error,
    process_records,
};

fn row(v: &[&str]) -> Vec<String> {
    v.iter().map(|s| s.to_string()).collect()
}

#[test]
fn blank_columns_are_found() {
    let records = vec![row(&["1", " ", "a", ""]), row(&["2", "", "", "\t"]), row(&["3"])];
    assert_eq!(identify_empty_columns(4, &records), vec![1, 3]);
    assert_eq!(identify_empty_columns(4, &Vec::new()), vec![0, 1, 2, 3]);
}

#[test]
fn headers_are_rebuilt() {
    let headers = row(&["time", "blank", "value"]);
    assert_eq!(build_new_headers(&headers, 0, &vec![1]), row(&["timestamp", "value", "item_id"]));
    assert_eq!(build_new_headers(&headers, 2, &vec![]), row(&["time", "blank", "timestamp", "item_id"]));
}

#[test]
fn rows_get_group_numbers() {
    let records = vec![row(&["a", "x", "1"]), row(&["b", "y", "2"]), row(&["c", "z", "3"])];
    let out = process_records(&records, &vec![1], 2);
    assert_eq!(out, vec![row(&["a", "1", "1"]), row(&["b", "2", "1"]), row(&["c", "3", "2"])]);
    let out = process_records(&records, &vec![], 0);
    assert_eq!(out[2], row(&["c", "z", "3", "1"]));
}

#[test]
fn columns_are_found_by_header() {
    let headers = row(&["title", "url", "url"]);
    assert_eq!(column_index(&headers, "url"), Some(1));
    assert_eq!(column_index(&headers, "size"), None);
    assert_eq!(missing_column_error("size"), "Column 'size' not found in CSV");
    let records = vec![row(&["t1", "u1", "v1"]), row(&["t2"])];
    assert_eq!(column_of(&records, 1), row(&["u1"]));
}

#[test]
fn named_columns_are_extracted() {
    let headers = row(&["title", "url", "note"]);
    let records = vec![row(&["t1", "u1", "n1"]), row(&["t2", "u2", "n2"])];
    let names = row(&["url", "missing", "title"]);
    assert_eq!(get_columns(&headers, &records, &names), vec![row(&["u1", "t1"]), row(&["u2", "t2"])]);
}
