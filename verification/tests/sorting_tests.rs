use toolbox::sorting::{sort_by_key_stable, sort_texts};

#[test]
fn sort_by_key_is_stable() {
    let items = vec![
        ("b".to_string(), 2u64),
        ("a".to_string(), 1),
        ("c".to_string(), 2),
        ("d".to_string(), 0),
    ];
    let sorted = sort_by_key_stable(&items);
    let names: Vec<&str> = sorted.iter().map(|p| p.0.as_str()).collect();
    assert_eq!(names, vec!["d", "a", "b", "c"]);
}

#[test]
fn texts_sort_in_string_order() {
    let v: Vec<String> = vec!["b", "a10", "a2", "", "B"].into_iter().map(String::from).collect();
    assert_eq!(sort_texts(&v), vec!["", "B", "a10", "a2", "b"]);
}
