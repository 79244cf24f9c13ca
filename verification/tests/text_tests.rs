use toolbox::text::{comma_list, join_strings, parse_i32, parse_u64, parse_usize, trim_chars, words_of};

fn c(s: &str) -> Vec<char> {
    s.chars().collect()
}

#[test]
fn integers_parse_as_std_does() {
    assert_eq!(parse_u64(&c("42")), Some(42));
    assert_eq!(parse_u64(&c("+42")), Some(42));
    assert_eq!(parse_u64(&c("-0")), None);
    assert_eq!(parse_u64(&c("")), None);
    assert_eq!(parse_u64(&c("18446744073709551615")), Some(u64::MAX));
    assert_eq!(parse_u64(&c("18446744073709551616")), None);
    assert_eq!(parse_usize(&c("0012")), Some(12));
    assert_eq!(parse_i32(&c("-2147483648")), Some(i32::MIN));
    assert_eq!(parse_i32(&c("2147483648")), None);
    assert_eq!(parse_i32(&c("1 ")), None);
}

#[test]
fn lists_and_words() {
    assert_eq!(comma_list(" py , rs,,js "), vec!["py".to_string(), "rs".to_string(), "js".to_string()]);
    let parts = vec!["a".to_string(), "b".to_string(), "c".to_string()];
    assert_eq!(join_strings(&parts, ", "), "a, b, c");
    assert_eq!(join_strings(&[], ","), "");
    let w: Vec<String> = words_of(&c("  one two\tthree  ")).into_iter().map(|v| v.into_iter().collect()).collect();
    assert_eq!(w, vec!["one".to_string(), "two".to_string(), "three".to_string()]);
    let t: String = trim_chars(&c("\t x y \n")).into_iter().collect();
    assert_eq!(t, "x y");
}

#[test]
fn written_numbers_read_back() {
    for n in [0u64, 7, 10, 99, 1000, 123456789, u64::MAX] {
        let mut v: Vec<char> = Vec::new();
        toolbox::text::push_decimal(&mut v, n);
        assert_eq!(parse_u64(&v), Some(n));
    }
}
