use toolbox::outline::{classify_line, LineKind};

fn text(k: LineKind) -> (u8, Option<String>) {
    match k {
        LineKind::Level1(t) => (1, Some(t)),
        LineKind::Level2(t) => (2, Some(t)),
        LineKind::Level3 => (3, None),
        LineKind::Body => (0, None),
    }
}

#[test]
fn outline_lines_are_classified() {
    assert_eq!(text(classify_line("1 Introduction")), (1, Some("Introduction".to_string())));
    assert_eq!(text(classify_line("2.  Methods")), (1, Some("Methods".to_string())));
    assert_eq!(text(classify_line("1.2 Background")), (2, Some("Background".to_string())));
    assert_eq!(text(classify_line("1.2. Background")), (2, Some("Background".to_string())));
    assert_eq!(text(classify_line("1.2.3 Detail")), (3, None));
    assert_eq!(text(classify_line("Plain text")), (0, None));
    assert_eq!(text(classify_line("12")), (0, None));
    assert_eq!(text(classify_line("3 \t")), (1, Some("\t".to_string())));
    assert_eq!(text(classify_line("3 ")), (0, None));
}
