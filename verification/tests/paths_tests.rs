use toolbox::paths::{extension_of, file_name_of, file_stem_of, join_chars, with_extension_of};

fn c(s: &str) -> Vec<char> {
    s.chars().collect()
}

fn s(v: Vec<char>) -> String {
    v.into_iter().collect()
}

#[test]
fn names_stems_extensions() {
    assert_eq!(file_name_of(&c("/a/b.tar.gz")).map(s), Some("b.tar.gz".to_string()));
    assert_eq!(file_name_of(&c("/a/b/")).map(s), Some("b".to_string()));
    assert_eq!(file_name_of(&c("/a/b/.")).map(s), Some("b".to_string()));
    assert_eq!(file_name_of(&c("/a/..")).map(s), None);
    assert_eq!(file_name_of(&c("/")).map(s), None);
    assert_eq!(extension_of(&c("/a/b.tar.gz")).map(s), Some("gz".to_string()));
    assert_eq!(extension_of(&c(".bashrc")).map(s), None);
    assert_eq!(extension_of(&c("a.")).map(s), Some(String::new()));
    assert_eq!(file_stem_of(&c("/a/b.tar.gz")).map(s), Some("b.tar".to_string()));
    assert_eq!(file_stem_of(&c(".bashrc")).map(s), Some(".bashrc".to_string()));
}

#[test]
fn joining() {
    assert_eq!(s(join_chars(&c("/a"), &c("b"))), "/a/b");
    assert_eq!(s(join_chars(&c("/a/"), &c("b"))), "/a/b");
    assert_eq!(s(join_chars(&c(""), &c("b"))), "b");
    assert_eq!(s(join_chars(&c("/a"), &c("/b"))), "/b");
}

#[test]
fn replacing_the_extension() {
    assert_eq!(s(with_extension_of(&c("/a/b.txt"), &c("md"))), "/a/b.md");
    assert_eq!(s(with_extension_of(&c("/a/b"), &c("md"))), "/a/b.md");
    assert_eq!(s(with_extension_of(&c("/a/b.tar.gz"), &c(""))), "/a/b.tar");
    assert_eq!(s(with_extension_of(&c("/a/b.txt/"), &c("md"))), "/a/b.md");
    assert_eq!(s(with_extension_of(&c("/a/.."), &c("md"))), "/a/..");
    assert_eq!(s(with_extension_of(&c(".rc"), &c("x"))), ".rc.x");
    let std_result = std::path::Path::new("/a/b.txt/").with_extension("md");
    assert_eq!(std_result.to_str(), Some("/a/b.md"));
}
