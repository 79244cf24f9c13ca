use toolbox::thesis::{construct_new_filename, doc_types, selection_items, AppError};

#[test]
fn new_filename_keeps_extension() {
    let r = construct_new_filename(3, "2019001", "张三", "外文翻译", "/in/draft.v2.docx");
    assert_eq!(r.ok(), Some("3-2019001张三[外文翻译].docx".to_string()));
}

#[test]
fn new_filename_without_extension() {
    let r = construct_new_filename(12, "42", "Li", "skip", "/in/README");
    assert_eq!(r.ok(), Some("12-42Li[skip]".to_string()));
    let r = construct_new_filename(1, "42", "Li", "任务书", "/in/.hidden");
    assert_eq!(r.ok(), Some("1-42Li[任务书]".to_string()));
}

#[test]
fn thirteen_document_types_in_order() {
    let v = doc_types();
    assert_eq!(v.len(), 13);
    assert_eq!(v[0], "任务书");
    assert_eq!(v[4], "skip");
    assert_eq!(v[12], "评阅教师评阅");
}

#[test]
fn selection_lists_file_names() {
    let paths = vec!["/a/b/one.pdf".to_string(), "two.doc".to_string(), "/".to_string()];
    let r = selection_items(&paths, "任务书");
    assert_eq!(r.ok(), Some(vec!["one.pdf".to_string(), "two.doc".to_string(), String::new()]));
}

#[test]
fn selection_of_nothing_is_an_error() {
    let r = selection_items(&Vec::new(), "开题报告");
    match r {
        Err(e) => assert_eq!(
            e.to_string(),
            "Processing error: No items to select for 开题报告. This might indicate an empty input directory."
        ),
        Ok(_) => panic!("expected an error"),
    }
}

#[test]
fn error_texts() {
    assert_eq!(AppError::NoFilesFound("/tmp/x".to_string()).to_string(), "No files found in directory: /tmp/x");
    let io = std::io::Error::new(std::io::ErrorKind::Other, "disk gone");
    let e: AppError = io.into();
    assert_eq!(e.to_string(), "IO error: disk gone");
}
