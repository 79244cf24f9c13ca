use toolbox::chunks::{chunk_dir_name, chunk_files, is_pdf_path, single_pdf, PdfSelectionError};

fn owned(v: &[&str]) -> Vec<String> {
    v.iter().map(|s| s.to_string()).collect()
}

#[test]
fn chunks_in_order_with_short_last() {
    let r = chunk_files(owned(&["a", "b", "c", "d", "e"]), 2);
    assert_eq!(r, vec![owned(&["a", "b"]), owned(&["c", "d"]), owned(&["e"])]);
    let r = chunk_files(owned(&["a", "b", "c", "d"]), 2);
    assert_eq!(r.len(), 2);
    assert!(chunk_files(Vec::new(), 3).is_empty());
    let r = chunk_files(owned(&["a"]), 10);
    assert_eq!(r, vec![owned(&["a"])]);
}

#[test]
fn chunk_directories_count_from_one() {
    assert_eq!(chunk_dir_name(0), "chunk_1");
    assert_eq!(chunk_dir_name(9), "chunk_10");
}

#[test]
fn pdf_selection() {
    assert!(is_pdf_path("/x/paper.pdf"));
    assert!(!is_pdf_path("/x/paper.PDF"));
    assert!(!is_pdf_path("/x/pdf"));
    assert_eq!(single_pdf("/x/a.pdf").ok(), Some(owned(&["/x/a.pdf"])));
    match single_pdf("/x/a.txt") {
        Err(e) => {
            assert!(matches!(e, PdfSelectionError::NotAPdf));
            assert_eq!(e.message(), "Specified file is not a PDF");
        },
        Ok(_) => panic!("expected an error"),
    }
}
