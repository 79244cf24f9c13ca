use toolbox::downloads::{download_options, download_path, existing_download_paths, is_numeric_name, pause_bounds};

#[test]
fn downloads_are_named_after_the_url() {
    assert_eq!(download_path("https://a.org/files/report.pdf", "./downloads"), "./downloads/report.pdf");
    assert_eq!(download_path("https://a.org/", "out"), "out/");
    assert_eq!(download_path("plain", "out"), "out/plain");
}

#[test]
fn downloaded_videos_are_detected_by_two_paths() {
    let (a, b) = existing_download_paths("work", "My Video");
    assert_eq!(a, "work/My Video");
    assert_eq!(b, "work/My Video.mp4");
}

#[test]
fn downloader_options_follow_the_flags() {
    assert_eq!(
        download_options("w", true, false, false, true, false, true),
        vec!["--work-dir", "w", "--video-only", "--cover-only", "--skip-cover"]
    );
    assert_eq!(download_options("", false, false, false, false, false, false), vec!["--work-dir"]);
}

#[test]
fn numeric_names_and_pauses() {
    assert!(is_numeric_name("12345"));
    assert!(is_numeric_name(""));
    assert!(!is_numeric_name("12a"));
    assert_eq!(pause_bounds(5), Some((2, 2)));
    assert_eq!(pause_bounds(9), Some((4, 6)));
    assert_eq!(pause_bounds(2), None);
}
