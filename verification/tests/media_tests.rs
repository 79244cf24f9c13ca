use toolbox::media::{
    picture_destination,
    artist_id, companion_path, concat_list_text, extension_is, ffmpeg_concat_args, file_for_dir, files_to_copy,
    is_image_or_video, is_small_file, is_video_path, lacks_companion, merge_target, non_silent_regions,
    pdf_image_dir, resample_args, resample_output, should_process, too_few_media,
};

fn owned(v: &[&str]) -> Vec<String> {
    v.iter().map(|s| s.to_string()).collect()
}

#[test]
fn media_files_are_recognised() {
    assert!(is_image_or_video("a/b.jpg"));
    assert!(is_image_or_video("clip.mov"));
    assert!(!is_image_or_video("a/b.JPG"));
    assert!(!is_image_or_video("notes.txt"));
    assert!(!is_image_or_video("noext"));
}

#[test]
fn pictures_merge_by_artist() {
    assert_eq!(artist_id("in/set_alice_12345/p1.jpg"), Some("12345".to_string()));
    assert_eq!(artist_id("in/plain/p1.jpg"), Some("plain".to_string()));
    let entries = owned(&["old_12345", "x_999", "new_12345"]);
    assert_eq!(merge_target("out", &entries, "set_12345", "12345"), "out/new_12345");
    assert_eq!(merge_target("out", &entries, "set_777", "777"), "out/set_777");
}

#[test]
fn copies_are_skipped_when_the_target_is_as_large() {
    assert!(should_process(None, true, Some(5)));
    assert!(should_process(Some(5), false, None));
    assert!(should_process(Some(5), true, None));
    assert!(should_process(Some(5), true, Some(4)));
    assert!(!should_process(Some(5), true, Some(5)));
    assert!(too_few_media(3, 5));
    assert!(!too_few_media(5, 5));
}

#[test]
fn companions_and_extensions() {
    assert!(extension_is("doc/A.PDF", "pdf"));
    assert_eq!(companion_path("doc/a.pdf", "txt"), "doc/a.txt");
    assert_eq!(companion_path("doc/a", "txt"), "doc/a.txt");
    assert!(lacks_companion("doc/a.pdf", "pdf", false));
    assert!(!lacks_companion("doc/a.pdf", "pdf", true));
    assert_eq!(file_for_dir("work/folder.d"), "work/folder");
    assert_eq!(file_for_dir("work/folder/"), "work/folder");
    assert_eq!(file_for_dir("work/.."), "work/..");
}

#[test]
fn pdf_images_and_small_files() {
    assert_eq!(pdf_image_dir("in/report.pdf", "out"), Some("out/report".to_string()));
    assert!(is_small_file(1023, 1));
    assert!(!is_small_file(1024, 1));
}

#[test]
fn loud_regions_are_found() {
    let samples: Vec<i16> = vec![0, 50, -60, 0, 0, 70, 10, -80];
    assert_eq!(non_silent_regions(&samples, 20), vec![(1, 2), (5, 5), (7, 7)]);
    assert!(non_silent_regions(&vec![1, -2, 3], 20).is_empty());
}

#[test]
fn video_concatenation_inputs() {
    assert!(is_video_path("a/b.mkv"));
    assert!(!is_video_path("a/b.mp3"));
    assert_eq!(concat_list_text(&owned(&["a.mp4", "b c.mp4"])), "file 'a.mp4'\nfile 'b c.mp4'\n");
    assert_eq!(
        ffmpeg_concat_args("list.txt", "out.mp4", true),
        owned(&["-f", "concat", "-safe", "0", "-i", "list.txt", "-c", "copy", "out.mp4", "-c:v", "h264_nvenc", "-c:a", "copy"])
    );
}

#[test]
fn resampling_paths_and_arguments() {
    assert_eq!(resample_output("in/a/b.wav", "in", "out", "mp3"), Some("out/a/b.mp3".to_string()));
    assert_eq!(resample_output("elsewhere/b.wav", "in", "out", "mp3"), None);
    assert_eq!(
        resample_args("in/a.wav", "out/a.mp3", 320, 48000),
        owned(&["-i", "in/a.wav", "-vn", "-b:a", "320k", "-ar", "48000", "out/a.mp3", "-y"])
    );
}

#[test]
fn reference_files_are_paired() {
    let targets = owned(&["t/a.txt", "t/sub/b.txt", "t/c.txt"]);
    let refs = owned(&["r/a.txt", "r/sub/b.txt"]);
    let pairs = files_to_copy(&targets, "t", "r", &refs);
    assert_eq!(
        pairs,
        vec![("r/a.txt".to_string(), "t/a.txt".to_string()), ("r/sub/b.txt".to_string(), "t/sub/b.txt".to_string())]
    );
}

#[test]
fn moved_pictures_avoid_taken_names() {
    let taken = owned(&["/out/a.png", "/out/a_1.png", "/out/b.jpg"]);
    assert_eq!(picture_destination("/in/c.png", "/out", &taken), "/out/c.png".to_string());
    assert_eq!(picture_destination("/in/a.png", "/out", &taken), "/out/a_2.png".to_string());
    assert_eq!(picture_destination("/in/b.jpg", "/out/", &taken), "/out/b_1.jpg".to_string());
}

#[test]
fn a_moved_picture_always_gets_a_free_name() {
    let taken = owned(&["/out/p.jpg", "/out/p_1.jpg", "/out/p_2.jpg"]);
    assert_eq!(picture_destination("/in/p.jpg", "/out", &taken), "/out/p_3.jpg".to_string());
}
