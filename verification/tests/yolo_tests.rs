use toolbox::yolo::{
    class_names, copy_paths, image_stem_of, input_dirs_error, label_path, no_images_error, shuffle_files,
    split_at_index, yaml_content,
};

fn owned(v: &[&str]) -> Vec<String> {
    v.iter().map(|s| s.to_string()).collect()
}

#[test]
fn classes_are_trimmed_lines() {
    assert_eq!(class_names("cat\n  dog \n\n\tbird\r\n"), owned(&["cat", "dog", "bird"]));
    assert!(class_names("").is_empty());
}

#[test]
fn data_yaml_lists_splits_and_classes() {
    let classes = owned(&["cat", "dog"]);
    assert_eq!(
        yaml_content("dataset", false, &classes),
        "train: dataset/train/images\nval: dataset/val/images\nnc: 2\nnames: [\"cat\", \"dog\"]"
    );
    assert_eq!(yaml_content("out", true, &Vec::new()), "train: out/train/images\nval: \nnc: 0\nnames: []");
}

#[test]
fn input_directories_are_checked_in_order() {
    assert_eq!(input_dirs_error("img", false, "lab", false).unwrap(), "Image directory does not exist: img");
    assert_eq!(input_dirs_error("img", true, "lab", false).unwrap(), "Label directory does not exist: lab");
    assert!(input_dirs_error("img", true, "lab", true).is_none());
}

#[test]
fn image_stems_match_the_extension_case_insensitively() {
    assert_eq!(image_stem_of("images/a.JPG", "jpg"), Some("a".to_string()));
    assert_eq!(image_stem_of("images/a.png", "jpg"), None);
    assert_eq!(image_stem_of("images/noext", "jpg"), None);
    assert_eq!(no_images_error("jpg"), "No .jpg image files found in directory");
    assert_eq!(label_path("labels", "a"), "labels/a.txt");
}

#[test]
fn copy_paths_of_a_training_file() {
    let p = copy_paths("x1", "images", "labels", "dataset", "train", "jpg");
    assert_eq!(p.src_img, "images/x1.jpg");
    assert_eq!(p.src_label, "labels/x1.txt");
    assert_eq!(p.dst_img, "dataset/train/images/x1.jpg");
    assert_eq!(p.dst_label, "dataset/train/labels/x1.txt");
}

#[test]
fn split_keeps_every_file_once() {
    let files = owned(&["a", "b", "c", "d", "e"]);
    let (train, val) = split_at_index(&files, 3, false);
    assert_eq!(train, owned(&["a", "b", "c"]));
    assert_eq!(val, owned(&["d", "e"]));
    let (train, val) = split_at_index(&files, 3, true);
    assert_eq!(train.len(), 3);
    assert!(val.is_empty());
}

#[test]
fn shuffle_is_a_fixed_permutation() {
    let files = owned(&["a", "b", "c", "d", "e", "f"]);
    let s1 = shuffle_files(&files);
    let s2 = shuffle_files(&files);
    assert_eq!(s1, s2);
    let mut sorted = s1.clone();
    sorted.sort();
    assert_eq!(sorted, files);
}

#[test]
fn the_shuffled_order_does_not_depend_on_the_listing_order() {
    let a = vec!["img1".to_string(), "img2".to_string(), "img3".to_string(), "img4".to_string()];
    let b = vec!["img3".to_string(), "img1".to_string(), "img4".to_string(), "img2".to_string()];
    let sa = shuffle_files(&a);
    assert_eq!(sa, shuffle_files(&b));
    let mut sorted = sa.clone();
    sorted.sort();
    assert_eq!(sorted, a);
}
