use toolbox::markdown::{
    free_image_number, image_extension, is_local_image, numbered_image_name, process_markdown_images,
    update_markdown_content,
};

#[test]
fn image_references_are_found() {
    let md = "Intro ![a](images/x.png) and ![b c](images/y.jpg \"t\")\n![](http://e.org/z.gif) ![bad](no\nclose)";
    assert_eq!(
        process_markdown_images(md),
        vec!["images/x.png".to_string(), "images/y.jpg \"t\"".to_string(), "http://e.org/z.gif".to_string()]
    );
    assert_eq!(process_markdown_images("![x](a)(b)"), vec!["a".to_string()]);
    assert_eq!(process_markdown_images("![x]] (a) ](b)"), vec!["b".to_string()]);
}

#[test]
fn local_images_are_numbered() {
    assert!(is_local_image("images/a.png"));
    assert!(!is_local_image("img/a.png"));
    assert_eq!(numbered_image_name(7, "png"), "7.png");
    assert_eq!(numbered_image_name(7, ""), "7.");
    assert_eq!(image_extension("base/images/a.jpeg"), "jpeg");
    let taken = vec!["1.png".to_string(), "2.png".to_string()];
    assert_eq!(free_image_number(1, "png", &taken), Some((3, "3.png".to_string())));
    assert_eq!(free_image_number(5, "png", &taken), Some((5, "5.png".to_string())));
}

#[test]
fn renamed_images_are_relinked() {
    let md = "![one](images/a.png) text ![two](images/b.png) ![three](other.png)";
    let map = vec![
        ("images/a.png".to_string(), "images/1.png".to_string()),
        ("images/b.png".to_string(), "images/2.png".to_string()),
    ];
    assert_eq!(
        update_markdown_content(md, &map),
        "![one](images/1.png) text ![two](images/2.png) ![three](other.png)"
    );
}

#[test]
fn a_free_image_number_is_always_found() {
    // Every name the search may try is taken but the last one.
    let taken = vec!["7.png".to_string(), "8.png".to_string(), "9.png".to_string()];
    assert_eq!(free_image_number(7, "png", &taken), Some((10, "10.png".to_string())));
    let unrelated = vec!["a.png".to_string(), "b.png".to_string()];
    assert_eq!(free_image_number(1, "png", &unrelated), Some((1, "1.png".to_string())));
}
