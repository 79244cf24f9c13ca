use toolbox::collision::{
    halt_strategy, handle_collision, parse_collision_strategy, rename_candidate, rename_if_exists, CollisionAction,
    CollisionStrategy, ExpandQueue, ExpandStep,
};

#[test]
fn strategies_are_named_case_insensitively() {
    assert!(matches!(parse_collision_strategy("AUTO"), Some(CollisionStrategy::Auto)));
    assert!(matches!(parse_collision_strategy("Override"), Some(CollisionStrategy::Override)));
    assert!(matches!(parse_collision_strategy("halt"), Some(CollisionStrategy::Halt)));
    assert!(parse_collision_strategy("merge").is_none());
}

#[test]
fn collision_actions() {
    assert!(matches!(handle_collision(CollisionStrategy::Auto, true, true), CollisionAction::Skip));
    assert!(matches!(handle_collision(CollisionStrategy::Auto, true, false), CollisionAction::Rename));
    assert!(matches!(handle_collision(CollisionStrategy::Auto, false, false), CollisionAction::MoveThere));
    assert!(matches!(handle_collision(CollisionStrategy::Override, true, false), CollisionAction::ReplaceThenMove));
    assert!(matches!(handle_collision(CollisionStrategy::Halt, true, false), CollisionAction::Stop));
    assert!(matches!(handle_collision(CollisionStrategy::Halt, false, false), CollisionAction::MoveThere));
    assert_eq!(halt_strategy("out/a.txt", false), "out/a.txt");
}

#[test]
fn taken_names_get_numbered_alternatives() {
    assert_eq!(rename_candidate("out/photo.jpg", 2), "out/photo_2.jpg");
    assert_eq!(rename_candidate("out/README", 1), "out/README_1");
    let existing = vec!["out/photo.jpg".to_string(), "out/photo_1.jpg".to_string()];
    assert_eq!(rename_if_exists("out/photo.jpg", &existing), Some("out/photo_2.jpg".to_string()));
    assert_eq!(rename_if_exists("out/new.jpg", &existing), Some("out/new.jpg".to_string()));
    // A stem with a dot makes every alternative the same name.
    let dotted = vec!["d/a.b.c".to_string(), "d/a.c".to_string()];
    assert_eq!(rename_candidate("d/a.b.c", 1), "d/a.c");
    assert_eq!(rename_if_exists("d/a.b.c", &dotted), None);
}

#[test]
fn expansion_goes_depth_first_from_the_last_directory() {
    let mut q = ExpandQueue::new("in".to_string(), "out".to_string(), 1);
    match q.next() {
        Some(ExpandStep::Descend(i, o, d)) => {
            assert_eq!((i.as_str(), o.as_str(), d), ("in", "out", 0));
        },
        _ => panic!("expected a descent"),
    }
    q.push_children(vec!["in/a".to_string(), "in/b".to_string()], "out", 0);
    match q.next() {
        Some(ExpandStep::MoveContents(i, o)) => assert_eq!((i.as_str(), o.as_str()), ("in/b", "out")),
        _ => panic!("expected a move"),
    }
    assert!(matches!(q.next(), Some(ExpandStep::MoveContents(_, _))));
    assert!(q.next().is_none());
}

#[test]
fn a_dotless_stem_always_finds_a_free_name() {
    let existing = vec![
        "out/a.txt".to_string(),
        "out/a_1.txt".to_string(),
        "out/a_2.txt".to_string(),
        "out/a_3.txt".to_string(),
    ];
    assert_eq!(rename_if_exists("out/a.txt", &existing), Some("out/a_4.txt".to_string()));
    let bare = vec!["b".to_string(), "b_1".to_string()];
    assert_eq!(rename_if_exists("b", &bare), Some("b_2".to_string()));
}

#[test]
fn a_path_ending_in_a_slash_is_renamed_by_its_file_name() {
    assert_eq!(rename_candidate("d/a.txt/", 1), "d/a_1.txt");
    assert_eq!(rename_candidate("d/a.txt/.", 2), "d/a_2.txt");
    assert_eq!(rename_candidate("a/", 1), "a_1");
    let existing = vec!["d/a.txt/".to_string()];
    assert_eq!(rename_if_exists("d/a.txt/", &existing), Some("d/a_1.txt".to_string()));
}
