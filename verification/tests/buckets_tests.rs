use toolbox::buckets::{Bucket, TargetGenerator};

#[test]
fn bucket_fills_at_its_threshold() {
    let mut b = Bucket::new(10);
    assert!(!b.is_amplified());
    b.add_path("/src/a", 4);
    b.add_path("/src/b", 5);
    assert!(!b.is_amplified());
    assert_eq!(b.cur_size(), 9);
    b.add_path("/src/c", 1);
    assert!(b.is_amplified());
    assert_eq!(b.dir_paths(), &vec!["/src/a".to_string(), "/src/b".to_string(), "/src/c".to_string()]);
    b.clear();
    assert_eq!(b.cur_size(), 0);
    assert!(b.dir_paths().is_empty());
    assert!(!b.is_amplified());
}

#[test]
fn targets_are_numbered_after_the_largest() {
    let existing = vec![
        "/dst/1th".to_string(),
        "/dst/7th".to_string(),
        "/dst/3th".to_string(),
        "/dst/xth".to_string(),
        "/dst/other".to_string(),
    ];
    assert_eq!(TargetGenerator::find_max_index(&existing), 7);
    assert_eq!(TargetGenerator::find_max_index(&Vec::new()), 0);
    let g = TargetGenerator::new("/dst".to_string());
    assert_eq!(g.next_target(7), "/dst/8th");
    assert_eq!(g.next_target(0), "/dst/1th");
    assert!(TargetGenerator::is_existing_target("/dst/12th"));
    assert!(!TargetGenerator::is_existing_target("/dst/12"));
}

#[test]
fn next_target_becomes_the_largest() {
    let mut existing = vec!["/dst/2th".to_string(), "/dst/5th".to_string()];
    let m = TargetGenerator::find_max_index(&existing);
    let g = TargetGenerator::new("/elsewhere/".to_string());
    let next = g.next_target(m);
    assert_eq!(next, "/elsewhere/6th");
    assert!(TargetGenerator::is_existing_target(&next));
    existing.push(next);
    assert_eq!(TargetGenerator::find_max_index(&existing), 6);
}
