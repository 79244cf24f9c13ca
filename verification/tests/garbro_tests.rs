use toolbox::garbro::{
    PngAction, PngRun, convert_args, failure_message, is_archive_path, needs_copy, needs_png_conversion,
    partition_raw_pictures, png_plan, to_png, uncompress_args, CommandConfig,
};

fn owned(v: &[&str]) -> Vec<String> {
    v.iter().map(|s| s.to_string()).collect()
}

#[test]
fn command_paths_under_root() {
    let c = CommandConfig::new("/opt/garbro".to_string());
    assert_eq!(c.img_cmd_full(), "/opt/garbro/Image.Convert.exe");
    assert_eq!(c.gui_cmd_full(), "/opt/garbro/GARbro.GUI.exe");
    assert_eq!(c.csl_cmd_full(), "/opt/garbro/GARbro.Console.exe");
    let d = CommandConfig::default();
    assert_eq!(d.img_cmd_full(), "Image.Convert.exe");
}

#[test]
fn which_pictures_need_conversion() {
    assert!(!needs_png_conversion("a/b.png"));
    assert!(!needs_png_conversion("a/b.jpg"));
    assert!(!needs_png_conversion("a/b.jpeg"));
    assert!(needs_png_conversion("a/b.PNG"));
    assert!(needs_png_conversion("a/b.bmp"));
    assert!(needs_png_conversion("a/b"));
    let (raw, kept) = partition_raw_pictures(&owned(&["x.bmp", "y.png", "z.tga", "w.jpg"]));
    assert_eq!(raw, owned(&["x.bmp", "z.tga"]));
    assert_eq!(kept, owned(&["y.png", "w.jpg"]));
}

#[test]
fn archives_and_arguments() {
    assert!(is_archive_path("game/data.arc", "arc"));
    assert!(!is_archive_path("game/data.arc", "xp3"));
    assert!(is_archive_path("game/data", ""));
    assert_eq!(uncompress_args("d.arc"), owned(&["-x", "d.arc"]));
    assert_eq!(convert_args("p.bmp"), owned(&["-t", "PNG", "p.bmp"]));
    assert_eq!(failure_message("uncompress", "d.arc"), "Failed to uncompress d.arc");
}

#[test]
fn copies_only_pictures_outside_the_output() {
    assert!(!needs_copy("/out/a.png", "/out"));
    assert!(!needs_copy("/out/a.png", "/out/"));
    assert!(needs_copy("/in/a.png", "/out"));
}

#[test]
fn plans_per_root() {
    let roots = vec![
        owned(&["/in/a.bmp", "/in/b.png", "/out/c.jpg"]),
        owned(&["/in/d.png"]),
    ];
    let plans = to_png(&roots, "/out");
    assert_eq!(plans.len(), 2);
    let first = plans[0].as_ref().expect("a plan");
    assert_eq!(first.convert, owned(&["/in/a.bmp"]));
    assert_eq!(first.copy, owned(&["/in/b.png"]));
    assert!(plans[1].is_none());
    assert!(png_plan(&Vec::new(), "/out").is_none());
}

fn files(v: &[&str]) -> Vec<String> {
    v.iter().map(|s| s.to_string()).collect()
}

#[test]
fn a_conversion_run_goes_root_by_root_and_stops_at_a_failure() {
    let mut run = PngRun::new(3);
    assert!(matches!(run.next_action(), PngAction::ListRoot(0)));
    // Nothing to convert: the root is passed over.
    assert!(!run.on_listed(&files(&["r0/a.png"]), "out"));
    assert!(matches!(run.next_action(), PngAction::ListRoot(1)));
    assert!(run.on_listed(&files(&["r1/a.bmp", "r1/b.jpg"]), "out"));
    match run.next_action() {
        PngAction::Convert(f) => assert_eq!(f, "r1/a.bmp"),
        _ => panic!("expected a conversion"),
    }
    run.on_converted(true);
    match run.next_action() {
        PngAction::Copy(f) => assert_eq!(f, "r1/b.jpg"),
        _ => panic!("expected a copy"),
    }
    run.on_copied();
    assert!(matches!(run.next_action(), PngAction::ListRoot(2)));
    assert!(run.on_listed(&files(&["r2/c.tga"]), "out"));
    run.on_converted(false);
    match run.next_action() {
        PngAction::Fail(m) => assert_eq!(m, "Failed to convert r2/c.tga"),
        _ => panic!("expected the run to stop"),
    }
    let done = PngRun::new(0);
    assert!(matches!(done.next_action(), PngAction::Finish));
}
