use toolbox::xfoil::{generate_naca_codes, polar_column_names, polar_columns, FoxConfig, XfoilError};

fn lines(v: &[&str]) -> Vec<String> {
    v.iter().map(|s| s.to_string()).collect()
}

#[test]
fn naca_run_script() {
    let runner = FoxConfig::new("/usr/bin/xfoil".to_string())
        .naca("2412")
        .reynolds(100000)
        .polar_accumulation("polar.txt".to_string())
        .aoa("5".to_string())
        .get_runner()
        .ok()
        .unwrap();
    assert_eq!(runner.xfoil_path(), "/usr/bin/xfoil");
    assert_eq!(runner.polar(), Some("polar.txt".to_string()));
    assert_eq!(
        runner.input_text(),
        "plop\nG\n\nnaca 2412\noper\nv 100000\npacc\npolar.txt\n\na 5\n\nquit"
    );
}

#[test]
fn coordinate_file_and_angle_batch_script() {
    let runner = FoxConfig::new("xfoil".to_string())
        .naca("0012")
        .airfoil_polar_file("foil.dat".to_string())
        .aoa_batch(lines(&["1", "2.5"]))
        .get_runner()
        .ok()
        .unwrap();
    assert_eq!(runner.input_text(), "plop\nG\n\nload foil.dat\n\noper\na 1\na 2.5\n\nquit");
    assert_eq!(runner.polar(), None);
    assert!(runner.needs_run(true));
}

#[test]
fn range_and_lift_modes() {
    let r = FoxConfig::new("x".to_string()).naca("0012").aoa_range("-5".into(), "10".into(), "0.5".into()).get_runner().ok().unwrap();
    assert!(r.input_text().contains("aseq -5 10 0.5"));
    let r = FoxConfig::new("x".to_string()).naca("0012").lift_coefficient("0.8".into()).get_runner().ok().unwrap();
    assert!(r.input_text().contains("\ncl 0.8\n"));
    let r = FoxConfig::new("x".to_string()).naca("0012").polar_accumulation("p".into()).get_runner().ok().unwrap();
    assert!(!r.needs_run(true));
    assert!(r.needs_run(false));
    let r = FoxConfig::new("x".to_string()).naca("0012").get_runner().ok().unwrap();
    assert!(r.input_text().contains("\na 0\n"));
}

#[test]
fn polar_file_columns() {
    let mut text: Vec<String> = (0..12).map(|i| format!("header {}", i)).collect();
    text.push("  -2.000  0.1234   0.00812   0.00231  -0.0521   0.7800   0.9100".to_string());
    text.push("   1.000  0.3456   0.00900".to_string());
    let cols = polar_columns(&text);
    assert_eq!(cols.len(), 7);
    assert_eq!(cols[0], vec!["-2.000".to_string(), "1.000".to_string()]);
    assert_eq!(cols[2], vec!["0.00812".to_string(), "0.00900".to_string()]);
    assert_eq!(cols[6], vec!["0.9100".to_string()]);
    assert_eq!(polar_column_names(), lines(&["alpha", "CL", "CD", "CDp", "CM", "Top_Xtr", "Bot_Xtr"]));
    let short = lines(&["a", "b"]);
    assert!(polar_columns(&short).iter().all(|c| c.is_empty()));
}

#[test]
fn naca_codes_are_generated_once_each() {
    let codes = generate_naca_codes(&vec![0, 2, 0], &vec![4], &vec![0, 9, 12]);
    assert_eq!(codes, lines(&["0009", "0012", "2409", "2412"]));
    let codes = generate_naca_codes(&vec![1], &vec![10], &vec![5]);
    assert_eq!(codes, lines(&["11005"]));
    assert!(generate_naca_codes(&vec![0], &vec![], &vec![0]).is_empty());
}

#[test]
fn xfoil_errors_display() {
    let e: XfoilError = std::io::Error::new(std::io::ErrorKind::Other, "x").into();
    assert!(matches!(e, XfoilError::IoError(_)));
    assert_eq!(e.to_string(), "Internal xfoil error");
    assert_eq!(XfoilError::ConvergenceError.description(), "Error occured in xfoil calculation");
    let p: XfoilError = "x".parse::<f64>().unwrap_err().into();
    assert!(matches!(p, XfoilError::ParseError(_)));
    let u: XfoilError = String::from_utf8(vec![0xff]).unwrap_err().into();
    assert!(matches!(u, XfoilError::ReadOutputError(_)));
}

#[test]
fn a_later_angle_replaces_the_lift_coefficient() {
    let after_cl = FoxConfig::new("x".to_string())
        .naca("4412")
        .polar_accumulation("p.txt".to_string())
        .lift_coefficient("0.6".into())
        .aoa("3".into())
        .get_runner()
        .ok()
        .unwrap();
    let alone = FoxConfig::new("x".to_string())
        .naca("4412")
        .polar_accumulation("p.txt".to_string())
        .aoa("3".into())
        .get_runner()
        .ok()
        .unwrap();
    assert_eq!(after_cl.input_text(), alone.input_text());
    assert!(after_cl.input_text().contains("\na 3\n"));
    assert!(!after_cl.input_text().contains("cl 0.6"));
}
