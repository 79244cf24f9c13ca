use toolbox::choices::{newest_first, model_choice, parse_norm_method, resolve_setting, ModelChoice, NormMethod};

#[test]
fn command_line_settings_win() {
    assert_eq!(resolve_setting(Some("cli".into()), Some("file".into()), "API key is required").unwrap(), "cli");
    assert_eq!(resolve_setting(None, Some("file".into()), "API key is required").unwrap(), "file");
    assert_eq!(resolve_setting(None, None, "API key is required").unwrap_err(), "API key is required");
}

#[test]
fn model_arguments() {
    assert!(matches!(model_choice("3"), ModelChoice::Index(3)));
    assert!(matches!(model_choice("gpt-4o"), ModelChoice::Name(n) if n == "gpt-4o"));
    assert!(matches!(model_choice(""), ModelChoice::BadIndex));
    assert!(matches!(model_choice("99999999999999999999999"), ModelChoice::BadIndex));
}

#[test]
fn normalization_methods() {
    assert_eq!(parse_norm_method("probability"), Some(NormMethod::Probability));
    assert_eq!(parse_norm_method("minmax"), Some(NormMethod::MinMax));
    assert_eq!(parse_norm_method("scale"), Some(NormMethod::Scale));
    assert_eq!(parse_norm_method("zscore"), Some(NormMethod::ZScore));
    assert_eq!(parse_norm_method("MinMax"), None);
}

#[test]
fn models_are_listed_newest_first() {
    assert_eq!(newest_first(&vec![10, 30, 20, 30]), vec![1, 3, 2, 0]);
    // Past i32::MAX the time reads as negative, so such a model comes last.
    assert_eq!(newest_first(&vec![3_000_000_000, 5]), vec![1, 0]);
    assert_eq!(newest_first(&vec![]), Vec::<usize>::new());
}
