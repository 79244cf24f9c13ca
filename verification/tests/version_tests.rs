use toolbox::version::{
    bump_config_text, ConfigBumpError,
    git_check_error, is_json_config, json_update_check, json_version, no_bump_message, toml_update_check,
    toml_version, watch_extensions, ConfigValue,
};
use toolbox::version::{
    bump, bump_dev, bump_version_text, default_watch_extensions, has_allowed_extension,
    increment_major, increment_minor, increment_patch, BumpError, ProjectConfig, ProjectType,
    SemVer,
};

fn v(major: u64, minor: u64, patch: u64, pre: &str, build: &str) -> SemVer {
    SemVer { major, minor, patch, pre: pre.to_string(), build: build.to_string() }
}

#[test]
fn increments_reset_lower_components() {
    let mut a = v(1, 2, 3, "", "");
    increment_patch(&mut a);
    assert_eq!(a.to_string(), "1.2.4");
    increment_minor(&mut a);
    assert_eq!(a.to_string(), "1.3.0");
    increment_major(&mut a);
    assert_eq!(a.to_string(), "2.0.0");
}

#[test]
fn dev_bumps() {
    let mut a = v(1, 0, 0, "", "");
    bump_dev(&mut a);
    assert_eq!(a.to_string(), "1.0.1-dev0");
    bump_dev(&mut a);
    assert_eq!(a.to_string(), "1.0.1-dev1");
    let mut b = v(1, 0, 0, "rc.1", "abc");
    bump_dev(&mut b);
    assert_eq!(b.to_string(), "1.0.0-dev0+abc");
    let mut c = v(0, 1, 0, "dev41", "");
    bump_dev(&mut c);
    assert_eq!(c.pre, "dev42");
}

#[test]
fn whole_bumps_by_level() {
    let a = v(1, 2, 3, "dev4", "meta");
    assert_eq!(bump(&a, 0, false).ok().unwrap().to_string(), "1.2.3-dev5+meta");
    assert_eq!(bump(&a, 1, false).ok().unwrap().to_string(), "1.2.4-dev0");
    assert_eq!(bump(&a, 2, false).ok().unwrap().to_string(), "1.3.0-dev0");
    assert_eq!(bump(&a, 3, false).ok().unwrap().to_string(), "2.0.0-dev0");
    assert_eq!(bump(&a, 0, true).ok().unwrap().to_string(), "1.2.3");
    assert_eq!(bump(&a, 2, true).ok().unwrap().to_string(), "1.3.0");
    assert!(matches!(bump(&a, 4, false), Err(BumpError::TooManyFlags)));
}

#[test]
fn bump_from_text() {
    let (old, new) = bump_version_text("0.9.1", 0, false).ok().unwrap();
    assert_eq!(old, "0.9.1");
    assert_eq!(new, "0.9.2-dev0");
    let (_, new) = bump_version_text("0.9.2-dev0", 0, false).ok().unwrap();
    assert_eq!(new, "0.9.2-dev1");
    let (_, new) = bump_version_text("0.9.2-dev1", 1, true).ok().unwrap();
    assert_eq!(new, "0.9.3");
    assert!(matches!(bump_version_text("not a version", 0, false), Err(BumpError::InvalidVersion(_))));
    assert!(matches!(bump_version_text("1.0.0", 7, false), Err(BumpError::TooManyFlags)));
    assert!(matches!(
        bump_version_text("1.0.18446744073709551615", 1, false),
        Err(BumpError::Overflow)
    ));
    assert_eq!(BumpError::TooManyFlags.message(), "Too many -i flags: use up to 3");
}

#[test]
fn project_configs() {
    let c = ProjectConfig::for_type(ProjectType::Cargo).unwrap();
    assert_eq!(c.file_name, "Cargo.toml");
    assert_eq!(c.version_path, vec!["package".to_string(), "version".to_string()]);
    assert!(ProjectConfig::for_type(ProjectType::Auto).is_none());
    let (t, c) = ProjectConfig::select(ProjectType::Auto, false, true, true).unwrap();
    assert!(matches!(t, ProjectType::Cargo));
    assert_eq!(c.file_name, "Cargo.toml");
    assert!(ProjectConfig::select(ProjectType::Node, true, true, false).is_none());
    assert_eq!(default_watch_extensions(ProjectType::Node), "js,ts,jsx,tsx,json");
}

#[test]
fn extension_filter() {
    let allowed = vec!["rs".to_string(), "json".to_string()];
    assert!(has_allowed_extension("src/main.rs", &allowed));
    assert!(has_allowed_extension("package.json", &allowed));
    assert!(!has_allowed_extension("README.md", &allowed));
    assert!(!has_allowed_extension(".rs", &allowed));
    assert!(!has_allowed_extension("Makefile", &allowed));
}

#[test]
fn watched_extensions_and_messages() {
    assert_eq!(watch_extensions(None, ProjectType::Cargo), vec!["rs".to_string()]);
    assert_eq!(
        watch_extensions(Some(" md, txt ,".to_string()), ProjectType::Node),
        vec!["md".to_string(), "txt".to_string()]
    );
    assert_eq!(watch_extensions(None, ProjectType::Node).len(), 5);
    assert!(is_json_config("web/package.json"));
    assert!(!is_json_config("Cargo.toml"));
    assert_eq!(git_check_error("no repo"), "Error checking git status: no repo");
    let dot = vec![".".to_string()];
    let exts = vec!["rs".to_string(), "toml".to_string()];
    assert_eq!(
        no_bump_message(&dot, true, &exts),
        "No project versions were bumped. No supported project configuration file found in the current directory. Please check paths, glob patterns, and ensure a supported project configuration file exists."
    );
    let many = vec!["a".to_string(), "b".to_string()];
    assert_eq!(
        no_bump_message(&many, true, &exts),
        "No project versions were bumped. In git-aware mode, this can also occur if no targeted projects had relevant git changes for watched extensions (rs,toml). Please check paths, glob patterns, and ensure a supported project configuration file exists."
    );
    assert_eq!(
        no_bump_message(&many, false, &exts),
        "No project versions were bumped. Please check paths, glob patterns, and ensure a supported project configuration file exists."
    );
}

#[test]
fn version_lookup_along_key_paths() {
    use_config_lookups();
}

fn keys(v: &[&str]) -> Vec<String> {
    v.iter().map(|s| s.to_string()).collect()
}

fn use_config_lookups() {
    let path = keys(&["package", "version"]);
    let found = vec![ConfigValue::Table, ConfigValue::Table, ConfigValue::Text("1.2.3".to_string())];
    assert_eq!(toml_version(&path, &found), Ok("1.2.3".to_string()));
    assert_eq!(json_version(&path, &found, "p.json"), Ok("1.2.3".to_string()));
    let missing = vec![ConfigValue::Table, ConfigValue::Table];
    assert_eq!(
        toml_version(&path, &missing),
        Err("'package.version' not found in configuration file".to_string())
    );
    assert_eq!(json_version(&path, &missing, "p.json"), Err("Key 'version' not found in p.json".to_string()));
    let no_table = vec![ConfigValue::Table];
    assert_eq!(toml_version(&path, &no_table), Err("'package' not found in configuration file".to_string()));
    let number = vec![ConfigValue::Table, ConfigValue::InlineTable, ConfigValue::Other];
    assert_eq!(
        toml_version(&path, &number),
        Err("Version at path 'package.version' is not a string".to_string())
    );
    assert_eq!(json_version(&path, &number, "p.json"), Err("Version field is not a string".to_string()));
    assert_eq!(toml_update_check(&path, &found), Ok(()));
    assert_eq!(toml_update_check(&path, &missing), Ok(()));
    assert_eq!(
        toml_update_check(&path, &number),
        Err("'package' table not found in configuration file".to_string())
    );
    assert_eq!(toml_update_check(&Vec::new(), &vec![ConfigValue::Table]), Err("Version path cannot be empty".to_string()));
    assert_eq!(json_update_check(&path, &found), Ok(()));
    assert_eq!(json_update_check(&path, &missing), Err("Final key 'version' not found".to_string()));
    assert_eq!(
        json_update_check(&path, &no_table),
        Err("Intermediate key 'package' not found or not an object".to_string())
    );
}

#[test]
fn a_toml_file_gets_its_version_bumped() {
    let text = "[package]\nname = \"a\"\nversion = \"0.1.0\"\n";
    let (old, new, out) =
        bump_config_text(text, false, "Cargo.toml", &keys(&["package", "version"]), 1, false).ok().unwrap();
    assert_eq!(old, "0.1.0");
    assert_eq!(new, "0.1.1-dev0");
    assert!(out.contains("version = \"0.1.1-dev0\""));
    assert!(out.starts_with("[package]\nname = \"a\""));
    assert!(!out.contains("0.1.0"));
}

#[test]
fn a_json_file_gets_its_version_bumped() {
    let text = "{\"version\": \"1.2.3\", \"name\": \"a\"}";
    let (old, new, out) = bump_config_text(text, true, "package.json", &keys(&["version"]), 0, false).ok().unwrap();
    assert_eq!(old, "1.2.3");
    assert_eq!(new, "1.2.4-dev0");
    assert_eq!(out, "{\n  \"name\": \"a\",\n  \"version\": \"1.2.4-dev0\"\n}");
}

#[test]
fn config_texts_that_cannot_be_bumped_say_why() {
    let p = keys(&["package", "version"]);
    assert!(matches!(bump_config_text("[[[", false, "Cargo.toml", &p, 1, false), Err(ConfigBumpError::Unparsable(_))));
    assert!(matches!(bump_config_text("{", true, "package.json", &keys(&["version"]), 1, false), Err(ConfigBumpError::Unparsable(_))));
    match bump_config_text("[tool]\n", false, "Cargo.toml", &p, 1, false) {
        Err(ConfigBumpError::NoVersion(m)) => assert_eq!(m, "'package' not found in configuration file"),
        _ => panic!("expected a missing key"),
    }
    match bump_config_text("{\"name\": \"a\"}", true, "package.json", &keys(&["version"]), 1, false) {
        Err(ConfigBumpError::NoVersion(m)) => assert_eq!(m, "Key 'version' not found in package.json"),
        _ => panic!("expected a missing key"),
    }
    match bump_config_text("package = { version = \"1.0.0\" }\n", false, "Cargo.toml", &p, 1, false) {
        Err(ConfigBumpError::NotWritable(m)) => assert_eq!(m, "'package' table not found in configuration file"),
        _ => panic!("expected an inline table"),
    }
    assert!(matches!(
        bump_config_text("[package]\nversion = \"x\"\n", false, "Cargo.toml", &p, 1, false),
        Err(ConfigBumpError::Version(BumpError::InvalidVersion(_)))
    ));
    assert!(matches!(
        bump_config_text("[package]\nversion = \"1.0.0\"\n", false, "Cargo.toml", &p, 4, false),
        Err(ConfigBumpError::Version(BumpError::TooManyFlags))
    ));
    assert!(matches!(bump_config_text("\"1.0.0\"", true, "package.json", &keys(&[]), 1, false), Err(ConfigBumpError::NotWritable(_))));
    match bump_config_text("[package]\n", false, "Cargo.toml", &keys(&[]), 1, false) {
        Err(ConfigBumpError::NoVersion(m)) => assert_eq!(m, "Version at path '' is not a string"),
        _ => panic!("expected no string"),
    }
}
