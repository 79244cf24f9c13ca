use toolbox::mods::{
    files_to_compress, folder_zip_name, install_plan, read_mod_list, zip_name_from_info, old_archives, retain_latest, validate_mod_source,
    InstallStep, ModEntry, ModListItem, ModSourceType,
};

fn entry(name: &str) -> ModEntry {
    ModEntry::from_file_name(name).expect("a mod archive name")
}

#[test]
fn mod_archive_names_are_read() {
    let e = entry("space-exploration_0.6.138.zip");
    assert_eq!(e.base_name, "space-exploration");
    assert_eq!(e.version, "0.6.138");
    assert_eq!(e.source_path, "space-exploration_0.6.138.zip");
    let e = entry("my_mod_name_1.2.3.zip");
    assert_eq!(e.base_name, "my_mod_name");
    assert_eq!(e.version, "1.2.3");
}

#[test]
fn non_mod_names_are_rejected() {
    assert!(ModEntry::from_file_name("mod_1.2.zip").is_none());
    assert!(ModEntry::from_file_name("mod-1.2.3.zip").is_none());
    assert!(ModEntry::from_file_name("mod_1.2.3.tar").is_none());
    assert!(ModEntry::from_file_name("mod_1.a.3.zip").is_none());
    assert!(ModEntry::from_file_name("mod_1..3.zip").is_none());
    assert!(ModEntry::from_file_name("a\nb_1.2.3.zip").is_none());
    assert!(ModEntry::from_file_name("_1.2.3.zip").is_some());
}

#[test]
fn latest_version_of_each_mod_is_kept() {
    let entries = vec![
        entry("a_1.0.0.zip"),
        entry("b_0.1.0.zip"),
        entry("a_1.2.0.zip"),
        entry("a_1.1.0.zip"),
        entry("b_0.0.9.zip"),
    ];
    let kept = retain_latest(&entries);
    assert_eq!(kept.len(), 2);
    assert_eq!(kept[0].source_path, "a_1.2.0.zip");
    assert_eq!(kept[1].source_path, "b_0.1.0.zip");
}

#[test]
fn versions_compare_as_text() {
    // "1.10.0" < "1.9.0" as strings, so 1.9.0 stays.
    let entries = vec![entry("m_1.10.0.zip"), entry("m_1.9.0.zip")];
    let kept = retain_latest(&entries);
    assert_eq!(kept.len(), 1);
    assert_eq!(kept[0].version, "1.9.0");
}

#[test]
fn folder_archives_are_named_name_version() {
    assert_eq!(folder_zip_name(Some("rail"), Some("2.0.1")).unwrap(), "rail_2.0.1.zip");
    assert_eq!(folder_zip_name(None, Some("2.0.1")).unwrap_err(), "Missing 'name' field in info.json");
    assert_eq!(folder_zip_name(Some("rail"), None).unwrap_err(), "Missing 'version' field in info.json");
}

#[test]
fn mod_sources_are_classified() {
    assert_eq!(validate_mod_source("https://x.org/m_1.0.0.zip", false, false).unwrap(), ModSourceType::Url);
    assert_eq!(validate_mod_source("http://x.org/m", false, false).unwrap(), ModSourceType::Url);
    assert_eq!(validate_mod_source("dir", true, true).unwrap(), ModSourceType::Folder);
    assert_eq!(validate_mod_source("f.zip", true, false).unwrap(), ModSourceType::LocalFile);
    assert_eq!(validate_mod_source("gone.zip", false, false).unwrap_err(), "File or folder not found: gone.zip");
}

#[test]
fn install_moves_archives_from_elsewhere() {
    match install_plan("/tmp/dl/m_1.0.0.zip", "/home/u/mods").unwrap() {
        InstallStep::MoveTo(d) => assert_eq!(d, "/home/u/mods/m_1.0.0.zip"),
        InstallStep::InPlace => panic!("expected a move"),
    }
    assert!(matches!(install_plan("/home/u/mods/m_1.0.0.zip", "/home/u/mods").unwrap(), InstallStep::InPlace));
    assert!(matches!(install_plan("/home/u/mods/m_1.0.0.zip", "/home/u/mods/").unwrap(), InstallStep::InPlace));
    assert_eq!(install_plan("/tmp/readme.txt", "/m").err().unwrap(), "Invalid mod file name: readme.txt");
    assert_eq!(install_plan("/tmp/..", "/m").err().unwrap(), "Invalid file name");
}

#[test]
fn old_archives_are_those_not_latest() {
    let entries = vec![entry("a_1.0.0.zip"), entry("a_2.0.0.zip"), entry("b_1.0.0.zip")];
    let latest = retain_latest(&entries);
    let old = old_archives(&entries, &latest);
    assert_eq!(old, vec!["a_1.0.0.zip".to_string()]);
    let none: Vec<ModEntry> = Vec::new();
    assert!(old_archives(&entries, &none).is_empty());
}

#[test]
fn export_lists_enabled_mods_and_settings() {
    let entries = vec![entry("a_1.0.0.zip"), entry("b_1.0.0.zip"), entry("c_1.0.0.zip")];
    let items = vec![
        ModListItem { name: Some("a".to_string()), enabled: Some(true) },
        ModListItem { name: Some("b".to_string()), enabled: Some(true) },
        ModListItem { name: Some("b".to_string()), enabled: Some(false) },
        ModListItem { name: Some("c".to_string()), enabled: None },
    ];
    let files = files_to_compress("mods/mod-list.json", true, &entries, &items, true, "mods/mod-settings.dat", true);
    assert_eq!(files, vec!["mods/mod-list.json".to_string(), "a_1.0.0.zip".to_string(), "mods/mod-settings.dat".to_string()]);
    let files = files_to_compress("l", false, &entries, &items, true, "s", false);
    assert_eq!(files, vec!["a_1.0.0.zip".to_string()]);
}

#[test]
fn mod_files_are_read_from_their_json() {
    let list = read_mod_list("{\"mods\": [{\"name\": \"base\", \"enabled\": true}, {\"name\": \"x\"}, {\"enabled\": false}, 3]}")
        .ok()
        .unwrap();
    assert_eq!(list.len(), 4);
    assert_eq!(list[0].name, Some("base".to_string()));
    assert_eq!(list[0].enabled, Some(true));
    assert_eq!(list[1].enabled, None);
    assert_eq!(list[2].name, None);
    assert_eq!(list[3].name, None);
    assert_eq!(read_mod_list("{}").ok().unwrap().len(), 0);
    assert!(read_mod_list("{").is_err());
    assert_eq!(zip_name_from_info("{\"name\": \"m\", \"version\": \"1.2.3\"}"), Ok("m_1.2.3.zip".to_string()));
    assert_eq!(zip_name_from_info("{\"version\": \"1.2.3\"}"), Err("Missing 'name' field in info.json".to_string()));
    assert_eq!(zip_name_from_info("{\"name\": \"m\", \"version\": 2}"), Err("Missing 'version' field in info.json".to_string()));
    assert!(zip_name_from_info("not json").is_err());
}
