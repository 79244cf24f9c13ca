use toolbox::startup::{
    as_abs, capitalize_first_letter, convert_to_absolute, shortcut_file_name, shortcut_name,
    shortcut_working_dir,
};

#[test]
fn capitalizes_first_character_only() {
    assert_eq!(capitalize_first_letter("notepad"), "Notepad");
    assert_eq!(capitalize_first_letter("Notepad"), "Notepad");
    assert_eq!(capitalize_first_letter(""), "");
    assert_eq!(capitalize_first_letter("1abc"), "1abc");
    assert_eq!(capitalize_first_letter("ßeta"), "SSeta");
    assert_eq!(capitalize_first_letter("élan"), "Élan");
}

#[test]
fn absolute_paths() {
    assert_eq!(convert_to_absolute("/usr/bin/app", "/home/u"), "/usr/bin/app");
    assert_eq!(convert_to_absolute("bin/app", "/home/u"), "/home/u/bin/app");
    assert_eq!(convert_to_absolute("app", "/"), "/app");
    assert_eq!(as_abs("./pics", "/home/u"), "/home/u/pics");
    assert_eq!(as_abs("pics", "/home/u"), "/home/u/pics");
    assert_eq!(as_abs("/data", "/home/u"), "/data");
}

#[test]
fn shortcut_names() {
    assert_eq!(shortcut_file_name("Notepad"), "Notepad.lnk");
    assert_eq!(shortcut_name("/start/Notepad.lnk"), Some("Notepad".to_string()));
    assert_eq!(shortcut_name("/start/desktop.ini"), None);
    assert_eq!(shortcut_name("/start/lnk"), None);
}

#[test]
fn working_directory_of_a_shortcut() {
    assert_eq!(shortcut_working_dir(Some("work"), "/opt/app/run.exe", "/home/u"), Some("/home/u/work".to_string()));
    assert_eq!(shortcut_working_dir(None, "/opt/app/run.exe", "/home/u"), Some("/opt/app".to_string()));
    assert_eq!(shortcut_working_dir(None, "/", "/home/u"), None);
}
