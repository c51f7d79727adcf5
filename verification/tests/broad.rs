use savescummer_catalog::broad::{is_broad_folder_template, is_broad_template};

#[test]
fn bare_roots_and_shared_folders_are_broad() {
    for t in [
        "{INSTALL_DIR}",
        "{HOME}",
        "{APPDATA}/",
        "{HOME}/Library/Application Support",
        "{HOME}/AppData/LocalLow",
        "{DOCUMENTS}/My Games",
        "{HOME}/.local/share",
        "/",
    ] {
        assert!(is_broad_template(t), "{t}");
    }
}

#[test]
fn wildcards_directly_in_a_broad_folder_are_broad() {
    assert!(is_broad_template("{INSTALL_DIR}/save*"));
    assert!(is_broad_template("{HOME}/Library/Application Support/*"));
    assert!(is_broad_template("{DOCUMENTS}/*.sav"));
}

#[test]
fn exact_names_inside_broad_folders_are_fine() {
    assert!(!is_broad_template("{HOME}/Library/Application Support/com.vlambeer.nuclearthrone"));
    assert!(!is_broad_template("{INSTALL_DIR}/data/save_data.xml"));
    assert!(!is_broad_template("{INSTALL_DIR}/Save.ini"));
    assert!(!is_broad_template("{APPDATA}/Void_War"));
    assert!(!is_broad_template("{INSTALL_DIR}/save/user_*.dat"));
    assert!(!is_broad_template("{STEAM_USERDATA}/588650/remote"));
}

#[test]
fn spelling_does_not_hide_a_broad_folder() {
    assert!(is_broad_folder_template("  {HOME}\\\\AppData//Roaming\\  "));
    assert!(is_broad_folder_template(""));
    assert!(is_broad_folder_template("/home"));
    assert!(!is_broad_folder_template("/home/me"));
    assert!(is_broad_template("*"));
    assert!(is_broad_template("{steam_userdata}/*"));
}

#[test]
fn backslashes_read_as_slashes_for_the_broad_rule() {
    for template in [
        "{HOME}/Documents",
        "{HOME}/Documents/My Games/Game",
        "{APPDATA}/*/saves",
        "  {LOCALAPPDATA}/Game/  ",
        "{HOME}",
    ] {
        let backslashed = template.replace('/', "\\");
        assert_eq!(is_broad_template(&backslashed), is_broad_template(template));
        assert_eq!(is_broad_folder_template(&backslashed), is_broad_folder_template(template));
    }
}
