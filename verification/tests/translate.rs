use savescummer_catalog::manifest::{Cond, Entry, ExtraIds, FileEntry, GogField, LaunchItem, SteamField, Whens};
use savescummer_catalog::model::{Platform, Store};
use savescummer_catalog::translate::{
    collapse_glob, detect, executables, first_unknown_placeholder, launch_platforms, normalize_path, save,
    strip_install_dir_segment, to_directory, DropReason,
};

fn cond(os: Option<&str>, store: Option<&str>) -> Cond {
    Cond { os: os.map(str::to_string), store: store.map(str::to_string), bit: None }
}

fn file(tags: &[&str], conds: Vec<Cond>) -> FileEntry {
    FileEntry { tags: tags.iter().map(|t| t.to_string()).collect(), when: Some(Whens::Many(conds)) }
}

fn entry_with_files(files: Vec<(&str, FileEntry)>) -> Entry {
    Entry { files: Some(files.into_iter().map(|(p, f)| (p.to_string(), f)).collect()), ..Entry::default() }
}

fn highfleet() -> Entry {
    let windows = || vec![cond(Some("windows"), None)];
    let steam = || vec![cond(None, Some("steam"))];
    let mut entry = entry_with_files(vec![
        ("<base>/Config.ini", file(&["config"], windows())),
        ("<base>/Saves", file(&["save"], windows())),
        ("<base>/SavesSkirmish", file(&["save"], windows())),
        ("<base>/Ships", file(&["save"], windows())),
        ("<root>/steamapps/common/HighFleet/Config.ini", file(&["config"], steam())),
        ("<root>/steamapps/common/HighFleet/Saves", file(&["save"], steam())),
        ("<root>/steamapps/common/HighFleet/SavesSkirmish", file(&["save"], steam())),
        ("<root>/steamapps/common/HighFleet/Ships", file(&["save"], steam())),
    ]);
    entry.launch = Some(vec![(
        "<base>/Highfleet.exe".to_string(),
        vec![LaunchItem { when: Some(Whens::Many(vec![cond(Some("windows"), Some("steam"))])) }],
    )]);
    entry
}

#[test]
fn highfleet_translates_to_three_windows_candidates() {
    let entry = highfleet();
    let (save, drops) = save(&entry);
    assert!(drops.iter().all(|reason| *reason == DropReason::ConfigOnly), "{drops:?}");
    assert_eq!(
        save.iter().map(|c| c.dir.as_str()).collect::<Vec<_>>(),
        vec!["{INSTALL_DIR}/Saves", "{INSTALL_DIR}/SavesSkirmish", "{INSTALL_DIR}/Ships"]
    );
    assert!(save.iter().all(|c| c.when.unwrap().os == Some(Platform::Windows)));
    let (executables, _) = executables(&entry);
    let windows = executables.iter().find(|(p, _)| *p == Platform::Windows).unwrap();
    assert_eq!(windows.1, vec!["Highfleet.exe"]);
}

#[test]
fn globs_collapse_files_resolve_and_userdata_is_special() {
    assert_eq!(
        normalize_path("<home>/Saved Games/Jagged Alliance 3/<storeUserId>/*.sav").unwrap(),
        "{HOME}/Saved Games/Jagged Alliance 3/{STORE_USER_ID}"
    );
    assert_eq!(normalize_path("<winAppData>/game/settings.ini").unwrap(), "{APPDATA}/game");
    assert_eq!(normalize_path("<root>/userdata/588650/remote").unwrap(), "{STEAM_USERDATA}/588650/remote");
    assert_eq!(
        normalize_path("<root>/userdata/<storeUserId>/632360/remote/UserProfiles").unwrap(),
        "{STEAM_USERDATA}/632360/remote/UserProfiles"
    );
    assert_eq!(normalize_path("<root>/steamapps/common/Game/Saves").unwrap(), "{INSTALL_DIR}/Saves");
    assert_eq!(normalize_path("<root>/savegames/<storeUserId>/3353"), Err(DropReason::UnsupportedRoot));
    assert_eq!(normalize_path("<base>/x/<base>/y"), Err(DropReason::UnsupportedRoot));
    assert_eq!(normalize_path("<winDocuments>"), Err(DropReason::BareRoot));
    assert_eq!(
        normalize_path(
            "<winLocalAppData>/GOG.com/Galaxy/Applications/50593543263669699/Storage/Shared/Files/C*/SGS*"
        ),
        Err(DropReason::GalaxyStorage)
    );
}

#[test]
fn keeps_untagged_entries_and_ignores_trailing_slashes() {
    let entry = entry_with_files(vec![
        ("<winAppData>/config", file(&["config"], vec![cond(Some("windows"), None)])),
        ("<winAppData>/untagged/", FileEntry { tags: vec![], when: Some(Whens::Many(vec![cond(Some("windows"), None)])) }),
    ]);
    let (save, drops) = save(&entry);
    assert_eq!(save.len(), 1);
    assert_eq!(save[0].dir, "{APPDATA}/untagged");
    assert_eq!(drops, vec![DropReason::ConfigOnly]);
}

#[test]
fn drops_ms_store_only_and_unsupported_stores() {
    let entry = entry_with_files(vec![
        ("<winAppData>/ms", file(&["save"], vec![cond(None, Some("microsoft"))])),
        ("<winAppData>/origin", file(&["save"], vec![cond(None, Some("origin"))])),
    ]);
    let (save, drops) = save(&entry);
    assert!(save.is_empty());
    assert!(drops.contains(&DropReason::MicrosoftOnly));
    assert!(drops.contains(&DropReason::UnsupportedStore));
}

#[test]
fn an_entry_without_files_is_dropped_as_such() {
    let (save, drops) = save(&Entry::default());
    assert!(save.is_empty());
    assert_eq!(drops, vec![DropReason::NoFiles]);
}

#[test]
fn unknown_os_and_placeholders_and_empty_paths_are_dropped() {
    let entry = entry_with_files(vec![
        ("<winAppData>/g", file(&["save"], vec![cond(Some("dos"), None)])),
        ("<winAppData>/h", FileEntry { tags: vec![], when: Some(Whens::One(cond(Some("windows"), Some("gog")))) }),
        ("<game>/saves", file(&[], vec![cond(Some("linux"), None)])),
    ]);
    let (save, drops) = save(&entry);
    assert_eq!(save.len(), 1);
    assert_eq!(save[0].dir, "{APPDATA}/h");
    assert_eq!(save[0].when.unwrap().store, Some(Store::Gog));
    assert_eq!(drops, vec![DropReason::UnsupportedPlaceholder, DropReason::UnsupportedPlaceholder]);
    assert_eq!(normalize_path("/"), Err(DropReason::Empty));
    assert_eq!(normalize_path("<base>"), Err(DropReason::BareRoot));
    assert_eq!(normalize_path("<base>/"), Err(DropReason::BareRoot));
    assert_eq!(normalize_path("<root>/steamapps/common/Game"), Err(DropReason::BareRoot));
    assert_eq!(normalize_path("<root>/userdata/<storeUserId>/"), Err(DropReason::UnsupportedPlaceholder));
    assert_eq!(normalize_path("<root>/userdata/<storeUserId>//"), Err(DropReason::UnsupportedPlaceholder));
    assert_eq!(normalize_path("<home>\\Saves\\slot1.sav"), Ok("{HOME}/Saves".to_string()));
}

#[test]
fn spellings_of_one_directory_merge_and_conflicting_conditions_stay_apart() {
    let entry = entry_with_files(vec![
        ("<base>/Saves", file(&["save"], vec![cond(Some("windows"), None)])),
        ("<base>/Saves/", file(&["save"], vec![cond(Some("linux"), None)])),
        ("<root>/steamapps/common/G/Saves", file(&["save"], vec![cond(None, Some("steam"))])),
    ]);
    let (save, _) = save(&entry);
    assert_eq!(save.len(), 2);
    assert_eq!(save[0].dir, "{INSTALL_DIR}/Saves");
    assert_eq!(save[0].when.unwrap().os, Some(Platform::Windows));
    assert_eq!(save[0].when.unwrap().store, Some(Store::Steam));
    assert_eq!(save[1].when.unwrap().os, Some(Platform::Linux));
}

#[test]
fn detection_ids_are_sorted_without_repeats() {
    let entry = Entry {
        steam: Some(SteamField { id: 30 }),
        gog: Some(GogField { id: 7 }),
        id: Some(ExtraIds { steam_extra: vec![10, 30, 20, 10], gog_extra: vec![] }),
        ..Entry::default()
    };
    let d = detect(&entry);
    assert_eq!(d.steam.unwrap().0, vec![10, 20, 30]);
    assert_eq!(d.gog.unwrap().0, vec![7]);
    assert!(detect(&Entry::default()).is_empty());
}

#[test]
fn launch_paths_become_sorted_executables_per_os_with_warnings() {
    let entry = Entry {
        launch: Some(vec![
            ("<base>/b.exe".to_string(), vec![LaunchItem { when: None }]),
            ("<base>/a.exe".to_string(), vec![LaunchItem { when: Some(Whens::One(cond(Some("mac"), None))) }]),
            ("<home>/x.exe".to_string(), vec![LaunchItem { when: None }]),
        ]),
        ..Entry::default()
    };
    let (files, warnings) = executables(&entry);
    assert_eq!(files.len(), 3);
    assert_eq!(files[0], (Platform::Windows, vec!["b.exe".to_string()]));
    assert_eq!(files[1], (Platform::Macos, vec!["a.exe".to_string(), "b.exe".to_string()]));
    assert_eq!(files[2], (Platform::Linux, vec!["b.exe".to_string()]));
    assert_eq!(warnings, vec!["launch path \"<home>/x.exe\" does not start with <base>/; ignored".to_string()]);
    assert_eq!(launch_platforms(&[]), vec![Platform::Windows, Platform::Macos, Platform::Linux]);
    assert_eq!(launch_platforms(&[cond(Some("linux"), Some("steam"))]), vec![Platform::Linux]);
}

#[test]
fn path_helpers() {
    assert_eq!(strip_install_dir_segment("Game/Saves/x"), "/Saves/x");
    assert_eq!(strip_install_dir_segment("Game"), "");
    assert_eq!(first_unknown_placeholder("{HOME}/<game>/x"), Some("<game>".to_string()));
    assert_eq!(first_unknown_placeholder("{HOME}/<game"), None);
    assert_eq!(collapse_glob("a/b/c*d/e"), "a/b");
    assert_eq!(collapse_glob("ab*"), "");
    assert_eq!(to_directory("a/b/file.txt"), "a/b");
    assert_eq!(to_directory("a/b/.."), "a/b/..");
    assert_eq!(DropReason::GalaxyStorage.describe(), "GOG Galaxy-managed storage");
}

#[test]
fn the_install_folder_form_reads_as_base() {
    assert_eq!(
        normalize_path("<root>/steamapps/common/Some Game/Saves/slot1"),
        normalize_path("<base>/Saves/slot1")
    );
    assert_eq!(normalize_path("<root>/steamapps/common/Some Game/"), Err(DropReason::BareRoot));
    assert_eq!(normalize_path("<base>/"), Err(DropReason::BareRoot));
    // A folder name of backslashes alone with nothing after it is the one
    // input where the two forms part.
    assert_eq!(normalize_path("<root>/steamapps/common/\\/"), Err(DropReason::UnsupportedRoot));
}

#[test]
fn a_trailing_slash_changes_nothing() {
    for path in ["<home>/Saves", "<base>/data/*.sav", "<winAppData>", "<root>/userdata/1/remote"] {
        assert_eq!(normalize_path(&format!("{path}/")), normalize_path(path));
    }
}

#[test]
fn a_normalized_path_is_a_plain_folder() {
    for path in [
        "<home>/Saves/*.sav",
        "<winDocuments>/My Games/Game\\Saves\\",
        "<base>/saves/slot[0-9]/x",
        "<xdgData>/game/a?b/c",
        "<winAppData>/g/settings.ini",
    ] {
        let dir = normalize_path(path).unwrap();
        assert!(!dir.is_empty() && dir != "/" && !dir.ends_with('/'));
        assert!(!dir.contains(['\\', '*', '?', '[']));
        assert!(!dir.contains('<'));
    }
}
