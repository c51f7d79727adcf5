use std::collections::{BTreeMap, BTreeSet};

use savescummer_catalog::model::{Detect, Game, IdList, Platform, SaveCandidate, Store, When};
use savescummer_catalog::resolve::{assign_games, install_builds, resolve, Decision, Environment, Install, Probe, Reason};

#[derive(Default, Clone)]
struct FakeProbe {
    dirs: BTreeSet<String>,
    files: BTreeSet<String>,
    children: BTreeMap<String, Vec<String>>,
}

impl FakeProbe {
    fn dir(mut self, path: &str) -> Self {
        self.dirs.insert(path.to_string());
        self
    }

    fn file(mut self, path: &str) -> Self {
        self.files.insert(path.to_string());
        self
    }
}

impl Probe for FakeProbe {
    fn is_dir(&self, path: &str) -> bool {
        self.dirs.contains(path)
    }
    fn is_file(&self, path: &str) -> bool {
        self.files.contains(path)
    }
    fn install_identity(&self, _install_dir: &str) -> Option<String> {
        None
    }
    fn newest_activity(&self, _dir: &str, _globs: &[String]) -> Option<u64> {
        None
    }
    fn child_dirs(&self, dir: &str) -> Vec<String> {
        self.children.get(dir).cloned().unwrap_or_default()
    }
}

fn windows_env() -> Environment {
    Environment {
        folders: vec![
            ("HOME".into(), "C:/Users/u".into()),
            ("APPDATA".into(), "C:/Users/u/AppData/Roaming".into()),
            ("LOCALAPPDATA".into(), "C:/Users/u/AppData/Local".into()),
            ("LOCALLOW".into(), "C:/Users/u/AppData/LocalLow".into()),
            ("DOCUMENTS".into(), "C:/Users/u/Documents".into()),
            ("PUBLIC".into(), "C:/Users/Public".into()),
            ("PROGRAMDATA".into(), "C:/ProgramData".into()),
            ("PROGRAMFILES".into(), "C:/Program Files".into()),
            ("WINDIR".into(), "C:/Windows".into()),
        ],
        steam_userdata: Some("C:/Steam/userdata/44258119".into()),
        current_pick: None,
        store_user_id: None,
    }
}

fn linux_env() -> Environment {
    Environment {
        folders: vec![
            ("HOME".into(), "/home/u".into()),
            ("XDG_DATA_HOME".into(), "/home/u/.local/share".into()),
            ("XDG_CONFIG_HOME".into(), "/home/u/.config".into()),
        ],
        steam_userdata: Some("/home/u/.steam/steam/userdata/44258119".into()),
        current_pick: None,
        store_user_id: None,
    }
}

fn game(id: &str, save: Vec<SaveCandidate>) -> Game {
    Game {
        id: id.into(),
        name: id.into(),
        info: String::new(),
        detect: Some(Detect { steam: Some(IdList::one(1)), gog: None }),
        executables: vec![],
        save,
    }
}

fn rule(dir: &str) -> SaveCandidate {
    SaveCandidate { when: None, dir: dir.into() }
}

fn win(dir: &str) -> SaveCandidate {
    SaveCandidate { when: Some(When { os: Some(Platform::Windows), store: None }), dir: dir.into() }
}

fn lin(dir: &str) -> SaveCandidate {
    SaveCandidate { when: Some(When { os: Some(Platform::Linux), store: None }), dir: dir.into() }
}

fn steam(dir: &str) -> SaveCandidate {
    SaveCandidate { when: Some(When { os: None, store: Some(Store::Steam) }), dir: dir.into() }
}

fn install(store: Store, platform: Platform, dir: &str) -> Install {
    Install {
        catalog_id: "g".into(),
        store,
        platform,
        install_dir: dir.into(),
        executables: vec![],
        proton_prefix: None,
        identity: None,
    }
}

fn proton(dir: &str, prefix: &str) -> Install {
    Install { proton_prefix: Some(prefix.into()), ..install(Store::Steam, Platform::Linux, dir) }
}

fn candidates(d: &Decision) -> Vec<String> {
    match d {
        Decision::Chosen { candidates, .. } | Decision::Unsupported { candidates, .. } => candidates.clone(),
    }
}

fn chosen(d: &Decision) -> (String, Reason) {
    match d {
        Decision::Chosen { data_dir, reason, .. } => (data_dir.clone(), *reason),
        other => panic!("not chosen: {other:?}"),
    }
}

const COQ: &str = "/home/u/.steam/steam/steamapps/common/Caves of Qud";
const PFX: &str = "/home/u/.steam/steam/steamapps/compatdata/333640/pfx";

fn coq() -> Game {
    Game {
        executables: vec![(Platform::Windows, vec!["CoQ.exe".into()]), (Platform::Linux, vec!["CoQ.x86_64".into()])],
        ..game(
            "steam-333640",
            vec![
                win("{HOME}/AppData/LocalLow/Freehold Games/CavesOfQud/Saves"),
                lin("{XDG_CONFIG_HOME}/unity3d/Freehold Games/CavesOfQud/Saves"),
            ],
        )
    }
}

#[test]
fn case_01_single_target() {
    let g = game("hades", vec![win("{DOCUMENTS}/Saved Games/Hades")]);
    let probe = FakeProbe::default().dir("C:/Users/u/Documents/Saved Games/Hades");
    let d = resolve(&g, &install(Store::Steam, Platform::Windows, "C:/Steam/steamapps/common/Hades"), &windows_env(), &probe);
    assert_eq!(chosen(&d), ("C:/Users/u/Documents/Saved Games/Hades".to_string(), Reason::OnlyExisting));
}

#[test]
fn case_02_several_folders_one_save() {
    let g = game(
        "sts",
        vec![
            win("{INSTALL_DIR}/saves"),
            win("{INSTALL_DIR}/preferences"),
            win("{INSTALL_DIR}/runs"),
            win("{INSTALL_DIR}/betaPreferences"),
        ],
    );
    let d = resolve(&g, &install(Store::Steam, Platform::Windows, "D:/STS"), &windows_env(), &FakeProbe::default());
    assert_eq!(candidates(&d), vec!["D:/STS/saves", "D:/STS/preferences", "D:/STS/runs", "D:/STS/betaPreferences"]);
    assert_eq!(chosen(&d), ("D:/STS/saves".to_string(), Reason::ExactName));
}

#[test]
fn case_03_several_folders_of_different_kinds() {
    let g = game("hf", vec![win("{INSTALL_DIR}/Saves"), win("{INSTALL_DIR}/SavesSkirmish"), win("{INSTALL_DIR}/Ships")]);
    let d = resolve(&g, &install(Store::Steam, Platform::Windows, "D:/HighFleet"), &windows_env(), &FakeProbe::default());
    assert_eq!(candidates(&d).len(), 3);
}

#[test]
fn case_04_old_and_new_paths_both_exist() {
    let g = game(
        "rw",
        vec![
            win("{LOCALLOW}/Ludeon Studios/RimWorld/Saves"),
            win("{LOCALLOW}/Ludeon Studios/RimWorld by Ludeon Studios/Saves"),
        ],
    );
    let probe = FakeProbe::default()
        .dir("C:/Users/u/AppData/LocalLow/Ludeon Studios/RimWorld/Saves")
        .dir("C:/Users/u/AppData/LocalLow/Ludeon Studios/RimWorld by Ludeon Studios/Saves");
    let d = resolve(&g, &install(Store::Steam, Platform::Windows, "D:/RimWorld"), &windows_env(), &probe);
    let all = candidates(&d);
    assert_eq!(all.len(), 2);
    assert!(all.iter().all(|c| probe.is_dir(c)));
    assert!(all.contains(&chosen(&d).0));
}

#[test]
fn case_05_old_and_new_only_one_exists() {
    let g = game("rw", vec![win("{LOCALLOW}/Old/Saves"), win("{LOCALLOW}/New/Saves")]);
    let probe = FakeProbe::default().dir("C:/Users/u/AppData/LocalLow/New/Saves");
    let d = resolve(&g, &install(Store::Steam, Platform::Windows, "D:/RimWorld"), &windows_env(), &probe);
    assert_eq!(candidates(&d).len(), 2);
    assert_eq!(chosen(&d), ("C:/Users/u/AppData/LocalLow/New/Saves".to_string(), Reason::OnlyExisting));
}

#[test]
fn case_06_store_scoped_paths() {
    let g = game(
        "returnal",
        vec![
            SaveCandidate {
                when: Some(When { os: Some(Platform::Windows), store: Some(Store::Steam) }),
                dir: "{LOCALAPPDATA}/Returnal/Steam/Saved".into(),
            },
            SaveCandidate {
                when: Some(When { os: Some(Platform::Windows), store: Some(Store::Epic) }),
                dir: "{LOCALAPPDATA}/Returnal/Epic/Saved".into(),
            },
        ],
    );
    let s = resolve(&g, &install(Store::Steam, Platform::Windows, "D:/R"), &windows_env(), &FakeProbe::default());
    let e = resolve(&g, &install(Store::Epic, Platform::Windows, "D:/R"), &windows_env(), &FakeProbe::default());
    assert_eq!(candidates(&s), vec!["C:/Users/u/AppData/Local/Returnal/Steam/Saved"]);
    assert_eq!(candidates(&e), vec!["C:/Users/u/AppData/Local/Returnal/Epic/Saved"]);
}

#[test]
fn case_08_two_installs_shared_folder() {
    let g = game("steam-1", vec![rule("{APPDATA}/Game")]);
    let mut a = install(Store::Steam, Platform::Windows, "C:/Steam/steamapps/common/Game");
    a.executables = vec!["C:/Steam/steamapps/common/Game/Game.exe".into()];
    let mut b = install(Store::Gog, Platform::Windows, "C:/GOG Games/Game");
    b.executables = vec!["C:/GOG Games/Game/Game.exe".into()];
    let probe = FakeProbe::default();
    let decisions = vec![resolve(&g, &a, &windows_env(), &probe), resolve(&g, &b, &windows_env(), &probe)];
    let records = assign_games(&decisions);
    assert_eq!(records.len(), 1);
    assert_eq!(records[0].executables.len(), 2, "both executable sets map to the one record");
}

#[test]
fn case_09_same_store_twice() {
    let g = game("steam-9", vec![rule("{INSTALL_DIR}/save")]);
    let mut first = install(Store::Steam, Platform::Windows, "D:/Lib2/common/G");
    first.catalog_id = "steam-9".into();
    first.identity = Some("v2-f2".into());
    let mut second = install(Store::Steam, Platform::Windows, "C:/Lib1/common/G");
    second.catalog_id = "steam-9".into();
    second.identity = Some("v1-f1".into());
    let probe = FakeProbe::default();
    let decisions = vec![resolve(&g, &first, &windows_env(), &probe), resolve(&g, &second, &windows_env(), &probe)];
    let records = assign_games(&decisions);
    let ids: Vec<&str> = records.iter().map(|r| r.game_id.as_str()).collect();
    assert_eq!(ids, vec!["steam-9", "steam-9#v2-f2"]);
}

#[test]
fn case_12_proton_before_first_launch() {
    let probe = FakeProbe::default().file(&format!("{COQ}/CoQ.exe"));
    assert_eq!(install_builds(&coq(), &proton(COQ, PFX), &probe), vec![Platform::Windows]);
    let d = resolve(&coq(), &proton(COQ, PFX), &linux_env(), &probe);
    let (dir, _) = chosen(&d);
    assert!(dir.starts_with(PFX), "prefix paths are computed anyway");
    assert!(!probe.is_dir(&dir));
}

#[test]
fn case_13_stale_prefix() {
    let probe = FakeProbe::default()
        .file(&format!("{COQ}/CoQ.x86_64"))
        .dir(&format!("{PFX}/drive_c/users/steamuser/AppData/LocalLow/Freehold Games/CavesOfQud/Saves"));
    assert_eq!(install_builds(&coq(), &proton(COQ, PFX), &probe), vec![Platform::Linux]);
    let d = resolve(&coq(), &proton(COQ, PFX), &linux_env(), &probe);
    assert!(!chosen(&d).0.starts_with(PFX));
}

#[test]
fn case_14_files_cant_tell_the_build() {
    // No executables in the catalog.
    let mut eu4 = coq();
    eu4.executables = vec![];
    let probe = FakeProbe::default();
    assert_eq!(install_builds(&eu4, &proton(COQ, PFX), &probe), vec![Platform::Linux, Platform::Windows]);
    assert_eq!(candidates(&resolve(&eu4, &proton(COQ, PFX), &linux_env(), &probe)).len(), 2);
    // The same file listed for both builds.
    let mut vs = coq();
    vs.executables = vec![(Platform::Windows, vec!["CoQ.exe".into()]), (Platform::Linux, vec!["CoQ.exe".into()])];
    let probe = FakeProbe::default().file(&format!("{COQ}/CoQ.exe"));
    assert_eq!(install_builds(&vs, &proton(COQ, PFX), &probe).len(), 2);
    // Both builds' files present: one record.
    let probe = FakeProbe::default().file(&format!("{COQ}/CoQ.exe")).file(&format!("{COQ}/CoQ.x86_64"));
    assert_eq!(install_builds(&coq(), &proton(COQ, PFX), &probe).len(), 2);
    let d = resolve(&coq(), &proton(COQ, PFX), &linux_env(), &probe);
    assert_eq!(candidates(&d).len(), 2);
    assert_eq!(assign_games(&[d]).len(), 1);
}

#[test]
fn case_15_build_switch_both_folders_exist() {
    let probe = FakeProbe::default()
        .file(&format!("{COQ}/CoQ.exe"))
        .dir("/home/u/.config/unity3d/Freehold Games/CavesOfQud/Saves");
    assert_eq!(install_builds(&coq(), &proton(COQ, PFX), &probe), vec![Platform::Windows]);
    let d = resolve(&coq(), &proton(COQ, PFX), &linux_env(), &probe);
    assert!(chosen(&d).0.starts_with(PFX), "the native folder is ignored after the switch");
}

#[test]
fn case_16_switching_back() {
    let native = FakeProbe::default().file(&format!("{COQ}/CoQ.x86_64"));
    let windows_build = FakeProbe::default().file(&format!("{COQ}/CoQ.exe"));
    let a = resolve(&coq(), &proton(COQ, PFX), &linux_env(), &native);
    let b = resolve(&coq(), &proton(COQ, PFX), &linux_env(), &windows_build);
    let c = resolve(&coq(), &proton(COQ, PFX), &linux_env(), &native);
    assert_ne!(candidates(&a), candidates(&b));
    assert_eq!(a, c, "the native choice returns exactly");
}

#[test]
fn case_18_fresh_install_no_saves_yet() {
    let g = game("g", vec![win("{APPDATA}/Game/saves")]);
    let d = resolve(&g, &install(Store::Steam, Platform::Windows, "D:/G"), &windows_env(), &FakeProbe::default());
    assert_eq!(chosen(&d).0, "C:/Users/u/AppData/Roaming/Game/saves", "nothing is provisional");
}

#[test]
fn case_19_saves_only_in_steam_userdata() {
    let g = game("steam-632360", vec![steam("{STEAM_USERDATA}/632360/remote/UserProfiles")]);
    let d = resolve(&g, &install(Store::Steam, Platform::Windows, "D:/RoR2"), &windows_env(), &FakeProbe::default());
    assert_eq!(candidates(&d), vec!["C:/Steam/userdata/44258119/632360/remote/UserProfiles"]);
}

#[test]
fn case_20_upstream_rename_keeps_the_id() {
    let before = game("steam-5", vec![rule("{APPDATA}/G")]);
    let after = Game { name: "New Name".into(), ..before.clone() };
    let i = Install { catalog_id: "steam-5".into(), ..install(Store::Steam, Platform::Windows, "D:/G") };
    let probe = FakeProbe::default();
    let a = assign_games(&[resolve(&before, &i, &windows_env(), &probe)]);
    let b = assign_games(&[resolve(&after, &i, &windows_env(), &probe)]);
    assert_eq!(a[0].game_id, b[0].game_id);
    assert_eq!(a[0].data_dir, b[0].data_dir);
}

#[test]
fn case_22_catalog_update_changes_a_path() {
    let before = game("g", vec![win("{APPDATA}/G/a"), win("{APPDATA}/G/b")]);
    let after = game("g", vec![win("{APPDATA}/G/a"), win("{APPDATA}/G/c")]);
    let i = install(Store::Steam, Platform::Windows, "D:/G");
    let a = candidates(&resolve(&before, &i, &windows_env(), &FakeProbe::default()));
    let b = candidates(&resolve(&after, &i, &windows_env(), &FakeProbe::default()));
    assert_eq!(a[0], b[0], "the common candidate stays");
    assert_ne!(a[1], b[1]);
}

#[test]
fn case_24_user_deleted_their_saves() {
    let g = game("rw", vec![win("{LOCALLOW}/Ludeon/RimWorld/Saves")]);
    let probe = FakeProbe::default().dir("C:/Users/u/AppData/LocalLow/Ludeon");
    let d = resolve(&g, &install(Store::Steam, Platform::Windows, "D:/RW"), &windows_env(), &probe);
    assert_eq!(chosen(&d), ("C:/Users/u/AppData/LocalLow/Ludeon/RimWorld/Saves".to_string(), Reason::ExactName));
}

#[test]
fn case_25_game_update_moved_its_saves() {
    let g = game("g", vec![win("{APPDATA}/G/old"), win("{LOCALAPPDATA}/G/new")]);
    let probe = FakeProbe::default().dir("C:/Users/u/AppData/Roaming/G/old");
    let i = install(Store::Steam, Platform::Windows, "D:/G");
    let first = resolve(&g, &i, &windows_env(), &probe);
    let later = resolve(&g, &i, &windows_env(), &probe.clone().dir("C:/Users/u/AppData/Local/G/new"));
    assert_eq!(candidates(&first), candidates(&later), "both paths are candidates all along");
    assert_eq!(chosen(&first), ("C:/Users/u/AppData/Roaming/G/old".to_string(), Reason::OnlyExisting));
}

#[test]
fn case_26_steam_account_switch() {
    let g = game("g", vec![steam("{STEAM_USERDATA}/1/remote"), win("{APPDATA}/G")]);
    let i = install(Store::Steam, Platform::Windows, "D:/G");
    let a = candidates(&resolve(&g, &i, &windows_env(), &FakeProbe::default()));
    let other = Environment { steam_userdata: Some("C:/Steam/userdata/1".into()), ..windows_env() };
    let b = candidates(&resolve(&g, &i, &other, &FakeProbe::default()));
    assert_ne!(a[0], b[0]);
    assert_eq!(a[1], b[1], "account-independent candidates stay in common");
}

#[test]
fn case_30_no_applicable_target() {
    let g = game("g", vec![win("{APPDATA}/G")]);
    let mut i = install(Store::Steam, Platform::Linux, "/games/G");
    i.executables = vec!["/games/G/g.x86_64".into()];
    match resolve(&g, &i, &linux_env(), &FakeProbe::default()) {
        Decision::Unsupported { executables, reason, candidates, .. } => {
            assert_eq!(executables, vec!["/games/G/g.x86_64".to_string()], "the game stays recognizable");
            assert_eq!(reason, "no save candidate applies to this install");
            assert!(candidates.is_empty());
        },
        other => panic!("{other:?}"),
    }
}

#[test]
fn case_31_steam_account_unknown() {
    let g = game("g", vec![steam("{STEAM_USERDATA}/1/remote"), win("{APPDATA}/G")]);
    let env = Environment { steam_userdata: None, ..windows_env() };
    let d = resolve(&g, &install(Store::Steam, Platform::Windows, "D:/G"), &env, &FakeProbe::default());
    assert_eq!(candidates(&d), vec!["C:/Users/u/AppData/Roaming/G"]);
}

#[test]
fn case_34_folder_with_a_dot_in_a_shared_place() {
    let g = game(
        "nt",
        vec![SaveCandidate {
            when: Some(When { os: Some(Platform::Macos), store: None }),
            dir: "{HOME}/Library/Application Support/com.vlambeer.nuclearthrone".into(),
        }],
    );
    let env = Environment { folders: vec![("HOME".into(), "/Users/u".into())], ..linux_env() };
    let d = resolve(&g, &install(Store::Steam, Platform::Macos, "/Apps/NT"), &env, &FakeProbe::default());
    assert_eq!(candidates(&d), vec!["/Users/u/Library/Application Support/com.vlambeer.nuclearthrone"]);
}

#[test]
fn placeholders_per_build_windows() {
    let g = game(
        "g",
        vec![
            win("{HOME}/h/x"),
            win("{APPDATA}/a/x"),
            win("{LOCALAPPDATA}/l/x"),
            win("{LOCALLOW}/ll/x"),
            win("{DOCUMENTS}/d/x"),
            win("{PUBLIC}/p/x"),
            win("{PROGRAMDATA}/pd/x"),
            win("{PROGRAMFILES}/pf/x"),
            win("{WINDIR}/w/x"),
        ],
    );
    let d = resolve(&g, &install(Store::Steam, Platform::Windows, "D:/G"), &windows_env(), &FakeProbe::default());
    assert_eq!(
        candidates(&d),
        vec![
            "C:/Users/u/h/x",
            "C:/Users/u/AppData/Roaming/a/x",
            "C:/Users/u/AppData/Local/l/x",
            "C:/Users/u/AppData/LocalLow/ll/x",
            "C:/Users/u/Documents/d/x",
            "C:/Users/Public/p/x",
            "C:/ProgramData/pd/x",
            "C:/Program Files/pf/x",
            "C:/Windows/w/x",
        ]
    );
}

#[test]
fn placeholders_inside_a_proton_prefix() {
    let mut g = coq();
    g.save = vec![
        win("{HOME}/h/x"),
        win("{APPDATA}/a/x"),
        win("{LOCALAPPDATA}/l/x"),
        win("{LOCALLOW}/ll/x"),
        win("{DOCUMENTS}/d/x"),
        win("{PUBLIC}/p/x"),
        win("{PROGRAMDATA}/pd/x"),
        win("{PROGRAMFILES}/pf/x"),
        win("{WINDIR}/w/x"),
        win("{INSTALL_DIR}/i/x"),
    ];
    let probe = FakeProbe::default().file(&format!("{COQ}/CoQ.exe"));
    let d = resolve(&g, &proton(COQ, PFX), &linux_env(), &probe);
    let roots: Vec<String> = candidates(&d).into_iter().map(|r| r.replace(PFX, "<pfx>")).collect();
    assert_eq!(
        roots,
        vec![
            "<pfx>/drive_c/users/steamuser/h/x".to_string(),
            "<pfx>/drive_c/users/steamuser/AppData/Roaming/a/x".to_string(),
            "<pfx>/drive_c/users/steamuser/AppData/Local/l/x".to_string(),
            "<pfx>/drive_c/users/steamuser/AppData/LocalLow/ll/x".to_string(),
            "<pfx>/drive_c/users/steamuser/Documents/d/x".to_string(),
            "<pfx>/drive_c/users/Public/p/x".to_string(),
            "<pfx>/drive_c/ProgramData/pd/x".to_string(),
            "<pfx>/drive_c/Program Files/pf/x".to_string(),
            "<pfx>/drive_c/windows/w/x".to_string(),
            format!("{COQ}/i/x"),
        ]
    );
}

#[test]
fn windows_placeholders_are_dropped_for_a_linux_build() {
    let g = game("g", vec![rule("{APPDATA}/G"), rule("{XDG_DATA_HOME}/G")]);
    let d = resolve(&g, &install(Store::Steam, Platform::Linux, "/g"), &linux_env(), &FakeProbe::default());
    assert_eq!(candidates(&d), vec!["/home/u/.local/share/G"]);
}

#[test]
fn store_filtering() {
    let g = game("g", vec![steam("{STEAM_USERDATA}/1/remote"), win("{APPDATA}/G")]);
    let d = resolve(&g, &install(Store::Gog, Platform::Windows, "D:/G"), &windows_env(), &FakeProbe::default());
    assert_eq!(candidates(&d).len(), 1);
}
