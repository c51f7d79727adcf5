use std::collections::{BTreeMap, BTreeSet};

use savescummer_catalog::model::{Detect, Game, IdList, Platform, SaveCandidate, Store, When};
use savescummer_catalog::resolve::{
    assign_games, decide, decide_builds, install_builds, resolve, Decision, Environment, Filter, Install, Observations, Probe, Reason, SteamAccount,
};

#[derive(Default)]
struct FakeProbe {
    dirs: BTreeSet<String>,
    files: BTreeSet<String>,
    activity: BTreeMap<String, u64>,
    children: BTreeMap<String, Vec<String>>,
}

impl FakeProbe {
    fn with_dirs(dirs: &[&str]) -> Self {
        Self { dirs: dirs.iter().map(|d| d.to_string()).collect(), ..Default::default() }
    }
}

impl Probe for FakeProbe {
    fn is_dir(&self, path: &str) -> bool {
        self.dirs.contains(path)
    }
    fn is_file(&self, path: &str) -> bool {
        self.files.contains(path)
    }
    fn install_identity(&self, _install_dir: &str) -> Option<String> {
        None
    }
    fn newest_activity(&self, dir: &str, _globs: &[String]) -> Option<u64> {
        self.activity.get(dir).copied()
    }
    fn child_dirs(&self, dir: &str) -> Vec<String> {
        self.children.get(dir).cloned().unwrap_or_default()
    }
}

fn base_env() -> Environment {
    Environment {
        folders: vec![
            ("APPDATA".into(), r"C:\Users\me\AppData\Roaming".into()),
            ("HOME".into(), r"C:\Users\me".into()),
            ("LOCALAPPDATA".into(), r"C:\Users\me\AppData\Local".into()),
            ("PROGRAMFILES".into(), r"C:\Program Files".into()),
        ],
        steam_userdata: Some(r"C:\Steam\root\userdata\12345".into()),
        current_pick: None,
        store_user_id: Some("12345".into()),
    }
}

fn install(candidates: &[(&str, Option<When>)], store: Store) -> (Game, Install) {
    let game = Game {
        id: "steam-1".into(),
        name: "Game".into(),
        info: String::new(),
        detect: Some(Detect { steam: Some(IdList::one(1)), gog: None }),
        executables: vec![],
        save: candidates.iter().map(|(dir, when)| SaveCandidate { when: *when, dir: (*dir).into() }).collect(),
    };
    let install = Install {
        catalog_id: "steam-1".into(),
        store,
        platform: Platform::Windows,
        install_dir: "D:/Games/Game".into(),
        executables: vec!["D:/Games/Game/game.exe".into()],
        proton_prefix: None,
        identity: Some("vol:42".into()),
    };
    (game, install)
}

fn windows() -> Option<When> {
    Some(When { os: Some(Platform::Windows), store: None })
}

fn chosen(decision: &Decision) -> (String, Reason) {
    match decision {
        Decision::Chosen { data_dir, reason, .. } => (data_dir.clone(), *reason),
        other => panic!("{other:?}"),
    }
}

#[test]
fn single_candidate_is_chosen_without_prompt() {
    let (game, install) = install(&[("{INSTALL_DIR}/save", None)], Store::Steam);
    let probe = FakeProbe::with_dirs(&["D:/Games/Game/save"]);
    let d = resolve(&game, &install, &base_env(), &probe);
    assert_eq!(chosen(&d), ("D:/Games/Game/save".to_string(), Reason::OnlyExisting));
}

#[test]
fn exact_name_breaks_a_multi_target_tie() {
    let (game, install) = install(
        &[("{INSTALL_DIR}/Saves", windows()), ("{INSTALL_DIR}/SavesSkirmish", windows()), ("{INSTALL_DIR}/Ships", windows())],
        Store::Steam,
    );
    let probe = FakeProbe::with_dirs(&["D:/Games/Game/Saves", "D:/Games/Game/SavesSkirmish", "D:/Games/Game/Ships"]);
    let d = resolve(&game, &install, &base_env(), &probe);
    assert_eq!(chosen(&d), ("D:/Games/Game/Saves".to_string(), Reason::ExactName));
}

#[test]
fn newest_activity_wins_when_names_are_not_exact() {
    let (game, install) = install(&[("{INSTALL_DIR}/profiles", None), ("{INSTALL_DIR}/live_profiles", None)], Store::Steam);
    let mut probe = FakeProbe::with_dirs(&["D:/Games/Game/profiles", "D:/Games/Game/live_profiles"]);
    probe.activity.insert("D:/Games/Game/profiles".into(), 100);
    probe.activity.insert("D:/Games/Game/live_profiles".into(), 200);
    let d = resolve(&game, &install, &base_env(), &probe);
    assert_eq!(chosen(&d), ("D:/Games/Game/live_profiles".to_string(), Reason::NewestActivity));
}

#[test]
fn sticky_pick_is_kept_while_it_exists_and_re_resolved_otherwise() {
    let (game, install) = install(&[("{INSTALL_DIR}/old", None), ("{INSTALL_DIR}/new", None)], Store::Steam);
    let mut env = base_env();
    env.current_pick = Some("D:/Games/Game/old".into());
    let probe = FakeProbe::with_dirs(&["D:/Games/Game/old", "D:/Games/Game/new"]);
    let d = resolve(&game, &install, &env, &probe);
    assert_eq!(chosen(&d), ("D:/Games/Game/old".to_string(), Reason::Sticky));
    // Deleted pick re-runs the ladder: only the new dir exists.
    let probe = FakeProbe::with_dirs(&["D:/Games/Game/new"]);
    let d = resolve(&game, &install, &env, &probe);
    assert_eq!(chosen(&d), ("D:/Games/Game/new".to_string(), Reason::OnlyExisting));
}

#[test]
fn store_scoped_candidates_filter_by_install_store() {
    let (game, steam_install) = install(
        &[
            ("{APPDATA}/Returnal/steam", Some(When { os: None, store: Some(Store::Steam) })),
            ("{APPDATA}/Returnal/epic", Some(When { os: None, store: Some(Store::Epic) })),
        ],
        Store::Steam,
    );
    let probe = FakeProbe::with_dirs(&[]);
    match resolve(&game, &steam_install, &base_env(), &probe) {
        Decision::Chosen { candidates, .. } => {
            assert_eq!(candidates, vec![r"C:\Users\me\AppData\Roaming/Returnal/steam".to_string()]);
        }
        other => panic!("{other:?}"),
    }
}

#[test]
fn fresh_install_falls_back_to_exact_name_then_first() {
    let (game, install) = install(&[("{INSTALL_DIR}/data", None), ("{INSTALL_DIR}/save", None)], Store::Steam);
    let probe = FakeProbe::with_dirs(&[]);
    let d = resolve(&game, &install, &base_env(), &probe);
    assert_eq!(chosen(&d), ("D:/Games/Game/save".to_string(), Reason::ExactName));
    let (game, install2) = install_pair_without_exact_names();
    let d = resolve(&game, &install2, &base_env(), &probe);
    assert_eq!(chosen(&d), ("D:/Games/Game/data".to_string(), Reason::FirstCandidate));
}

fn install_pair_without_exact_names() -> (Game, Install) {
    install(&[("{INSTALL_DIR}/data", None), ("{INSTALL_DIR}/other", None)], Store::Steam)
}

#[test]
fn unsupported_when_no_candidate_applies() {
    let (game, install) = install(&[("{APPDATA}/game", Some(When { os: None, store: Some(Store::Gog) }))], Store::Steam);
    let probe = FakeProbe::with_dirs(&[]);
    match resolve(&game, &install, &base_env(), &probe) {
        Decision::Unsupported { reason, game_id, .. } => {
            assert_eq!(reason, "no save candidate applies to this install");
            assert_eq!(game_id, "steam-1");
        }
        other => panic!("{other:?}"),
    }
}

#[test]
fn safe_ancestor_stands_in_for_the_whole_set() {
    let (game, install) = install(&[("{HOME}/Game", None), ("{HOME}/Game/profiles", None)], Store::Steam);
    let probe = FakeProbe::with_dirs(&[r"C:\Users\me/Game", r"C:\Users\me/Game/profiles"]);
    let d = resolve(&game, &install, &base_env(), &probe);
    assert_eq!(chosen(&d), (r"C:\Users\me/Game".to_string(), Reason::Ancestor));
}

#[test]
fn a_known_folder_is_never_an_ancestor() {
    let (game, install) = install(&[("{HOME}", None), ("{HOME}/profiles", None)], Store::Steam);
    let probe = FakeProbe::with_dirs(&[r"C:\Users\me", r"C:\Users\me/profiles"]);
    let d = resolve(&game, &install, &base_env(), &probe);
    assert_eq!(chosen(&d), (r"C:\Users\me".to_string(), Reason::FirstCandidate));
}

#[test]
fn tied_activity_falls_through_to_the_next_rung() {
    let observed = |activity: Vec<Option<u64>>| Observations {
        profile: "steamuser".into(),
        pick_exists: false,
        existing: vec![true, true, true],
        activity,
        linux_present: false,
        windows_present: false,
    };
    let (game, install) = install(
        &[("{INSTALL_DIR}/a", None), ("{INSTALL_DIR}/b", None), ("{INSTALL_DIR}/c", None)],
        Store::Steam,
    );
    let d = decide(&game, &install, &base_env(), &observed(vec![Some(9), Some(5), Some(9)]));
    assert_eq!(chosen(&d), ("D:/Games/Game/a".to_string(), Reason::FirstCandidate));
    // A tie below the newest activity doesn't matter: the newest wins.
    let d = decide(&game, &install, &base_env(), &observed(vec![Some(5), Some(5), Some(9)]));
    assert_eq!(chosen(&d), ("D:/Games/Game/c".to_string(), Reason::NewestActivity));
    let d = decide(&game, &install, &base_env(), &observed(vec![Some(100), Some(100), Some(200)]));
    assert_eq!(chosen(&d), ("D:/Games/Game/c".to_string(), Reason::NewestActivity));
}

#[test]
fn proton_installs_ask_for_the_profile() {
    let prefix = "/home/me/pfx";
    let (game, mut install) = install(&[("{APPDATA}/G", None)], Store::Steam);
    install.platform = Platform::Linux;
    install.proton_prefix = Some(prefix.into());
    let mut probe = FakeProbe::with_dirs(&[]);
    probe.children.insert(format!("{prefix}/drive_c/users"), vec!["steamuser".into(), "deck".into()]);
    match resolve(&game, &install, &base_env(), &probe) {
        Decision::Chosen { data_dir, .. } => assert_eq!(data_dir, format!("{prefix}/drive_c/users/deck/AppData/Roaming/G")),
        other => panic!("{other:?}"),
    }
}

#[test]
fn assign_games_splits_same_store_installs_and_merges_shared_dirs() {
    let decision = |identity: &str, exe: &str, dir: &str| Decision::Chosen {
        game_id: "steam-1".into(),
        catalog_id: "steam-1".into(),
        install_identity: Some(identity.into()),
        executables: vec![exe.into()],
        data_dir: dir.into(),
        candidates: vec![],
        reason: Reason::OnlyExisting,
    };
    let decisions = vec![
        decision("vol:a", r"D:\A\game.exe", r"C:\Saves\Game"),
        decision("vol:b", r"E:\B\game.exe", r"C:\Saves\Game"),
        decision("vol:c", r"F:\C\game.exe", r"C:\Saves\Other"),
    ];
    let records = assign_games(&decisions);
    assert_eq!(records.len(), 2);
    let merged = records.iter().find(|r| r.data_dir.as_deref() == Some(r"C:\Saves\Game")).unwrap();
    assert_eq!(merged.game_id, "steam-1");
    assert_eq!(merged.executables, vec![r"D:\A\game.exe".to_string(), r"E:\B\game.exe".to_string()]);
    assert_eq!(merged.install_ids, vec!["vol:a", "vol:b"]);
    let split = records.iter().find(|r| r.data_dir.as_deref() == Some(r"C:\Saves\Other")).unwrap();
    assert_eq!(split.game_id, "steam-1#vol:c");
}

#[test]
fn installs_without_identity_are_numbered_and_unsupported_ones_come_last() {
    let chosen = |dir: &str| Decision::Chosen {
        game_id: "gog-7".into(),
        catalog_id: "gog-7".into(),
        install_identity: None,
        executables: vec![],
        data_dir: dir.into(),
        candidates: vec!["/b".into(), "/a".into()],
        reason: Reason::FirstCandidate,
    };
    let decisions = vec![
        Decision::Unsupported {
            game_id: "steam-9".into(),
            catalog_id: "steam-9".into(),
            install_identity: Some("vol:z".into()),
            executables: vec![],
            candidates: vec![],
            reason: "no save candidate applies to this install".into(),
        },
        chosen("/b"),
        chosen("/a"),
        chosen("/a/"),
    ];
    let records = assign_games(&decisions);
    assert_eq!(records.len(), 3);
    assert_eq!(records[0].game_id, "gog-7");
    assert_eq!(records[0].data_dir.as_deref(), Some("/a"));
    assert_eq!(records[0].candidates, vec!["/a".to_string(), "/b".to_string()]);
    assert_eq!(records[1].game_id, "gog-7#2");
    assert_eq!(records[1].data_dir.as_deref(), Some("/b"));
    assert_eq!(records[2].game_id, "steam-9");
    assert_eq!(records[2].install_ids, vec!["vol:z"]);
    assert_eq!(records[2].unsupported.as_deref(), Some("no save candidate applies to this install"));
}

#[test]
fn steam_ids_convert_both_ways() {
    let account = SteamAccount::from_id64(76561198004523847).unwrap();
    assert_eq!(account.account_id, 44258119);
    assert_eq!(account.id64(), 76561198004523847);
    assert_eq!(SteamAccount::from_id64(5), None);
}

#[test]
fn filters_cover_relative_paths() {
    assert!(Filter::Exact("saves".into()).covers(&["saves", "a.sav"], false));
    assert!(!Filter::Exact("saves".into()).covers(&["other"], false));
    assert!(Filter::Pattern("C*/SGS*".into()).covers(&["C1", "SGS2", "file"], false));
    assert!(Filter::All.covers(&["x"], false));
}

#[test]
fn filters_compare_case_only_when_asked() {
    assert!(Filter::Exact("Saves".into()).covers(&["saves"], true));
    assert!(!Filter::Exact("Saves".into()).covers(&["saves"], false));
    assert!(!Filter::Pattern("C*/SGS*".into()).covers(&["C1"], false));
}

const COQ: &str = "/home/u/.steam/steam/steamapps/common/Caves of Qud";
const PFX: &str = "/home/u/.steam/steam/steamapps/compatdata/333640/pfx";

fn coq_on_proton() -> (Game, Install) {
    let (game, mut install) = install(
        &[
            ("{LOCALLOW}/Freehold Games/CavesOfQud/Saves", windows()),
            ("{XDG_CONFIG_HOME}/unity3d/Freehold Games/CavesOfQud/Saves", Some(When { os: Some(Platform::Linux), store: None })),
        ],
        Store::Steam,
    );
    install.platform = Platform::Windows;
    install.install_dir = COQ.into();
    install.executables = vec![format!("{COQ}/CoQ.exe")];
    install.proton_prefix = Some(PFX.into());
    (game, install)
}

fn linux_env() -> Environment {
    Environment {
        folders: vec![
            ("HOME".into(), "/home/u".into()),
            ("XDG_DATA_HOME".into(), "/home/u/.local/share".into()),
            ("XDG_CONFIG_HOME".into(), "/home/u/.config".into()),
        ],
        steam_userdata: Some("/home/u/.steam/steam/userdata/44258119".into()),
        current_pick: None,
        store_user_id: None,
    }
}

#[test]
fn determinism() {
    let (game, install) = coq_on_proton();
    let mut probe = FakeProbe::with_dirs(&[]);
    probe.children.insert(format!("{PFX}/drive_c/users"), vec!["steamuser".into()]);
    let a = resolve(&game, &install, &linux_env(), &probe);
    let b = resolve(&game, &install, &linux_env(), &probe);
    assert_eq!(a, b);
}

// ---- the build a Linux install runs ------------------------------------------

fn coq() -> Game {
    Game {
        id: "steam-333640".into(),
        name: "Caves of Qud".into(),
        info: String::new(),
        detect: Some(Detect { steam: Some(IdList::one(333640)), gog: None }),
        executables: vec![(Platform::Windows, vec!["CoQ.exe".into()]), (Platform::Linux, vec!["CoQ.x86_64".into()])],
        save: vec![
            SaveCandidate {
                when: Some(When { os: Some(Platform::Windows), store: None }),
                dir: "{HOME}/AppData/LocalLow/Freehold Games/CavesOfQud/Saves".into(),
            },
            SaveCandidate {
                when: Some(When { os: Some(Platform::Linux), store: None }),
                dir: "{XDG_CONFIG_HOME}/unity3d/Freehold Games/CavesOfQud/Saves".into(),
            },
        ],
    }
}

fn game_install(store: Store, platform: Platform, dir: &str, prefix: Option<&str>) -> Install {
    Install {
        catalog_id: "steam-333640".into(),
        store,
        platform,
        install_dir: dir.into(),
        executables: vec![],
        proton_prefix: prefix.map(str::to_string),
        identity: None,
    }
}

fn proton(dir: &str, prefix: &str) -> Install {
    game_install(Store::Steam, Platform::Linux, dir, Some(prefix))
}

fn with_users(mut probe: FakeProbe, users: &[&str]) -> FakeProbe {
    probe.children.insert(format!("{PFX}/drive_c/users"), users.iter().map(|u| u.to_string()).collect());
    probe
}

fn with_file(mut probe: FakeProbe, path: &str) -> FakeProbe {
    probe.files.insert(path.to_string());
    probe
}

#[test]
fn case_10_linux_native() {
    let probe = with_file(FakeProbe::default(), &format!("{COQ}/CoQ.x86_64"));
    assert_eq!(install_builds(&coq(), &proton(COQ, PFX), &probe), vec![Platform::Linux]);
    let d = resolve(&coq(), &proton(COQ, PFX), &linux_env(), &probe);
    assert_eq!(chosen(&d).0, "/home/u/.config/unity3d/Freehold Games/CavesOfQud/Saves");
}

#[test]
fn case_11_linux_proton() {
    let probe = with_users(with_file(FakeProbe::default(), &format!("{COQ}/CoQ.exe")), &["steamuser"]);
    assert_eq!(install_builds(&coq(), &proton(COQ, PFX), &probe), vec![Platform::Windows]);
    let d = resolve(&coq(), &proton(COQ, PFX), &linux_env(), &probe);
    assert_eq!(chosen(&d).0, format!("{PFX}/drive_c/users/steamuser/AppData/LocalLow/Freehold Games/CavesOfQud/Saves"));
}

#[test]
fn case_32_custom_proton_profile() {
    let probe = with_users(with_file(FakeProbe::default(), &format!("{COQ}/CoQ.exe")), &["steamuser", "Public", "deck"]);
    let d = resolve(&coq(), &proton(COQ, PFX), &linux_env(), &probe);
    assert!(chosen(&d).0.contains("/drive_c/users/deck/AppData/LocalLow"));
}

#[test]
fn windows_and_macos_installs_never_consider_another_build() {
    let probe = with_file(FakeProbe::default(), "D:/G/CoQ.x86_64");
    assert_eq!(install_builds(&coq(), &game_install(Store::Steam, Platform::Windows, "D:/G", None), &probe), vec![Platform::Windows]);
    let mac = game_install(Store::Steam, Platform::Macos, "/Apps/G", None);
    assert_eq!(install_builds(&coq(), &mac, &FakeProbe::default()), vec![Platform::Macos]);
}

#[test]
fn a_linux_install_without_a_prefix_is_native() {
    let probe = with_file(FakeProbe::default(), &format!("{COQ}/CoQ.exe"));
    let linux = game_install(Store::Gog, Platform::Linux, COQ, None);
    assert_eq!(install_builds(&coq(), &linux, &probe), vec![Platform::Linux]);
}

#[test]
fn the_files_present_decide_the_build() {
    let install = proton(COQ, PFX);
    assert_eq!(decide_builds(&install, true, false), vec![Platform::Linux]);
    assert_eq!(decide_builds(&install, false, true), vec![Platform::Windows]);
    assert_eq!(decide_builds(&install, true, true), vec![Platform::Linux, Platform::Windows]);
    assert_eq!(decide_builds(&install, false, false), vec![Platform::Linux, Platform::Windows]);
    // Neither build's files tell: both builds' locations are candidates.
    let probe = with_users(FakeProbe::default(), &["steamuser"]);
    match resolve(&coq(), &install, &linux_env(), &probe) {
        Decision::Chosen { candidates, .. } => assert_eq!(
            candidates,
            vec![
                "/home/u/.config/unity3d/Freehold Games/CavesOfQud/Saves".to_string(),
                format!("{PFX}/drive_c/users/steamuser/AppData/LocalLow/Freehold Games/CavesOfQud/Saves"),
            ]
        ),
        other => panic!("{other:?}"),
    }
}

#[test]
fn the_base_id_goes_to_the_least_identity_and_ids_stay_distinct() {
    let decision = |catalog: &str, identity: &str, dir: &str| Decision::Chosen {
        game_id: catalog.into(),
        catalog_id: catalog.into(),
        install_identity: Some(identity.into()),
        executables: vec![],
        data_dir: dir.into(),
        candidates: vec![],
        reason: Reason::OnlyExisting,
    };
    let decisions = vec![
        decision("steam-1", "vol:b", "/x"),
        decision("gog-2", "vol:z", "/z"),
        decision("steam-1", "vol:a", "/y"),
    ];
    let records = assign_games(&decisions);
    assert_eq!(records.len(), 3);
    let base = records.iter().find(|r| r.game_id == "steam-1").unwrap();
    assert_eq!(base.data_dir.as_deref(), Some("/y"));
    let other = records.iter().find(|r| r.game_id == "steam-1#vol:b").unwrap();
    assert_eq!(other.data_dir.as_deref(), Some("/x"));
    assert!(records.iter().any(|r| r.game_id == "gog-2"));
    let mut ids: Vec<&str> = records.iter().map(|r| r.game_id.as_str()).collect();
    ids.sort();
    ids.dedup();
    assert_eq!(ids.len(), 3);
}
