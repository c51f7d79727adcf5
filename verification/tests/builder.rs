use savescummer_catalog::builder::{
    addendum_has_data, build, build_lenient, build_parsed, check_manifest_hash, covers_os,
    overlay_save, AddendumEntry, BuildError, BuildReport, Inputs, Lock,
};
use savescummer_catalog::games::GameRow;
use savescummer_catalog::manifest::{Cond, Entry, FileEntry, GogField, LaunchItem, SteamField, Whens};
use savescummer_catalog::model::{Detect, IdList, Platform, SaveCandidate, When};
use sha2::Digest;

fn sha256_hex(text: &str) -> String {
    sha2::Sha256::digest(text.as_bytes()).iter().map(|b| format!("{b:02x}")).collect()
}

fn lock(revision: &str, manifest: &str) -> Lock {
    Lock {
        repo: "mtkennerly/ludusavi-manifest".to_string(),
        revision: revision.to_string(),
        sha256: sha256_hex(manifest),
    }
}

fn row(name: &str, info: &str, fit: &str) -> GameRow {
    GameRow { name: name.to_string(), info: info.to_string(), product_fit: fit.to_string() }
}

/// `games.csv` text holding the rows.
fn csv(rows: &[GameRow]) -> String {
    let quote = |s: &str| format!("\"{}\"", s.replace('"', "\"\""));
    let mut text = "Name,Info,Product fit\n".to_string();
    for r in rows {
        text.push_str(&format!("{},{},{}\n", quote(&r.name), quote(&r.info), quote(&r.product_fit)));
    }
    text
}

fn cond(os: Option<&str>, store: Option<&str>) -> Cond {
    Cond { os: os.map(str::to_string), store: store.map(str::to_string), bit: None }
}

fn file(tag: &str, when: Cond) -> FileEntry {
    FileEntry { tags: vec![tag.to_string()], when: Some(Whens::Many(vec![when])) }
}

fn windows_save(dir: &str) -> SaveCandidate {
    SaveCandidate { when: Some(When { os: Some(Platform::Windows), store: None }), dir: dir.to_string() }
}

const HIGHFLEET_YAML: &str = "HighFleet manifest text";

fn highfleet_entry() -> Entry {
    let windows = || cond(Some("windows"), None);
    let steam = || cond(None, Some("steam"));
    Entry {
        steam: Some(SteamField { id: 1434950 }),
        gog: Some(GogField { id: 1589167087 }),
        id: None,
        launch: Some(vec![(
            "<base>/Highfleet.exe".to_string(),
            vec![LaunchItem { when: Some(Whens::Many(vec![cond(Some("windows"), Some("steam"))])) }],
        )]),
        files: Some(vec![
            ("<base>/Config.ini".to_string(), file("config", windows())),
            ("<base>/Saves".to_string(), file("save", windows())),
            ("<base>/SavesSkirmish".to_string(), file("save", windows())),
            ("<base>/Ships".to_string(), file("save", windows())),
            ("<root>/steamapps/common/HighFleet/Config.ini".to_string(), file("config", steam())),
            ("<root>/steamapps/common/HighFleet/Saves".to_string(), file("save", steam())),
            ("<root>/steamapps/common/HighFleet/SavesSkirmish".to_string(), file("save", steam())),
            ("<root>/steamapps/common/HighFleet/Ships".to_string(), file("save", steam())),
        ]),
        install_dir: None,
    }
}

fn void_war_addendum() -> AddendumEntry {
    AddendumEntry {
        id: None,
        detect: Some(Detect { steam: Some(IdList::one(2853590)), gog: None }),
        executables: vec![(Platform::Windows, vec!["Void War.exe".to_string()])],
        save: vec![windows_save("{APPDATA}/Void_War")],
    }
}

#[test]
fn highfleet_worked_example_matches_the_bundle_entry() {
    let lock = lock("abc", HIGHFLEET_YAML);
    let manifest = vec![("HighFleet".to_string(), highfleet_entry())];
    let rows = vec![row("HighFleet", "Exit to main menu before saving.", "Keep")];
    let games = csv(&rows);
    let inputs = Inputs { games_csv: &games, addendum_yaml: "{}\n", manifest_yaml: HIGHFLEET_YAML, lock: &lock };
    let output = build(&inputs, &Ok(Vec::new()), &Ok(manifest.clone())).unwrap();
    assert_eq!(output.bundle.games.len(), 1);
    let game = &output.bundle.games[0];
    assert_eq!(game.id, "steam-1434950");
    assert_eq!(game.name, "HighFleet");
    assert_eq!(game.info, "Exit to main menu before saving.");
    assert_eq!(game.executables, vec![(Platform::Windows, vec!["Highfleet.exe".to_string()])]);
    assert_eq!(
        game.save.iter().map(|c| c.dir.as_str()).collect::<Vec<_>>(),
        vec!["{INSTALL_DIR}/Saves", "{INSTALL_DIR}/SavesSkirmish", "{INSTALL_DIR}/Ships"]
    );
    assert_eq!(output.bundle.source.revision, "abc");
}

#[test]
fn addendum_fills_a_manifest_gap_and_info_comes_from_games_csv() {
    let manifest_yaml = "---\n{}";
    let lock = lock("abc", manifest_yaml);
    let addenda = vec![("Void War".to_string(), void_war_addendum())];
    let rows = vec![row("Void War", "Games info.", "Keep")];
    let games = csv(&rows);
    let inputs = Inputs { games_csv: &games, addendum_yaml: "", manifest_yaml, lock: &lock };
    let output = build(&inputs, &Ok(addenda.clone()), &Ok(Vec::new())).unwrap();
    let game = &output.bundle.games[0];
    assert_eq!(game.id, "steam-2853590");
    assert_eq!(game.info, "Games info.");
    assert_eq!(game.save[0].dir, "{APPDATA}/Void_War");
}

#[test]
fn manifest_precedence_shadows_the_addendum_with_a_warning() {
    let manifest_yaml = "Void War manifest text";
    let lock = lock("abc", manifest_yaml);
    let manifest = vec![(
        "Void War".to_string(),
        Entry {
            steam: Some(SteamField { id: 2853590 }),
            files: Some(vec![("<base>/saves".to_string(), file("save", cond(Some("windows"), None)))]),
            ..Entry::default()
        },
    )];
    let addenda = vec![(
        "Void War".to_string(),
        AddendumEntry { save: vec![windows_save("{APPDATA}/Void_War")], ..AddendumEntry::default() },
    )];
    let rows = vec![row("Void War", "Info", "Keep")];
    let games = csv(&rows);
    let inputs = Inputs { games_csv: &games, addendum_yaml: "", manifest_yaml, lock: &lock };
    let output = build(&inputs, &Ok(addenda.clone()), &Ok(manifest.clone())).unwrap();
    assert_eq!(output.bundle.games[0].save[0].dir, "{INSTALL_DIR}/saves");
    assert!(
        output.report.warnings.iter().any(|warning| warning.contains("shadowed")),
        "{:?}",
        output.report.warnings
    );
}

#[test]
fn hard_failures_stop_the_build() {
    let manifest_yaml = "---\n{}";
    let lock = lock("abc", manifest_yaml);
    let rows = vec![row("Missing Game", "Info", "Keep")];
    let games = csv(&rows);
    let inputs = Inputs { games_csv: &games, addendum_yaml: "{}\n", manifest_yaml, lock: &lock };
    let error = build(&inputs, &Ok(Vec::new()), &Ok(Vec::new())).unwrap_err();
    match error {
        BuildError::Failed { report } => {
            assert!(report.errors.iter().any(|error| error.contains("no addendum entry")), "{:?}", report.errors);
        }
        other => panic!("{other:?}"),
    }
}

#[test]
fn hash_mismatch_is_rejected() {
    let manifest_yaml = "---\n{}";
    let mut lock = lock("abc", manifest_yaml);
    lock.sha256 = "00".repeat(32);
    let rows = vec![row("A", "", "Keep")];
    let games = csv(&rows);
    let inputs = Inputs { games_csv: &games, addendum_yaml: "{}\n", manifest_yaml, lock: &lock };
    let error = build(&inputs, &Ok(Vec::new()), &Ok(Vec::new())).unwrap_err();
    assert!(matches!(error, BuildError::Hash { .. }));
}

#[test]
fn byte_identical_regeneration() {
    let manifest_yaml = "---\n{}";
    let lock = lock("abc", manifest_yaml);
    let addenda = vec![("Void War".to_string(), void_war_addendum())];
    let rows = vec![row("Void War", "Info", "Keep")];
    let games = csv(&rows);
    let inputs = Inputs { games_csv: &games, addendum_yaml: "", manifest_yaml, lock: &lock };
    let build_once = || format!("{:?}", build(&inputs, &Ok(addenda.clone()), &Ok(Vec::new())).unwrap().bundle);
    assert_eq!(build_once(), build_once());
}

#[test]
fn warnings_cover_orphan_addendum_entries() {
    let manifest_yaml = "One Step from Eden manifest text";
    let lock = lock("abc", manifest_yaml);
    let manifest = vec![(
        "One Step from Eden".to_string(),
        Entry {
            steam: Some(SteamField { id: 960690 }),
            files: Some(vec![("<base>/save".to_string(), file("save", cond(Some("windows"), None)))]),
            ..Entry::default()
        },
    )];
    let addenda = vec![(
        "Ghost".to_string(),
        AddendumEntry {
            save: vec![SaveCandidate { when: None, dir: "{APPDATA}/Ghost".to_string() }],
            ..AddendumEntry::default()
        },
    )];
    let rows = vec![row("One Step from Eden", "Info", "Keep")];
    let games = csv(&rows);
    let inputs = Inputs { games_csv: &games, addendum_yaml: "", manifest_yaml, lock: &lock };
    let output = build(&inputs, &Ok(addenda.clone()), &Ok(manifest.clone())).unwrap();
    assert!(
        output.report.warnings.iter().any(|warning| warning.contains("no matching Keep row")),
        "{:?}",
        output.report.warnings
    );
}

#[test]
fn lenient_builds_leave_unbuildable_games_out_with_a_warning() {
    let manifest_yaml = "---\n{}";
    let lock = lock("abc", manifest_yaml);
    let addenda = vec![("Void War".to_string(), void_war_addendum())];
    let rows = vec![row("Missing Game", "", "Keep"), row("Void War", "", "Keep"), row("Gone", "", "Remove")];
    let games = csv(&rows);
    let inputs = Inputs { games_csv: &games, addendum_yaml: "", manifest_yaml, lock: &lock };
    let output = build_lenient(&inputs, &Ok(addenda.clone()), &Ok(Vec::new())).unwrap();
    assert_eq!(output.bundle.games.len(), 1);
    assert_eq!(output.report.games, 1);
    assert!(output.report.warnings.iter().any(|w| w.starts_with("Missing Game: unresolved")), "{:?}", output.report.warnings);
    assert!(matches!(build(&inputs, &Ok(addenda.clone()), &Ok(Vec::new())), Err(BuildError::Failed { .. })));
}

#[test]
fn games_come_out_sorted_by_id() {
    let addenda = vec![
        ("Zeta".to_string(), AddendumEntry { id: Some("a-custom".to_string()), save: vec![windows_save("{APPDATA}/Z")], ..AddendumEntry::default() }),
        ("Void War".to_string(), void_war_addendum()),
    ];
    let rows = vec![row("Void War", "", "Keep"), row("Zeta", "", "keep ")];
    let games = csv(&rows);
    let lock = lock("r", "");
    let output = build_parsed(&rows, &addenda, &Vec::new(), &lock, false).unwrap();
    let ids: Vec<&str> = output.bundle.games.iter().map(|g| g.id.as_str()).collect();
    assert_eq!(ids, vec!["a-custom", "steam-2853590"]);
}

#[test]
fn the_manifest_hash_is_checked_against_the_lock() {
    let text = "abc";
    let good = lock("r", text);
    assert!(check_manifest_hash(text, &good).is_ok());
    assert_eq!(good.sha256, "ba7816bf8f01cfea414140de5dae2223b00361a396177a9cb410ff61f20015ad");
    let bad = Lock { sha256: "00".repeat(32), ..good.clone() };
    match check_manifest_hash(text, &bad) {
        Err(BuildError::Hash { expected, actual }) => {
            assert_eq!(expected, "00".repeat(32));
            assert_eq!(actual, good.sha256);
        }
        other => panic!("{other:?}"),
    }
    let error = check_manifest_hash(text, &bad).unwrap_err();
    assert_eq!(
        error.message(),
        format!("manifest sha256 mismatch: lock expects {}, input is {}", "00".repeat(32), good.sha256)
    );
}

#[test]
fn locks_need_every_field_and_keep_the_digest_lowercase() {
    let s = |v: &str| Some(v.to_string());
    assert_eq!(Lock::from_parts(None, s("r"), s("x")).unwrap_err(), "manifest.lock is missing repo");
    assert_eq!(Lock::from_parts(s("a"), None, s("x")).unwrap_err(), "manifest.lock is missing revision");
    assert_eq!(Lock::from_parts(s("a"), s("r"), None).unwrap_err(), "manifest.lock is missing sha256");
    let lock = Lock::from_parts(s("a"), s("r"), s("ABcd")).unwrap();
    assert_eq!(lock.sha256, "abcd");
}

#[test]
fn report_and_addendum_helpers() {
    let mut report = BuildReport::default();
    assert!(report.is_clean());
    report.warn("w".to_string());
    assert!(report.is_clean());
    report.error("e".to_string());
    assert!(!report.is_clean());
    assert_eq!(BuildError::Failed { report }.message(), "catalog build failed with 1 error(s)");
    assert!(!addendum_has_data(&AddendumEntry::default()));
    assert!(addendum_has_data(&void_war_addendum()));
    let save = vec![windows_save("{APPDATA}/G")];
    assert!(covers_os(&save, Platform::Windows));
    assert!(!covers_os(&save, Platform::Linux));
    let any = vec![SaveCandidate { when: None, dir: "{HOME}/G".to_string() }];
    assert!(covers_os(&any, Platform::Linux));
}

#[test]
fn the_addendum_fills_only_operating_systems_the_manifest_lacks() {
    let manifest_save = vec![windows_save("{INSTALL_DIR}/saves")];
    let addendum = AddendumEntry {
        save: vec![
            windows_save("{APPDATA}/Void_War"),
            SaveCandidate {
                when: Some(When { os: Some(Platform::Linux), store: None }),
                dir: "{XDG_DATA_HOME}/Void_War".to_string(),
            },
        ],
        ..AddendumEntry::default()
    };
    let merged = overlay_save(manifest_save.clone(), Some(&addendum));
    let dirs: Vec<&str> = merged.iter().map(|c| c.dir.as_str()).collect();
    assert!(dirs.contains(&"{INSTALL_DIR}/saves"));
    assert!(dirs.contains(&"{XDG_DATA_HOME}/Void_War"));
    assert!(!dirs.contains(&"{APPDATA}/Void_War"));
    assert_eq!(overlay_save(manifest_save.clone(), None), manifest_save);
}
