use savescummer_catalog::model::{
    parse_platform, parse_store, Bundle, BundleError, Detect, Game, IdList, Platform, SaveCandidate, Source, Store,
    When, SCHEMA,
};

fn game(id: &str, name: &str, save: &[&str]) -> Game {
    Game {
        id: id.into(),
        name: name.into(),
        info: String::new(),
        detect: None,
        executables: vec![],
        save: save.iter().map(|dir| SaveCandidate { when: None, dir: dir.to_string() }).collect(),
    }
}

fn bundle(schema: u32, games: Vec<Game>) -> Bundle {
    Bundle { schema, source: Source { repo: "r".into(), revision: "v".into() }, games }
}

#[test]
fn rejects_unknown_schema_placeholders_and_duplicates() {
    let mut escaping = game("a", "G", &[]);
    escaping.executables = vec![(Platform::Windows, vec!["../escape.exe".to_string()])];
    let errors = [
        bundle(2, vec![]),
        bundle(1, vec![game("a", "G", &["{UNKNOWN}/x"])]),
        bundle(1, vec![game("a", "G", &["relative/path"])]),
        bundle(1, vec![game("a", "G", &[]), game("a", "H", &[])]),
        bundle(1, vec![escaping]),
    ];
    for b in &errors {
        assert!(b.validate().is_err(), "accepted {b:?}");
    }
    match bundle(2, vec![]).validate() {
        Err(BundleError::Schema { found, supported }) => {
            assert_eq!(found, 2);
            assert_eq!(supported, SCHEMA);
        }
        other => panic!("{other:?}"),
    }
}

#[test]
fn accepts_literal_absolute_save_dirs() {
    let b = bundle(1, vec![game("a", "G", &["/var/games/nethack/save"])]);
    assert!(b.validate().is_ok());
    assert_eq!(b.games[0].save[0].dir, "/var/games/nethack/save");
}

#[test]
fn ids_lists_and_lookups() {
    let mut g = game("steam-1434950", "HighFleet", &["{INSTALL_DIR}/Saves"]);
    g.detect = Some(Detect { steam: Some(IdList::one(1434950)), gog: Some(IdList(vec![1589167087, 2])) });
    let b = bundle(1, vec![g]);
    assert!(b.validate().is_ok());
    let found = b.game("steam-1434950").unwrap();
    assert_eq!(found.steam_ids(), &[1434950]);
    assert_eq!(found.gog_ids(), &[1589167087, 2]);
    assert!(b.game("steam-1").is_none());
    assert_eq!(IdList(vec![]).first(), None);
    assert!(IdList(vec![]).is_empty());
    assert!(Detect::default().is_empty());
}

#[test]
fn conditions_apply_to_matching_builds_only() {
    let when = When { os: Some(Platform::Windows), store: None };
    assert!(when.applies(Platform::Windows, Store::Gog));
    assert!(!when.applies(Platform::Linux, Store::Gog));
    assert!(When { os: None, store: None }.is_any());
    assert!(!When { os: None, store: Some(Store::Steam) }.applies(Platform::Windows, Store::Epic));
}

#[test]
fn platform_and_store_names_round_trip() {
    assert_eq!(parse_platform("mac").unwrap(), Platform::Macos);
    assert_eq!(parse_platform("macos").unwrap().as_str(), "macos");
    assert_eq!(parse_platform("dos").unwrap_err().message(), "unknown platform \"dos\"");
    assert_eq!(parse_store("standalone").unwrap(), Store::Standalone);
    assert_eq!(parse_store("origin").unwrap_err().message(), "unknown store \"origin\"");
    assert_eq!(Store::Gog.as_str(), "gog");
}

#[test]
fn validation_messages_name_the_game_and_the_problem() {
    let b = Bundle { schema: 1, source: Source { repo: "  ".into(), revision: "v".into() }, games: vec![] };
    assert_eq!(b.validate().unwrap_err().message(), "invalid bundle: source repo must not be empty");
    let b = bundle(1, vec![game("a", "  ", &[])]);
    assert!(b.validate().unwrap_err().message().starts_with("invalid bundle: "));
    assert_eq!(
        BundleError::Schema { found: 3, supported: 1 }.message(),
        "unsupported bundle schema 3; this build understands schema 1"
    );
}
