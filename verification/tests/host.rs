use savescummer_catalog::host::{
    cursor, is_icon_name, missing_marker, path_text, reply_for, rotates, steam_candidates, Backoff, Kind,
    OnOff, Options, Reply, Request, Shown, MAX_LOG_BYTES, RETRY_FIRST, RETRY_MAX,
};
use savescummer_catalog::host::{next_position, page_limit, read_position, PositionError};
use savescummer_catalog::host::CachedPaths;
use savescummer_catalog::host::{availability, hotkey_target, phase_refusal, request_refusal, ErrorKind, GameFacts, Phase, UiReport};
use savescummer_catalog::host::{judge, unavailable_reason, Presence, Verdict};
use savescummer_catalog::host::{focus_scan, installed_after_scan};
use savescummer_catalog::host::{row_actions, row_checkpoints, row_label, RowActions};
use savescummer_catalog::cli::RowKind;
use savescummer_catalog::host::{move_refusal, named_refusal, restore_refusal, save_refusal, store_refusal};
use savescummer_catalog::host::{install_changes, InstallState};
use savescummer_catalog::host::{flush_kind, flush_page, FlushItem};
use savescummer_catalog::text::parse_usize;
use savescummer_catalog::host::{find_game, GameKey};
use savescummer_catalog::model::Store;

fn wait_of(backoff: &Backoff, key: (u64, Kind)) -> Option<(u64, u64)> {
    backoff.next.iter().find(|(k, _)| *k == key).map(|(_, v)| *v)
}

#[test]
fn icons_are_the_hash_named_images() {
    assert!(is_icon_name("33ea124ea8c03a9ce7012d34c3b348a351612fca.jpg"));
    assert!(!is_icon_name("header.jpg"));
    assert!(!is_icon_name("33ea124ea8c03a9ce7012d34c3b348a351612fca.png"));
}

#[test]
fn icon_names_need_forty_hex_digits() {
    assert!(is_icon_name("33EA124EA8C03A9CE7012D34C3B348A351612FCA.jpg"));
    assert!(!is_icon_name("33ea124ea8c03a9ce7012d34c3b348a351612fc.jpg"));
    assert!(!is_icon_name("33ea124ea8c03a9ce7012d34c3b348a351612fcaa.jpg"));
    assert!(!is_icon_name("g3ea124ea8c03a9ce7012d34c3b348a351612fca.jpg"));
    assert!(!is_icon_name(".jpg"));
}

#[test]
fn backoff_doubles_up_to_a_cap() {
    let mut backoff = Backoff::default();
    let key = (1, Kind::Hero);
    assert!(!backoff.waiting(key, 0));
    backoff.failed(key, 0);
    assert!(backoff.waiting(key, 0));
    for _ in 0..20 {
        backoff.failed(key, 0);
    }
    assert_eq!(wait_of(&backoff, key).unwrap().1, RETRY_MAX);
    backoff.succeeded(key);
    assert!(!backoff.waiting(key, 0));
}

#[test]
fn backoff_waits_double_and_keys_are_independent() {
    let mut backoff = Backoff::default();
    let hero = (7, Kind::Hero);
    let logo = (7, Kind::Logo);
    backoff.failed(hero, 1000);
    assert_eq!(wait_of(&backoff, hero), Some((1000 + RETRY_FIRST, RETRY_FIRST)));
    backoff.failed(hero, 2000);
    assert_eq!(wait_of(&backoff, hero), Some((2000 + 2 * RETRY_FIRST, 2 * RETRY_FIRST)));
    assert!(backoff.waiting(hero, 2000 + 2 * RETRY_FIRST - 1));
    assert!(!backoff.waiting(hero, 2000 + 2 * RETRY_FIRST));
    assert!(!backoff.waiting(logo, 2000));
    backoff.failed(logo, 0);
    backoff.succeeded(hero);
    assert_eq!(wait_of(&backoff, hero), None);
    assert_eq!(wait_of(&backoff, logo), Some((RETRY_FIRST, RETRY_FIRST)));
}

#[test]
fn backoff_saturates_at_the_end_of_the_clock() {
    let mut backoff = Backoff::default();
    let key = (2, Kind::Icon);
    backoff.failed(key, u64::MAX - 1);
    assert_eq!(wait_of(&backoff, key), Some((u64::MAX, RETRY_FIRST)));
}

#[test]
fn kinds_name_their_cached_files() {
    assert_eq!(Kind::Hero.cached_name(), "hero.jpg");
    assert_eq!(Kind::Icon.cached_name(), "icon.png");
    assert_eq!(missing_marker("C:/cache/10", Kind::Logo), "C:/cache/10/logo.png.missing");
}

#[test]
fn small_host_values() {
    assert_eq!(Shown::Front.as_str(), "front");
    assert_eq!(Shown::Unavailable.as_str(), "unavailable");
    assert_eq!(Request::Flush.kind(), "flush");
    assert_eq!(Request::Save { label: None }.kind(), "save");
    assert_eq!(Request::Revert { checkpoint: "c".to_string() }.kind(), "revert");
    assert_eq!(cursor("inst", "game", 3, -1), "inst|game|3|-1");
    assert_eq!(cursor("a", "b", 0, 42), "a|b|0|42");
    assert_eq!(path_text("D:/Games/G"), "D:/Games/G");
    assert!(OnOff::On.value());
    assert!(!OnOff::Off.value());
}

#[test]
fn steam_local_finds_every_layout() {
    let cache = "/steam/appcache/librarycache";
    let files: Vec<String> = vec![
        format!("{cache}/10/logo.png"),
        format!("{cache}/10/0123456789abcdef0123456789abcdef01234567.jpg"),
        format!("{cache}/20/98878a81ca9047352403db7e19e3942239ea8bf1/library_hero.jpg"),
        format!("{cache}/20/7f6e572bde792b139018cae5a361d91d5e1ad812/library_header.jpg"),
        format!("{cache}/30_library_hero.jpg"),
    ];
    let listing = |app: u64| -> Vec<(String, bool)> {
        match app {
            10 => vec![
                ("logo.png".to_string(), false),
                ("0123456789abcdef0123456789abcdef01234567.jpg".to_string(), false),
            ],
            20 => vec![
                ("98878a81ca9047352403db7e19e3942239ea8bf1".to_string(), true),
                ("7f6e572bde792b139018cae5a361d91d5e1ad812".to_string(), true),
            ],
            _ => vec![],
        }
    };
    let found = |app: u64, kind: Kind| {
        steam_candidates("/steam", app, kind, listing(app)).iter().any(|c| files.contains(c))
    };
    assert!(found(10, Kind::Logo) && found(10, Kind::Icon) && !found(10, Kind::Hero));
    assert!(found(20, Kind::Hero) && found(20, Kind::Header) && !found(20, Kind::Icon));
    assert!(found(30, Kind::Hero));
}

#[test]
fn steam_candidates_come_in_their_order() {
    let entries = vec![("b".to_string(), true), ("a".to_string(), true), ("x.txt".to_string(), false)];
    assert_eq!(
        steam_candidates("/s", 7, Kind::Header, entries),
        vec![
            "/s/appcache/librarycache/7/header.jpg",
            "/s/appcache/librarycache/7/library_header.jpg",
            "/s/appcache/librarycache/7/a/header.jpg",
            "/s/appcache/librarycache/7/a/library_header.jpg",
            "/s/appcache/librarycache/7/b/header.jpg",
            "/s/appcache/librarycache/7/b/library_header.jpg",
            "/s/appcache/librarycache/7_header.jpg",
        ]
    );
}

#[test]
fn http_statuses_and_log_lines() {
    assert_eq!(reply_for("u", 304), Ok(Reply::NotModified));
    assert_eq!(reply_for("u", 404), Ok(Reply::Missing));
    assert_eq!(reply_for("u", 410), Ok(Reply::Missing));
    assert_eq!(reply_for("u", 200), Ok(Reply::Body));
    assert_eq!(reply_for("u", 500), Err("u: HTTP 500".to_string()));
    assert_eq!(savescummer_catalog::host::line("2024-01-01T00:00:00.000Z", "first scan"), "[2024-01-01T00:00:00.000Z] first scan\n");
    assert!(!rotates(MAX_LOG_BYTES));
    assert!(rotates(MAX_LOG_BYTES + 1));
    let options = Options::default();
    assert_eq!(options.poll_ms, 250);
    assert_eq!(options.scan_interval_secs, 900);
    assert!(options.data_dir.is_none() && !options.demo);
}

#[test]
fn kinds_know_their_sizes_and_names() {
    assert_eq!(Kind::Hero.max_size(), (1280, 414));
    assert_eq!(Kind::Icon.max_size(), (64, 64));
    assert_eq!(Kind::Header.steam_names(), vec!["header.jpg", "library_header.jpg"]);
    assert!(Kind::Icon.steam_names().is_empty());
    assert_eq!(Kind::Icon.flat_suffix(), "icon.jpg");
    assert_eq!(Kind::Logo.cdn_name(), Some("logo.png"));
    assert_eq!(Kind::Icon.cdn_name(), None);
}

#[test]
fn history_positions_are_read_back_and_stale_ones_refused() {
    let position = cursor("inst", "steam-1", 4, -17);
    assert_eq!(read_position(Some(&position), "inst", "steam-1", 4), Ok(Some(-17)));
    assert_eq!(read_position(Some(&cursor("inst", "steam-1", 4, 9_000)), "inst", "steam-1", 4), Ok(Some(9_000)));
    assert_eq!(read_position(Some(&position), "inst", "steam-1", 5), Err(PositionError::Changed));
    assert_eq!(read_position(Some(&position), "other", "steam-1", 4), Err(PositionError::Changed));
    assert_eq!(read_position(Some("inst|steam-1|4"), "inst", "steam-1", 4), Err(PositionError::Changed));
    assert_eq!(read_position(Some("inst|steam-1|4|x1"), "inst", "steam-1", 4), Err(PositionError::Bad));
    assert_eq!(read_position(Some("inst|steam-1|4|+12"), "inst", "steam-1", 4), Ok(Some(12)));
    assert_eq!(read_position(Some("inst|steam-1|4|-"), "inst", "steam-1", 4), Err(PositionError::Bad));
    assert_eq!(
        read_position(Some("inst|steam-1|4|9223372036854775808"), "inst", "steam-1", 4),
        Err(PositionError::Bad)
    );
    assert_eq!(
        read_position(Some("inst|steam-1|4|-9223372036854775808"), "inst", "steam-1", 4),
        Ok(Some(i64::MIN))
    );
    assert_eq!(read_position(None, "inst", "steam-1", 4), Ok(None));
    assert_eq!(PositionError::Bad.message(), "bad page position");
}

#[test]
fn pages_are_between_one_row_and_the_largest_page() {
    assert_eq!(page_limit(None), 50);
    assert_eq!(page_limit(Some(0)), 1);
    assert_eq!(page_limit(Some(20)), 20);
    assert_eq!(page_limit(Some(10_000)), 500);
    assert_eq!(next_position(true, Some(7), "i", "g", 1).as_deref(), Some("i|g|1|7"));
    assert_eq!(next_position(false, Some(7), "i", "g", 1), None);
    assert_eq!(next_position(true, None, "i", "g", 1), None);
}

#[test]
fn real_paths_are_looked_up_once() {
    let mut paths = CachedPaths::new(true);
    assert!(paths.case_insensitive());
    assert_eq!(paths.cached("/home/a/saves"), None);
    paths.remember("/home/a/saves", Ok("/home/a/Saves".to_string()));
    paths.remember("/missing", Err("not found".to_string()));
    assert_eq!(paths.cached("/home/a/saves"), Some(Ok("/home/a/Saves".to_string())));
    assert_eq!(paths.cached("/missing"), Some(Err("not found".to_string())));
    assert_eq!(paths.cached("/other"), None);
    paths.remember("/missing", Ok("/found".to_string()));
    assert_eq!(paths.cached("/missing"), Some(Ok("/found".to_string())));
    assert!(!CachedPaths::new(false).case_insensitive());
}

fn ready_facts() -> GameFacts {
    GameFacts {
        active: Ok(false),
        store_available: true,
        store_moving: false,
        blocked: false,
        busy: false,
        has_data: true,
        has_latest: true,
    }
}

#[test]
fn save_and_load_are_available_when_nothing_stands_in_the_way() {
    assert_eq!(availability(&ready_facts()), (None, None));
    let fresh = GameFacts { has_data: false, has_latest: false, ..ready_facts() };
    assert_eq!(availability(&fresh), (Some(ErrorKind::NoGameData), Some(ErrorKind::NoSaves)));
}

#[test]
fn a_common_reason_refuses_save_and_load_alike() {
    let busy = GameFacts { busy: true, has_data: false, ..ready_facts() };
    assert_eq!(availability(&busy), (Some(ErrorKind::Busy), Some(ErrorKind::Busy)));
    let moving = GameFacts { store_moving: true, blocked: true, ..ready_facts() };
    assert_eq!(availability(&moving), (Some(ErrorKind::Busy), Some(ErrorKind::Busy)));
    let away = GameFacts { store_available: false, store_moving: true, ..ready_facts() };
    assert_eq!(availability(&away), (Some(ErrorKind::StoreUnavailable), Some(ErrorKind::StoreUnavailable)));
    let blocked = GameFacts { blocked: true, busy: true, ..ready_facts() };
    assert_eq!(availability(&blocked), (Some(ErrorKind::Blocked), Some(ErrorKind::Blocked)));
    let unreadable = GameFacts { active: Ok(true), ..ready_facts() };
    assert_eq!(availability(&unreadable), (Some(ErrorKind::TargetUnavailable), Some(ErrorKind::TargetUnavailable)));
}

#[test]
fn a_target_failure_keeps_location_and_access_reasons() {
    let none = GameFacts { active: Err(ErrorKind::NoSaveLocation), ..ready_facts() };
    assert_eq!(availability(&none), (Some(ErrorKind::NoSaveLocation), Some(ErrorKind::NoSaveLocation)));
    let access = GameFacts { active: Err(ErrorKind::AccessNeeded), ..ready_facts() };
    assert_eq!(availability(&access), (Some(ErrorKind::AccessNeeded), Some(ErrorKind::AccessNeeded)));
    let other = GameFacts { active: Err(ErrorKind::Busy), ..ready_facts() };
    assert_eq!(availability(&other), (Some(ErrorKind::InvalidTarget), Some(ErrorKind::InvalidTarget)));
}

#[test]
fn requests_wait_for_a_ready_host() {
    assert_eq!(phase_refusal(Phase::Starting), Some((ErrorKind::Starting, "the host is still starting")));
    assert_eq!(phase_refusal(Phase::ShuttingDown), Some((ErrorKind::ShuttingDown, "the host is shutting down")));
    assert_eq!(phase_refusal(Phase::Ready), None);
}

#[test]
fn one_operation_per_game_but_deletes_side_by_side() {
    let save = Request::Save { label: None };
    let delete = Request::Delete { checkpoint: "c1".to_string() };
    assert_eq!(request_refusal(false, false, &save, false, false), None);
    assert_eq!(
        request_refusal(false, false, &save, false, true),
        Some((ErrorKind::Busy, "another operation runs for this game"))
    );
    assert_eq!(request_refusal(false, false, &delete, false, true), None);
    assert_eq!(
        request_refusal(false, false, &delete, true, false),
        Some((ErrorKind::InvalidRequest, "this checkpoint is already being deleted"))
    );
    assert_eq!(
        request_refusal(false, true, &delete, false, false),
        Some((ErrorKind::Blocked, "the game waits on an interrupted operation"))
    );
    assert_eq!(
        request_refusal(true, true, &Request::Flush, false, true),
        Some((ErrorKind::Busy, "the checkpoint store is being moved"))
    );
}

#[test]
fn hotkeys_follow_the_focused_window_then_the_stack() {
    let focused = UiReport { focused: true, visible: true, selected: Some("steam-1".to_string()) };
    assert_eq!(hotkey_target(&focused, true, Some("gog-2")), Some(("steam-1".to_string(), "window")));
    assert_eq!(hotkey_target(&focused, false, Some("gog-2")), Some(("gog-2".to_string(), "stack")));
    let unfocused = UiReport { focused: false, ..focused.clone() };
    assert_eq!(hotkey_target(&unfocused, true, Some("gog-2")), Some(("gog-2".to_string(), "stack")));
    assert_eq!(hotkey_target(&unfocused, true, None), None);
}

fn read(hash: &str, identity: Option<&str>) -> Option<(String, Option<String>)> {
    Some((hash.to_string(), identity.map(str::to_string)))
}

#[test]
fn a_checkpoint_folder_is_judged_by_presence_hash_and_identity() {
    let sig = "abc".to_string();
    let id = Some("ino-1".to_string());
    assert_eq!(judge(Presence::Missing, &None, &sig, &id), Verdict::Gone);
    assert_eq!(judge(Presence::Unknown, &read("abc", None), &sig, &id), Verdict::Unknown);
    assert_eq!(judge(Presence::Present, &None, &sig, &id), Verdict::Unknown);
    assert_eq!(judge(Presence::Present, &read("abc", Some("ino-1")), &sig, &id), Verdict::Same);
    assert_eq!(judge(Presence::Present, &read("abc", None), &sig, &id), Verdict::Same);
    assert_eq!(judge(Presence::Present, &read("abc", Some("ino-2")), &sig, &None), Verdict::Same);
    assert_eq!(judge(Presence::Present, &read("abc", Some("ino-2")), &sig, &id), Verdict::Changed);
    assert_eq!(judge(Presence::Present, &read("abd", Some("ino-1")), &sig, &id), Verdict::Changed);
}

#[test]
fn an_unavailable_checkpoint_says_why() {
    assert_eq!(unavailable_reason(false, "unavailable", false), Some(ErrorKind::StoreUnavailable));
    assert_eq!(unavailable_reason(true, "unavailable", false), Some(ErrorKind::CheckpointUnreadable));
    assert_eq!(unavailable_reason(true, "ok", false), Some(ErrorKind::DifferentSaveSet));
    assert_eq!(unavailable_reason(true, "ok", true), None);
}

fn install(id: &str, name: &str, installed: bool, first: Option<(Store, &str)>, exe: Option<&str>) -> InstallState {
    InstallState {
        id: id.to_string(),
        name: name.to_string(),
        installed,
        first_install: first.map(|(s, d)| (s, d.to_string())),
        executable: exe.map(str::to_string),
    }
}

#[test]
fn install_changes_are_logged_in_order() {
    let games = vec![
        install("steam-2", "Beta", true, Some((Store::Steam, "/games/beta")), None),
        install("gog-1", "Alpha", false, None, None),
        install("custom-3", "Gamma", true, None, Some("/opt/gamma/run")),
        install("steam-4", "Delta", true, Some((Store::Gog, "/g/d")), None),
    ];
    let before = vec![
        ("gog-1".to_string(), true),
        ("custom-3".to_string(), false),
        ("steam-4".to_string(), true),
    ];
    assert_eq!(
        install_changes(&games, &before),
        vec![
            "installed again: Gamma (custom-3) at /opt/gamma/run".to_string(),
            "installed: Beta (steam-2) at Steam, /games/beta".to_string(),
            "uninstalled: Alpha (gog-1); its history and checkpoints are kept".to_string(),
        ]
    );
}

fn item(path: &str, kind: &str) -> FlushItem {
    FlushItem { path: path.to_string(), kind: kind.to_string(), label: None }
}

#[test]
fn a_flush_preview_counts_everything_and_pages_the_items() {
    assert_eq!(flush_kind("deleting", "saved"), "temporary");
    assert_eq!(flush_kind("ok", "recovery"), "recovery");
    let items = vec![
        item("/s/a", "saved"),
        item("/s/b", "recovery"),
        item("/s/c", "saved"),
        item("/s/.tmp", "temporary"),
        item("/s/d", "saved"),
    ];
    let first = flush_page(&items, 1234, None, Some(2));
    assert_eq!((first.saved, first.recovery, first.temporary, first.size), (3, 1, 1, 1234));
    assert_eq!(first.items.iter().map(|i| i.path.as_str()).collect::<Vec<_>>(), vec!["/s/a", "/s/b"]);
    assert_eq!(first.next, Some("2".to_string()));
    let last = flush_page(&items, 1234, Some("4"), Some(2));
    assert_eq!(last.items.iter().map(|i| i.path.as_str()).collect::<Vec<_>>(), vec!["/s/d"]);
    assert_eq!(last.next, None);
    let past = flush_page(&items, 0, Some("9"), None);
    assert!(past.items.is_empty());
    let junk = flush_page(&items, 0, Some("x"), Some(0));
    assert_eq!(junk.items.len(), 1);
    assert_eq!(junk.next, Some("1".to_string()));
}

#[test]
fn positions_parse_like_unsigned_numbers() {
    let p = |s: &str| parse_usize(&s.chars().collect::<Vec<_>>());
    assert_eq!(p("42"), Some(42));
    assert_eq!(p("+7"), Some(7));
    assert_eq!(p("-1"), None);
    assert_eq!(p(""), None);
    assert_eq!(p("+"), None);
    assert_eq!(p("1x"), None);
    assert_eq!(p("18446744073709551615"), Some(usize::MAX));
    assert_eq!(p("18446744073709551616"), None);
}

fn key(id: &str, name: &str, installed: bool, catalog: Option<&str>) -> GameKey {
    GameKey { id: id.to_string(), name: name.to_string(), installed, catalog_id: catalog.map(str::to_string) }
}

#[test]
fn a_selector_finds_one_game_by_id_name_or_catalog_id() {
    let games = vec![
        key("steam-1@a", "Hades", true, Some("steam-1")),
        key("steam-1@b", "Hades", true, Some("steam-1")),
        key("gog-2", "Celeste", true, Some("gog-2")),
        key("custom-3", "Old Game", false, None),
    ];
    assert_eq!(find_game(&games, "custom-3"), Ok("custom-3".to_string()));
    assert_eq!(find_game(&games, "celeste"), Ok("gog-2".to_string()));
    assert_eq!(find_game(&games, "old game"), Err((ErrorKind::NotFound, "no game \"old game\"".to_string())));
    assert_eq!(
        find_game(&games, "steam-1"),
        Err((ErrorKind::InvalidRequest, "\"steam-1\" matches several games: steam-1@a, steam-1@b".to_string()))
    );
}

#[test]
fn every_operation_first_needs_the_store() {
    assert_eq!(
        store_refusal(Some("documents"), false),
        Some((ErrorKind::AccessNeeded, "documents".to_string()))
    );
    assert_eq!(
        store_refusal(None, false),
        Some((ErrorKind::StoreUnavailable, "the checkpoint store can't be reached".to_string()))
    );
    assert_eq!(store_refusal(None, true), None);
}

#[test]
fn a_save_needs_readable_locations_that_hold_data() {
    assert_eq!(save_refusal(true, false), Some((ErrorKind::TargetUnavailable, "the save location can't be read")));
    assert_eq!(save_refusal(false, false), Some((ErrorKind::NoGameData, "no save location matches anything yet")));
    assert_eq!(save_refusal(false, true), None);
}

#[test]
fn load_and_revert_take_only_their_own_kind_of_checkpoint() {
    let load = Request::Load { checkpoint: Some("c1".to_string()) };
    let revert = Request::Revert { checkpoint: "c1".to_string() };
    let delete = Request::Delete { checkpoint: "c1".to_string() };
    let gone = Some((ErrorKind::CheckpointChanged, "the checkpoint no longer exists"));
    assert_eq!(named_refusal(&load, None, true), gone);
    assert_eq!(named_refusal(&revert, None, true), gone);
    assert_eq!(named_refusal(&delete, None, true), gone);
    assert_eq!(
        named_refusal(&load, Some("recovery"), true),
        Some((ErrorKind::InvalidRequest, "Load restores saved checkpoints; use Revert"))
    );
    assert_eq!(
        named_refusal(&revert, Some("saved"), true),
        Some((ErrorKind::InvalidRequest, "Revert restores recovery checkpoints"))
    );
    assert_eq!(named_refusal(&load, Some("saved"), true), None);
    assert_eq!(named_refusal(&revert, Some("recovery"), true), None);
    assert_eq!(named_refusal(&delete, Some("recovery"), false), None);
    let latest = Request::Load { checkpoint: None };
    assert_eq!(named_refusal(&latest, None, false), Some((ErrorKind::NoSaves, "no saved checkpoint to load")));
    assert_eq!(named_refusal(&latest, None, true), None);
    assert_eq!(named_refusal(&Request::Flush, None, false), None);
    assert_eq!(named_refusal(&Request::Save { label: None }, None, false), None);
}

#[test]
fn a_restore_needs_a_readable_unchanged_checkpoint_for_these_locations() {
    assert_eq!(
        restore_refusal("unavailable", true, Verdict::Same),
        Some((ErrorKind::CheckpointUnreadable, "the checkpoint can't be read now"))
    );
    assert_eq!(
        restore_refusal("ok", false, Verdict::Same),
        Some((ErrorKind::DifferentSaveSet, "the checkpoint was made for other save locations"))
    );
    assert_eq!(
        restore_refusal("ok", true, Verdict::Unknown),
        Some((ErrorKind::CheckpointUnreadable, "the checkpoint can't be read"))
    );
    let changed = Some((ErrorKind::CheckpointChanged, "the checkpoint changed outside SaveScummer"));
    assert_eq!(restore_refusal("ok", true, Verdict::Changed), changed);
    assert_eq!(restore_refusal("ok", true, Verdict::Gone), changed);
    assert_eq!(restore_refusal("ok", true, Verdict::Same), None);
}

#[test]
fn the_store_moves_only_to_an_empty_separate_full_path_while_idle() {
    assert_eq!(
        move_refusal(false, Phase::Starting, true, false, true, false),
        Some((ErrorKind::InvalidConfig, "use a full path"))
    );
    assert_eq!(
        move_refusal(true, Phase::ShuttingDown, false, true, false, true),
        Some((ErrorKind::Starting, "the host isn't ready"))
    );
    assert_eq!(
        move_refusal(true, Phase::Ready, true, true, false, true),
        Some((ErrorKind::Busy, "operations are running"))
    );
    assert_eq!(
        move_refusal(true, Phase::Ready, false, false, false, true),
        Some((ErrorKind::StoreUnavailable, "the checkpoint store can't be reached"))
    );
    assert_eq!(
        move_refusal(true, Phase::Ready, false, true, true, true),
        Some((ErrorKind::InvalidConfig, "the new location can't be inside the old one, or contain it"))
    );
    assert_eq!(
        move_refusal(true, Phase::Ready, false, true, false, false),
        Some((ErrorKind::InvalidConfig, "the new location must be empty"))
    );
    assert_eq!(move_refusal(true, Phase::Ready, false, true, false, true), None);
}

#[test]
fn history_rows_offer_what_their_checkpoint_allows() {
    let all = |load, revert, delete| RowActions { load, revert, delete };
    assert_eq!(row_actions(RowKind::Saved, true, false, false, false, false, true), all(true, false, true));
    assert_eq!(row_actions(RowKind::Loaded, true, false, false, false, false, true), all(false, true, true));
    assert_eq!(row_actions(RowKind::Reverted, true, false, false, false, false, true), all(false, true, true));
    // An unusable checkpoint can still be deleted.
    assert_eq!(row_actions(RowKind::Saved, true, true, false, false, false, true), all(false, false, true));
    // A busy game or unknown save locations stop loading, not deleting.
    assert_eq!(row_actions(RowKind::Saved, true, false, false, false, true, true), all(false, false, true));
    assert_eq!(row_actions(RowKind::Saved, true, false, false, false, false, false), all(false, false, true));
    // A blocked game stops both; a delete under way stops deleting.
    assert_eq!(row_actions(RowKind::Loaded, true, false, false, true, false, true), all(false, false, false));
    assert_eq!(row_actions(RowKind::Saved, true, false, true, false, false, true), all(true, false, false));
    // A gone checkpoint offers nothing; neither do other rows.
    assert_eq!(row_actions(RowKind::Saved, false, false, false, false, false, true), all(false, false, false));
    assert_eq!(row_actions(RowKind::GameStarted, true, false, false, false, false, true), all(false, false, false));
}

#[test]
fn history_rows_name_their_checkpoints_and_labels() {
    assert_eq!(
        row_checkpoints(RowKind::Saved, Some("c1"), Some("r1")),
        (Some("c1".to_string()), Some("c1".to_string()))
    );
    assert_eq!(
        row_checkpoints(RowKind::Loaded, Some("c1"), Some("r1")),
        (Some("r1".to_string()), Some("c1".to_string()))
    );
    assert_eq!(row_checkpoints(RowKind::GameClosed, Some("c1"), Some("r1")), (None, None));
    assert_eq!(
        row_label(RowKind::Loaded, Some("boss"), Some("2024-01-01")),
        (Some("boss".to_string()), Some("2024-01-01".to_string()))
    );
    assert_eq!(row_label(RowKind::Reverted, Some("boss"), Some("2024-01-01")), (None, Some("2024-01-01".to_string())));
    assert_eq!(row_label(RowKind::GameStarted, Some("boss"), Some("2024-01-01")), (None, None));
}

#[test]
fn gaining_focus_scans_at_most_once_per_cooldown() {
    assert!(focus_scan(true, false, None, 30, Phase::Ready));
    assert!(focus_scan(true, false, Some(30), 30, Phase::Ready));
    assert!(!focus_scan(true, false, Some(29), 30, Phase::Ready));
    assert!(!focus_scan(true, true, None, 30, Phase::Ready));
    assert!(!focus_scan(false, false, None, 30, Phase::Ready));
    assert!(!focus_scan(true, false, None, 30, Phase::Starting));
}

#[test]
fn a_game_is_uninstalled_only_when_its_absence_is_confirmed() {
    // Not found, and nothing unsure: uninstalled.
    assert!(!installed_after_scan(true, false, Presence::Unknown, false, false));
    // Not found, but a library could not be read: kept.
    assert!(installed_after_scan(true, false, Presence::Unknown, false, true));
    // Found, or already uninstalled: unchanged.
    assert!(installed_after_scan(true, false, Presence::Missing, true, false));
    assert!(!installed_after_scan(false, false, Presence::Present, false, false));
    // A custom game follows its executable.
    assert!(installed_after_scan(false, true, Presence::Present, false, false));
    assert!(!installed_after_scan(true, true, Presence::Missing, false, true));
    assert!(installed_after_scan(true, true, Presence::Unknown, false, false));
}
