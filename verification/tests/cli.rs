use savescummer_catalog::cli::{describe_outcome, games, outcome_exit, history_line, status_text, Availability, Exit, GameSummary, HistoryEntry, Latest, OpResult, OpStatus, Operation, RowKind};
use savescummer_catalog::cli::{status, HostState, PendingDelete};
use savescummer_catalog::host::Phase;
use savescummer_catalog::cli::{
    accepted_text, catalog_text, flush_preview_text, host_runs_text, hotkey_text, label_text, reply_exit, scan_text,
    show_ui_text, CatalogInfo, HostRun,
};
use savescummer_catalog::host::{FlushItem, FlushPreview};

fn op(kind: &str, status: OpStatus, result: Option<OpResult>, error: Option<&str>) -> Operation {
    Operation { kind: kind.to_string(), status, result, error: error.map(str::to_string) }
}

#[test]
fn exit_codes_tell_outcomes_apart() {
    assert_eq!(Exit::Success.code(), 0);
    assert_eq!(Exit::Failed.code(), 1);
    assert_eq!(Exit::Rejected.code(), 3);
    assert_eq!(Exit::NoHost.code(), 4);
}

#[test]
fn statuses_read_as_words() {
    assert_eq!(status_text(OpStatus::CountingDown), "counting down");
    assert_eq!(status_text(OpStatus::Waiting), "waiting for the game");
    assert_eq!(status_text(OpStatus::Succeeded), "done");
    assert_eq!(status_text(OpStatus::Accepted), "accepted");
}

#[test]
fn a_save_names_its_checkpoint() {
    let result = OpResult { checkpoint: Some("c7".to_string()), ..OpResult::default() };
    assert_eq!(describe_outcome(&op("save", OpStatus::Succeeded, Some(result), None)), "saved checkpoint c7");
    assert_eq!(describe_outcome(&op("save", OpStatus::Succeeded, None, None)), "saved checkpoint ");
}

#[test]
fn a_load_names_the_recovery_point_and_removed_files() {
    let result = OpResult {
        checkpoint: Some("c7".to_string()),
        recovery: Some("r2".to_string()),
        removed_files: Some(3),
        ..OpResult::default()
    };
    assert_eq!(
        describe_outcome(&op("load", OpStatus::Succeeded, Some(result.clone()), None)),
        "loaded c7 (kept the previous state as r2); removed 3 newer file(s), kept in the recovery point"
    );
    let none_removed = OpResult { removed_files: Some(0), ..result };
    assert_eq!(
        describe_outcome(&op("revert", OpStatus::Succeeded, Some(none_removed), None)),
        "reverted to c7 (kept the previous state as r2)"
    );
}

#[test]
fn a_flush_lists_what_it_could_not_delete() {
    let result = OpResult {
        count: Some(2),
        failures: vec!["a.sav".to_string(), "b.sav".to_string()],
        ..OpResult::default()
    };
    assert_eq!(
        describe_outcome(&op("flush", OpStatus::Succeeded, Some(result), None)),
        "flushed 2 checkpoint(s)\n  not deleted: a.sav\n  not deleted: b.sav"
    );
    assert_eq!(describe_outcome(&op("flush", OpStatus::Succeeded, None, None)), "flushed 0 checkpoint(s)");
}

#[test]
fn other_outcomes_read_plainly() {
    assert_eq!(describe_outcome(&op("delete", OpStatus::Succeeded, None, None)), "deleted");
    assert_eq!(describe_outcome(&op("move", OpStatus::Succeeded, None, None)), "move: done");
    assert_eq!(describe_outcome(&op("delete", OpStatus::Cancelled, None, None)), "delete: cancelled");
    assert_eq!(describe_outcome(&op("save", OpStatus::Failed, None, Some("disk full"))), "save failed: disk full");
    assert_eq!(describe_outcome(&op("load", OpStatus::Failed, None, None)), "load failed");
}

fn row(kind: RowKind) -> HistoryEntry {
    HistoryEntry {
        at: "2024-05-01 10:00".to_string(),
        kind,
        label: None,
        saved_at: None,
        removed_files: None,
        cloud_replaced: false,
        checkpoint: None,
        unavailable: None,
    }
}

#[test]
fn a_history_line_shows_what_there_is() {
    assert_eq!(history_line(&row(RowKind::GameStarted)), "2024-05-01 10:00  Game started");
    let saved = HistoryEntry {
        label: Some("boss".to_string()),
        saved_at: Some("ignored".to_string()),
        checkpoint: Some("c1".to_string()),
        ..row(RowKind::Saved)
    };
    assert_eq!(history_line(&saved), "2024-05-01 10:00  Saved \"boss\"  [c1]");
    let loaded = HistoryEntry {
        saved_at: Some("2024-04-30 09:00".to_string()),
        removed_files: Some(2),
        cloud_replaced: true,
        checkpoint: Some("c1".to_string()),
        unavailable: Some("missing".to_string()),
        ..row(RowKind::Loaded)
    };
    assert_eq!(
        history_line(&loaded),
        "2024-05-01 10:00  Loaded · 2024-04-30 09:00 · removed 2 newer save(s) · Steam Cloud replaced the restored save  [c1]  (unavailable: missing)"
    );
}

fn yes() -> Availability {
    Availability { available: true, reason: None }
}

#[test]
fn the_game_list_reads_one_game_per_line() {
    assert_eq!(games(&vec![]), "(no games)");
    let first = GameSummary {
        id: "steam-1".to_string(),
        name: "Alpha".to_string(),
        install_tag: Some("C:".to_string()),
        running: true,
        save: yes(),
        load: Availability { available: false, reason: Some("no-saves".to_string()) },
        latest: None,
        blocked: None,
    };
    let second = GameSummary {
        id: "gog-2".to_string(),
        name: "Beta".to_string(),
        install_tag: None,
        running: false,
        save: Availability { available: false, reason: None },
        load: yes(),
        latest: Some(Latest { created_at: "2024-05-01".to_string(), label: Some("boss".to_string()) }),
        blocked: Some("load".to_string()),
    };
    assert_eq!(
        games(&vec![first, second]),
        "Alpha [C:] running  (steam-1)  save: yes  load: no-saves\n\
         Beta  (gog-2)  save:   load: yes latest 2024-05-01 \"boss\"  BLOCKED: load"
    );
}

#[test]
fn cancelled_operations_end_the_command_successfully() {
    assert_eq!(outcome_exit(OpStatus::Succeeded), Exit::Success);
    assert_eq!(outcome_exit(OpStatus::Cancelled), Exit::Success);
    assert_eq!(outcome_exit(OpStatus::Failed), Exit::Failed);
}

fn state() -> HostState {
    HostState {
        host_version: "0.4.1".to_string(),
        phase: Phase::Ready,
        catalog_revision: "0123456789abcdef".to_string(),
        store_path: "/data/checkpoints".to_string(),
        store_available: true,
        active_stack: vec![],
        hotkey_target: None,
        games: vec![],
        deletes: vec![],
    }
}

#[test]
fn the_status_shows_the_host_the_store_and_the_focus() {
    assert_eq!(
        status(&state()),
        "host 0.4.1 (Ready), catalog 0123456789\ncheckpoints: /data/checkpoints\nactive stack: (none)\n\
         hotkeys act on: (none)\n(no games)"
    );
    let busy = HostState {
        phase: Phase::ShuttingDown,
        catalog_revision: "abcdefghé".to_string(),
        store_available: false,
        active_stack: vec!["steam-1".to_string(), "gog-2".to_string()],
        hotkey_target: Some("gog-2".to_string()),
        deletes: vec![
            PendingDelete { checkpoint: Some("c1".to_string()), game: Some("gog-2".to_string()), status: OpStatus::CountingDown },
            PendingDelete { checkpoint: None, game: None, status: OpStatus::Running },
        ],
        ..state()
    };
    assert_eq!(
        status(&busy),
        "host 0.4.1 (ShuttingDown), catalog abcdefghé\ncheckpoints: /data/checkpoints (unavailable)\n\
         active stack: steam-1 > gog-2\nhotkeys act on: gog-2\n(no games)\ndelete c1 of gog-2: counting down\n\
         delete  of : running"
    );
}

#[test]
fn a_taken_reply_succeeds_and_a_refused_one_is_rejected() {
    assert_eq!(reply_exit(true).code(), 0);
    assert_eq!(reply_exit(false).code(), 3);
}

#[test]
fn short_answers_read_as_sentences() {
    assert_eq!(accepted_text("op-1", "save"), "accepted: op-1 (save)");
    assert_eq!(label_text(Some("boss fight")), "label: boss fight");
    assert_eq!(label_text(None), "label cleared");
    assert_eq!(scan_text(0), "scan finished; 0 new game(s)");
    assert_eq!(scan_text(12), "scan finished; 12 new game(s)");
    assert_eq!(show_ui_text("front"), "asked the open UI to come to the front");
    assert_eq!(show_ui_text("started"), "started the UI");
    assert_eq!(show_ui_text("starting"), "the UI is already starting");
    assert_eq!(show_ui_text(""), "there is no UI to show in this install");
    assert_eq!(hotkey_text(Some("steam-1"), "window"), "steam-1 (window)");
    assert_eq!(hotkey_text(None, ""), "none");
}

#[test]
fn a_flush_preview_lists_what_would_go() {
    let preview = FlushPreview {
        saved: 2,
        recovery: 1,
        temporary: 0,
        size: 4096,
        items: vec![
            FlushItem { path: "/s/a".into(), kind: "saved".into(), label: Some("boss".into()) },
            FlushItem { path: "/s/b".into(), kind: "recovery".into(), label: None },
        ],
        next: None,
    };
    assert_eq!(
        flush_preview_text(&preview, true),
        "2 saved, 1 recovery, 0 temporary; 4096 bytes\n  saved /s/a (boss)\n  recovery /s/b"
    );
    assert_eq!(
        flush_preview_text(&preview, false),
        "2 saved, 1 recovery, 0 temporary; 4096 bytes\n  saved /s/a (boss)\n  recovery /s/b\nrun again with --yes to delete all of it"
    );
}

#[test]
fn the_catalog_says_where_it_stands() {
    let info = CatalogInfo {
        repo: "owner/catalog".into(),
        revision: "abc123".into(),
        games: 42,
        source: "downloaded".into(),
        updates: true,
        checked_at: Some("2024-05-01".into()),
        problem: None,
    };
    assert_eq!(catalog_text(&info, false), "owner/catalog at abc123 (42 games, downloaded)\nlast checked 2024-05-01");
    let off = CatalogInfo { updates: false, problem: Some("timeout".into()), ..info.clone() };
    assert_eq!(
        catalog_text(&off, true),
        "owner/catalog at abc123 (42 games, downloaded)\nupdates are off\nthe last check failed: timeout\nupdated; the library was rescanned"
    );
}

#[test]
fn host_runs_read_one_per_line() {
    let runs = vec![
        HostRun { started_at: "t3".into(), current: true, ended_at: None, last_seen_at: "t4".into() },
        HostRun { started_at: "t1".into(), current: false, ended_at: Some("t2".into()), last_seen_at: "t2".into() },
        HostRun { started_at: "t0".into(), current: false, ended_at: None, last_seen_at: "t0b".into() },
    ];
    assert_eq!(
        host_runs_text(&runs),
        "t3 running now\nt1 until t2\nt0 until some time after t0b (didn't exit cleanly)"
    );
    assert_eq!(host_runs_text(&vec![]), "");
}
