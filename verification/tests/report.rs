use savescummer_catalog::report::{FolderItem, Issue, IssueKind, MultiTargetItem, OverrideItem, Report, Review, Stats};

#[test]
fn an_issue_reads_kind_game_and_message() {
    let issue = Issue::new(IssueKind::UnresolvedName, Some("Foo"), "not in the manifest".to_string());
    assert_eq!(issue.text(), "[unresolved-name] Foo: not in the manifest");
    let bare = Issue::new(IssueKind::ManifestHash, None, "hash differs".to_string());
    assert_eq!(bare.text(), "[manifest-hash] hash differs");
}

#[test]
fn kind_names_are_kebab_case() {
    assert_eq!(IssueKind::AddendumWithoutKeepRow.name(), "addendum-without-keep-row");
    assert_eq!(IssueKind::InvalidProductFit.name(), "invalid-product-fit");
    assert_eq!(IssueKind::IgnoredGame.name(), "ignored-game");
}

#[test]
fn an_empty_report_summarises_to_two_lines() {
    let report = Report::default();
    assert_eq!(
        report.summary(),
        "catalog: 0 games built (0 from the manifest, 0 addendum-only) of 0 Keep rows; 0 Remove rows skipped; \
         0 Ignored rows need attention\n\
         review: 0 overrides, 0 multi-target games, 0 config+save folders, 0 dropped launch entries\n"
    );
}

#[test]
fn a_report_summary_lists_overrides_folders_and_issues() {
    let report = Report {
        stats: Stats {
            keep_rows: 3,
            remove_rows: 1,
            ignored_rows: 12,
            games_built: 2,
            from_manifest: 1,
            from_addendum_only: 1,
        },
        errors: vec![Issue::new(IssueKind::NoUsableSave, Some("E"), "no save target".to_string())],
        warnings: vec![Issue::new(IssueKind::IgnoredGame, Some("D"), "needs attention".to_string())],
        review: Review {
            overrides: vec![OverrideItem {
                game: "A".to_string(),
                fields: vec!["installDir".to_string(), "launch".to_string()],
            }],
            multi_target: vec![MultiTargetItem { game: "B".to_string(), targets: 2 }],
            config_save_folders: vec![FolderItem { game: "C".to_string(), path: "<home>/x".to_string() }],
            dropped_launch: vec![],
        },
    };
    assert!(report.has_errors());
    assert_eq!(
        report.summary(),
        "catalog: 2 games built (1 from the manifest, 1 addendum-only) of 3 Keep rows; 1 Remove rows skipped; \
         12 Ignored rows need attention\n\
         review: 1 overrides, 1 multi-target games, 1 config+save folders, 0 dropped launch entries\n  \
         override  A: installDir, launch\n  \
         folder    C: <home>/x\n\
         1 warnings:\n  \
         [ignored-game] D: needs attention\n\
         1 errors:\n  \
         [no-usable-save] E: no save target\n"
    );
}
