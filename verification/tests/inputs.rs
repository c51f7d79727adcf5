use savescummer_catalog::games;
use savescummer_catalog::games::{check_duplicates, check_row, missing_column, GameRow, ProductFit};
use savescummer_catalog::inputs::{parse_games_csv, Fit, Lock, OneOrMany};
use savescummer_catalog::report::{Issue, IssueKind, Report, Review, Stats};

fn row(name: &str, info: &str, fit: &str) -> GameRow {
    GameRow { name: name.to_string(), info: info.to_string(), product_fit: fit.to_string() }
}

fn headers(names: &[&str]) -> Vec<String> {
    names.iter().map(|s| s.to_string()).collect()
}

#[test]
fn parse_games_csv_reads_multiline_info_and_ignores_extra_columns() {
    let (rows, errors) = parse_games_csv(
        "\u{feff}\"Name\",\"Extra1\",\"Extra2\",\"Info\",\"Product fit\",\"Extra3\"\n\
\"ADOM: Ancient Domains of Mystery\",\"yes\",\"cat\",\"Line one,\n\n\"\"quoted\"\" line two\",\"Keep\",\"\"\n\
\"Void War\",\"yes\",\"cat\",\"Info\",\"Keep\",\"\"\n\
\"Removed\",\"yes\",\"cat\",\"Info\",\"Remove\",\"\"\n",
    )
    .unwrap();
    assert!(errors.is_empty());
    assert_eq!(rows.len(), 3);
    assert_eq!(rows[0].name, "ADOM: Ancient Domains of Mystery");
    assert!(rows[0].info.as_deref().unwrap().contains("quoted"));
    assert_eq!(rows[0].line, 2);
    assert_eq!(rows[2].fit, Fit::Remove);
}

#[test]
fn row_problems_are_listed_next_to_the_rows() {
    let (rows, errors) = parse_games_csv(
        "Name,Product fit,Info\n\
A,Keep,\n\
,Keep,x\n\
,,\n\
B,Maybe,\n\
C,Remove,\"one\r\ntwo\"\n",
    )
    .unwrap();
    assert_eq!(rows.len(), 2);
    assert_eq!(rows[0].info, None);
    assert_eq!(rows[1].name, "C");
    assert_eq!(rows[1].info.as_deref(), Some("one\ntwo"));
    assert_eq!(errors.len(), 2);
    assert_eq!(errors[0].message, "empty `Name`");
    assert_eq!(errors[0].name, None);
    assert_eq!(errors[1].name.as_deref(), Some("B"));
    assert_eq!(errors[1].message, "invalid `Product fit` \"Maybe\" (expected `Keep` or `Remove`)");
}

#[test]
fn missing_columns_are_structural_errors() {
    assert_eq!(parse_games_csv("Info,Product fit\n").unwrap_err(), "games.csv: no `Name` column");
    assert_eq!(parse_games_csv("Name,Info\n").unwrap_err(), "games.csv: no `Product fit` column");
}

#[test]
fn rejects_duplicate_names_and_unknown_fit() {
    let header = "\"Name\",\"Info\",\"Product fit\"\n";
    assert!(games::parse(&format!("{header}\"A\",\"i\",\"Keep\"\n\"a\",\"i\",\"Keep\"\n")).is_err());
    assert!(games::parse(&format!("{header}\"A\",\"i\",\"Maybe\"\n")).is_err());
    let rows = vec![row("A", "i", "Keep"), row("a", "i", "Keep")];
    assert_eq!(check_duplicates(&rows).unwrap_err(), "duplicate game name \"a\"");
    assert!(check_duplicates(&[row("A", "i", "Keep"), row("B", "i", "Keep")]).is_ok());
    assert_eq!(
        check_row(row("A", "i", "Maybe")).unwrap_err(),
        "games.csv row \"A\" has an unknown Product fit \"Maybe\""
    );
}

#[test]
fn rows_are_trimmed_and_fit_is_read_without_case() {
    let checked = check_row(row("  Void War ", "info", " keep ")).unwrap();
    assert_eq!(checked.name, "Void War");
    assert_eq!(checked.fit(), Some(ProductFit::Keep));
    assert_eq!(row("x", "", "REMOVE").fit(), Some(ProductFit::Remove));
    assert_eq!(check_row(row("   ", "", "Keep")).unwrap_err(), "games.csv has an empty Name");
}

#[test]
fn header_rows_need_the_three_columns() {
    assert_eq!(missing_column(&headers(&["Name", "Info", "Product fit", "Extra"])), None);
    assert_eq!(
        missing_column(&headers(&["Name", "Product fit"])).as_deref(),
        Some("games.csv is missing the \"Info\" column")
    );
    assert_eq!(missing_column(&headers(&[])).as_deref(), Some("games.csv is missing the \"Name\" column"));
}

#[test]
fn the_lock_names_the_manifest_download() {
    let lock = Lock { repo: "mtkennerly/ludusavi-manifest".into(), revision: "abc".into(), sha256: "00".into() };
    assert_eq!(
        lock.manifest_url(),
        "https://raw.githubusercontent.com/mtkennerly/ludusavi-manifest/abc/data/manifest.yaml"
    );
}

#[test]
fn ids_given_one_way_or_another() {
    assert_eq!(OneOrMany::Absent.into_vec(), Vec::<u64>::new());
    assert_eq!(OneOrMany::One(5).into_vec(), vec![5]);
    assert_eq!(OneOrMany::Many(vec![1, 2]).into_vec(), vec![1, 2]);
}

#[test]
fn reports_with_errors_say_so() {
    let mut report = Report {
        stats: Stats::default(),
        errors: Vec::new(),
        warnings: Vec::new(),
        review: Review::default(),
    };
    assert!(!report.has_errors());
    let issue = Issue::new(IssueKind::UnresolvedName, Some("Game"), "no entry".to_string());
    assert_eq!(issue.game.as_deref(), Some("Game"));
    assert_eq!(issue.kind, IssueKind::UnresolvedName);
    report.errors.push(issue);
    assert!(report.has_errors());
    assert_eq!(Issue::new(IssueKind::IgnoredGame, None, "m".to_string()).game, None);
}

#[test]
fn parses_multiline_info_and_ignores_extra_columns() {
    let rows = games::parse(
        "\u{feff}\"Name\",\"Extra1\",\"Extra2\",\"Info\",\"Product fit\",\"Extra3\"\n\
\"ADOM: Ancient Domains of Mystery\",\"yes\",\"cat\",\"Line one,\n\n\"\"quoted\"\" line two\",\"Keep\",\"\"\n\
\"Void War\",\"yes\",\"cat\",\"Info\",\"Keep\",\"\"\n\
\"Removed\",\"yes\",\"cat\",\"Info\",\"Remove\",\"\"\n",
    )
    .unwrap();
    assert_eq!(rows.len(), 3);
    assert_eq!(rows[0].name, "ADOM: Ancient Domains of Mystery");
    assert!(rows[0].info.contains("quoted"));
    assert_eq!(rows[2].fit(), Some(ProductFit::Remove));
}

#[test]
fn games_csv_errors_name_what_is_wrong() {
    assert_eq!(games::parse("Name,Product fit\n").unwrap_err(), "games.csv is missing the \"Info\" column");
    let header = "Name,Info,Product fit\n";
    assert_eq!(
        games::parse(&format!("{header}A,i,Keep\na,i,Keep\n")).unwrap_err(),
        "duplicate game name \"a\""
    );
    assert_eq!(games::parse(&format!("{header} ,i,Keep\n")).unwrap_err(), "games.csv has an empty Name");
    assert_eq!(games::parse(&format!("{header}A,i\n")).unwrap_err(), "games.csv line 2: missing field `Product fit`");
    assert_eq!(
        games::parse("Name,Info,Product fit,Name\nA,i,Keep,B\n").unwrap_err(),
        "games.csv line 2: duplicate field `Name`"
    );
    let rows = games::parse(&format!("\u{feff}\u{feff}{header}  Alpha ,,keep\nBeta,x,Remove\n")).unwrap();
    assert_eq!(rows[0].name, "Alpha");
    assert_eq!(rows[0].info, "");
    assert_eq!(rows[1].product_fit, "Remove");
}
