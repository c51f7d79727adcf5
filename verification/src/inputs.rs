//! The human inputs: `games.csv` rows and `manifest.lock`, as plain values.

use vstd::prelude::*;
use crate::model::{debug_quoted_chars, debug_str};
use crate::placeholders::{opt_view, strs};
use crate::text::{
    chars_eq, chars_of, eq_lit, is_blank, push_all, push_str, replace_all, replace_spec, string_of,
    trim_chars, trim_spec,
};

verus! {

/// One row of `games.csv`.
#[derive(Debug, Clone, PartialEq, Eq)]
pub struct GameRow {
    pub name: String,
    pub fit: Fit,
    /// Markdown instructions; `None` when the cell is empty.
    pub info: Option<String>,
    /// 1-based line of the row's record in the file, for messages.
    pub line: u64,
}

#[derive(Debug, Clone, Copy, PartialEq, Eq, Structural)]
pub enum Fit {
    Keep,
    Remove,
}

/// A `games.csv` problem that isn't about one game's content.
#[derive(Debug, Clone, PartialEq, Eq)]
pub struct RowError {
    pub line: u64,
    pub name: Option<String>,
    pub message: String,
}

/// What the CSV reader gives for a text: the header row or its error, then
/// the records up to and including the first error, each with its 1-based
/// line.
pub uninterp spec fn csv_read(text: Seq<char>) -> (
    Result<Seq<Seq<char>>, Seq<char>>,
    Seq<Result<(u64, Seq<Seq<char>>), Seq<char>>>,
);

/// The reader's answer as plain values.
pub open spec fn csv_view(r: (Result<Vec<String>, String>, Vec<Result<(u64, Vec<String>), String>>)) -> (
    Result<Seq<Seq<char>>, Seq<char>>,
    Seq<Result<(u64, Seq<Seq<char>>), Seq<char>>>,
) {
    (
        match r.0 {
            Ok(h) => Ok(strs(h@)),
            Err(e) => Err(e@),
        },
        r.1@.map_values(
            |x: Result<(u64, Vec<String>), String>|
                match x {
                    Ok((line, cells)) => Ok((line, strs(cells@))),
                    Err(e) => Err(e@),
                },
        ),
    )
}

/// Reads CSV with a header row and rows of any width, with the `csv` crate:
/// the header row, then each record with its line, stopping after the
/// first error. Errors are the reader's messages.
#[verifier::external_body]
pub(crate) fn read_csv(text: &str) -> (r: (Result<Vec<String>, String>, Vec<Result<(u64, Vec<String>), String>>))
    ensures
        csv_view(r) == csv_read(text@),
{
    let mut reader = csv::ReaderBuilder::new().has_headers(true).flexible(true).from_reader(text.as_bytes());
    let headers = match reader.headers() {
        Ok(h) => h.iter().map(String::from).collect(),
        Err(e) => return (Err(e.to_string()), Vec::new()),
    };
    let mut records = Vec::new();
    for x in reader.records() {
        let failed = x.is_err();
        records.push(x.map(|r| (r.position().map_or(0, |p| p.line()), r.iter().map(String::from).collect())).map_err(|e| e.to_string()));
        if failed { break; }
    }
    (Ok(headers), records)
}

/// The text without a leading byte-order mark.
pub open spec fn strip_bom(s: Seq<char>) -> Seq<char> {
    if s.len() > 0 && s[0] == '\u{feff}' {
        s.drop_first()
    } else {
        s
    }
}

/// The first header that reads `name` once trimmed.
pub open spec fn column_of(headers: Seq<Seq<char>>, name: Seq<char>) -> Option<int> {
    if exists|k: int| 0 <= k < headers.len() && #[trigger] trim_spec(headers[k]) == name {
        Some(
            choose|k: int|
                0 <= k < headers.len() && trim_spec(headers[k]) == name && forall|j: int|
                    0 <= j < k ==> #[trigger] trim_spec(headers[j]) != name,
        )
    } else {
        None
    }
}

fn column(headers: &Vec<String>, name: &str) -> (r: Option<usize>)
    ensures
        match r {
            Some(k) => column_of(strs(headers@), name@) == Some(k as int),
            None => column_of(strs(headers@), name@) is None,
        },
{
    let ghost h = strs(headers@);
    let want = chars_of(name);
    let mut i: usize = 0;
    while i < headers.len()
        invariant
            i <= headers.len(),
            h == strs(headers@),
            want@ == name@,
            forall|j: int| 0 <= j < i ==> #[trigger] trim_spec(h[j]) != name@,
        decreases headers.len() - i,
    {
        let t = trim_chars(&chars_of(headers[i].as_str()));
        if chars_eq(&t, &want) {
            proof {
                assert(0 <= i < h.len() && trim_spec(h[i as int]) == name@);
                let k = choose|k: int|
                    0 <= k < h.len() && trim_spec(h[k]) == name@ && forall|j: int|
                        0 <= j < k ==> #[trigger] trim_spec(h[j]) != name@;
                assert(0 <= i < h.len() && trim_spec(h[i as int]) == name@ && forall|j: int|
                    0 <= j < i ==> #[trigger] trim_spec(h[j]) != name@);
                if k < i {
                    assert(trim_spec(h[k]) != name@);
                } else if k > i {
                    assert(trim_spec(h[i as int]) != name@);
                }
            }
            return Some(i);
        }
        i = i + 1;
    }
    None
}

/// A cell, empty where the record is too short.
pub open spec fn cell(cells: Seq<Seq<char>>, k: int) -> Seq<char> {
    if 0 <= k < cells.len() {
        cells[k]
    } else {
        Seq::empty()
    }
}

/// A row as the parse sees it: name, fit, info and line.
pub type RowView = (Seq<char>, Fit, Option<Seq<char>>, u64);

/// A row error as plain values: line, name and message.
pub type RowErrorView = (u64, Option<Seq<char>>, Seq<char>);

/// What one record gives: nothing (a blank line), a row, or a row error.
pub enum RecordOutcome {
    Skip,
    Row(RowView),
    Problem(RowErrorView),
}

pub open spec fn record_outcome(
    line: u64,
    cells: Seq<Seq<char>>,
    name_col: int,
    fit_col: int,
    info_col: Option<int>,
) -> RecordOutcome {
    let name = trim_spec(cell(cells, name_col));
    let fit_text = trim_spec(cell(cells, fit_col));
    if name.len() == 0 {
        if forall|k: int| 0 <= k < cells.len() ==> #[trigger] trim_spec(cells[k]).len() == 0 {
            RecordOutcome::Skip
        } else {
            RecordOutcome::Problem((line, None, "empty `Name`"@))
        }
    } else if fit_text != "Keep"@ && fit_text != "Remove"@ {
        RecordOutcome::Problem(
            (
                line,
                Some(name),
                "invalid `Product fit` "@ + debug_str(fit_text) + " (expected `Keep` or `Remove`)"@,
            ),
        )
    } else {
        let fit = if fit_text == "Keep"@ {
            Fit::Keep
        } else {
            Fit::Remove
        };
        let info = match info_col {
            Some(c) => if 0 <= c < cells.len() && trim_spec(cells[c]).len() > 0 {
                Some(replace_spec(cells[c], "\r\n"@, "\n"@))
            } else {
                None
            },
            None => None,
        };
        RecordOutcome::Row((name, fit, info, line))
    }
}

/// The rows and row errors of the first `n` records, or the first reader
/// error among them.
pub open spec fn records_outcome(
    records: Seq<Result<(u64, Seq<Seq<char>>), Seq<char>>>,
    n: int,
    name_col: int,
    fit_col: int,
    info_col: Option<int>,
) -> Result<(Seq<RowView>, Seq<RowErrorView>), Seq<char>>
    decreases n,
{
    if n <= 0 {
        Ok((Seq::empty(), Seq::empty()))
    } else {
        match records_outcome(records, n - 1, name_col, fit_col, info_col) {
            Err(e) => Err(e),
            Ok((rows, errors)) => match records[n - 1] {
                Err(e) => Err("games.csv: "@ + e),
                Ok((line, cells)) => match record_outcome(line, cells, name_col, fit_col, info_col) {
                    RecordOutcome::Skip => Ok((rows, errors)),
                    RecordOutcome::Row(r) => Ok((rows.push(r), errors)),
                    RecordOutcome::Problem(p) => Ok((rows, errors.push(p))),
                },
            },
        }
    }
}

/// What `games.csv` reads as.
pub open spec fn games_csv_spec(text: Seq<char>) -> Result<(Seq<RowView>, Seq<RowErrorView>), Seq<char>> {
    let (headers, records) = csv_read(strip_bom(text));
    match headers {
        Err(e) => Err("games.csv: "@ + e),
        Ok(h) => match column_of(h, "Name"@) {
            None => Err("games.csv: no `Name` column"@),
            Some(name_col) => match column_of(h, "Product fit"@) {
                None => Err("games.csv: no `Product fit` column"@),
                Some(fit_col) => records_outcome(
                    records,
                    records.len() as int,
                    name_col,
                    fit_col,
                    column_of(h, "Info"@),
                ),
            },
        },
    }
}

pub open spec fn row_view(r: GameRow) -> RowView {
    (r.name@, r.fit, opt_view(r.info), r.line)
}

pub open spec fn row_error_view(e: RowError) -> RowErrorView {
    (e.line, opt_view(e.name), e.message@)
}

fn cell_of(cells: &Vec<String>, k: usize) -> (r: Vec<char>)
    ensures
        r@ == cell(strs(cells@), k as int),
{
    if k < cells.len() {
        chars_of(cells[k].as_str())
    } else {
        Vec::new()
    }
}

fn all_blank(cells: &Vec<String>) -> (r: bool)
    ensures
        r == forall|k: int| 0 <= k < cells@.len() ==> #[trigger] trim_spec(strs(cells@)[k]).len() == 0,
{
    let mut i: usize = 0;
    while i < cells.len()
        invariant
            i <= cells.len(),
            forall|k: int| 0 <= k < i ==> #[trigger] trim_spec(strs(cells@)[k]).len() == 0,
        decreases cells.len() - i,
    {
        if !is_blank(&chars_of(cells[i].as_str())) {
            assert(strs(cells@)[i as int] == cells@[i as int]@);
            return false;
        }
        i = i + 1;
    }
    true
}

/// Reads `games.csv`. Structural problems (missing columns, broken CSV) are a
/// single `Err`; per-row problems (unknown `Product fit`, empty name) are
/// returned next to the rows that did parse, so every one is reported.
pub fn parse_games_csv(text: &str) -> (r: Result<(Vec<GameRow>, Vec<RowError>), String>)
    ensures
        match r {
            Ok((rows, errors)) => games_csv_spec(text@) == Ok::<(Seq<RowView>, Seq<RowErrorView>), Seq<char>>(
                (rows@.map_values(|g: GameRow| row_view(g)), errors@.map_values(|e: RowError| row_error_view(e))),
            ),
            Err(e) => games_csv_spec(text@) == Err::<(Seq<RowView>, Seq<RowErrorView>), Seq<char>>(e@),
        },
{
    let raw = chars_of(text);
    let body = if raw.len() > 0 && raw[0] == '\u{feff}' {
        crate::text::slice_chars(&raw, 1, raw.len())
    } else {
        crate::text::slice_chars(&raw, 0, raw.len())
    };
    assert(body@ == strip_bom(text@));
    let body_text = string_of(&body);
    let (headers, records) = read_csv(body_text.as_str());
    let headers = match headers {
        Ok(h) => h,
        Err(e) => {
            let mut m = chars_of("games.csv: ");
            push_str(&mut m, e.as_str());
            return Err(string_of(&m));
        },
    };
    let name_col = match column(&headers, "Name") {
        Some(c) => c,
        None => {
            return Err(string_of(&chars_of("games.csv: no `Name` column")));
        },
    };
    let fit_col = match column(&headers, "Product fit") {
        Some(c) => c,
        None => {
            return Err(string_of(&chars_of("games.csv: no `Product fit` column")));
        },
    };
    let info_col = column(&headers, "Info");
    let ghost info_spec: Option<int> = match info_col {
        Some(c) => Some(c as int),
        None => None,
    };
    let ghost recs = csv_view((Ok(headers), records)).1;
    assert(recs.len() == records@.len());
    assert(csv_read(body_text@).1 == recs);
    assert(games_csv_spec(text@) == records_outcome(recs, recs.len() as int, name_col as int, fit_col as int, info_spec));
    let mut rows: Vec<GameRow> = Vec::new();
    let mut errors: Vec<RowError> = Vec::new();
    let mut i: usize = 0;
    assert(rows@.map_values(|g: GameRow| row_view(g)) =~= Seq::<RowView>::empty());
    assert(errors@.map_values(|e: RowError| row_error_view(e)) =~= Seq::<RowErrorView>::empty());
    while i < records.len()
        invariant
            i <= records.len(),
            recs == csv_view((Ok(headers), records)).1,
            recs.len() == records@.len(),
            games_csv_spec(text@) == records_outcome(recs, recs.len() as int, name_col as int, fit_col as int, info_spec),
            records_outcome(recs, i as int, name_col as int, fit_col as int, info_spec) == Ok::<
                (Seq<RowView>, Seq<RowErrorView>),
                Seq<char>,
            >((rows@.map_values(|g: GameRow| row_view(g)), errors@.map_values(|e: RowError| row_error_view(e)))),
            info_spec == (match info_col {
                Some(c) => Some(c as int),
                None => None::<int>,
            }),
        decreases records.len() - i,
    {
        match &records[i] {
            Err(e) => {
                let mut m = chars_of("games.csv: ");
                push_str(&mut m, e.as_str());
                let message = string_of(&m);
                proof {
                    assert(recs[i as int] == Err::<(u64, Seq<Seq<char>>), Seq<char>>(e@));
                    assert(records_outcome(recs, i + 1, name_col as int, fit_col as int, info_spec) == Err::<
                        (Seq<RowView>, Seq<RowErrorView>),
                        Seq<char>,
                    >(message@));
                    lemma_records_err(recs, i + 1, records.len() as int, name_col as int, fit_col as int, info_spec);
                }
                return Err(message);
            },
            Ok((line, cells)) => {
                assert(recs[i as int] == Ok::<(u64, Seq<Seq<char>>), Seq<char>>((*line, strs(cells@))));
                let line = *line;
                let name = trim_chars(&cell_of(cells, name_col));
                let fit_text = trim_chars(&cell_of(cells, fit_col));
                let ghost before_rows = rows@.map_values(|g: GameRow| row_view(g));
                let ghost before_errors = errors@.map_values(|e: RowError| row_error_view(e));
                if name.len() == 0 {
                    if !all_blank(cells) {
                        errors.push(RowError { line, name: None, message: string_of(&chars_of("empty `Name`")) });
                        assert(errors@.map_values(|e: RowError| row_error_view(e)) =~= before_errors.push((line, None, "empty `Name`"@)));
                    }
                } else if !eq_lit(&fit_text, "Keep") && !eq_lit(&fit_text, "Remove") {
                    let mut m = chars_of("invalid `Product fit` ");
                    push_all(&mut m, &debug_quoted_chars(&fit_text));
                    push_str(&mut m, " (expected `Keep` or `Remove`)");
                    errors.push(RowError { line, name: Some(string_of(&name)), message: string_of(&m) });
                    assert(errors@.map_values(|e: RowError| row_error_view(e)) =~= before_errors.push((line, Some(name@), m@)));
                } else {
                    let fit = if eq_lit(&fit_text, "Keep") {
                        Fit::Keep
                    } else {
                        Fit::Remove
                    };
                    let info = match info_col {
                        Some(c) => {
                            if c < cells.len() && !is_blank(&chars_of(cells[c].as_str())) {
                                proof {
                                    reveal_strlit("\r\n");
                                }
                                let text = replace_all(&chars_of(cells[c].as_str()), "\r\n", "\n");
                                Some(string_of(&text))
                            } else {
                                None
                            }
                        },
                        None => None,
                    };
                    let row = GameRow { name: string_of(&name), fit, info, line };
                    rows.push(row);
                    assert(rows@.map_values(|g: GameRow| row_view(g)) =~= before_rows.push(row_view(row)));
                }
            },
        }
        i = i + 1;
    }
    assert(recs.len() == records@.len());
    Ok((rows, errors))
}

proof fn lemma_records_err(
    records: Seq<Result<(u64, Seq<Seq<char>>), Seq<char>>>,
    i: int,
    n: int,
    name_col: int,
    fit_col: int,
    info_col: Option<int>,
)
    requires
        0 <= i <= n,
        records_outcome(records, i, name_col, fit_col, info_col) is Err,
    ensures
        records_outcome(records, n, name_col, fit_col, info_col) == records_outcome(records, i, name_col, fit_col, info_col),
    decreases n - i,
{
    if i < n {
        lemma_records_err(records, i, n - 1, name_col, fit_col, info_col);
    }
}

/// `catalog/manifest.lock`: the pinned upstream manifest.
#[derive(Debug, Clone, PartialEq, Eq)]
pub struct Lock {
    pub repo: String,
    pub revision: String,
    pub sha256: String,
}

impl Lock {
    /// Where the pinned manifest is downloaded from.
    pub fn manifest_url(&self) -> (r: String)
        ensures
            r@ == "https://raw.githubusercontent.com/"@ + self.repo@ + "/"@ + self.revision@
                + "/data/manifest.yaml"@,
    {
        let mut m = chars_of("https://raw.githubusercontent.com/");
        push_str(&mut m, self.repo.as_str());
        push_str(&mut m, "/");
        push_str(&mut m, self.revision.as_str());
        push_str(&mut m, "/data/manifest.yaml");
        string_of(&m)
    }
}

/// A product id list given as one number or as a list.
pub enum OneOrMany {
    /// Not given.
    Absent,
    One(u64),
    Many(Vec<u64>),
}

impl OneOrMany {
    pub fn into_vec(self) -> (r: Vec<u64>)
        ensures
            r@ == (match self {
                OneOrMany::Absent => Seq::<u64>::empty(),
                OneOrMany::One(id) => seq![id],
                OneOrMany::Many(ids) => ids@,
            }),
    {
        match self {
            OneOrMany::Absent => Vec::new(),
            OneOrMany::One(id) => vec![id],
            OneOrMany::Many(ids) => ids,
        }
    }
}

} // verus!
