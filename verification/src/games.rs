//! `catalog/games.csv`, the authoritative list of supported games: the
//! checks made on each row read by header name.

use vstd::prelude::*;
use crate::broad::{lowercase, str_lowercase};
use crate::inputs::{csv_read, read_csv};
use crate::model::{debug_quoted_chars, debug_str};
use crate::placeholders::strs;
use crate::text::{
    chars_eq, chars_of, eq_ignore_ascii_case, eq_ignore_ascii_case_spec, push_all, push_str,
    string_of, trim_chars, trim_spec,
};

verus! {

#[derive(Debug, Clone, Copy, PartialEq, Eq, Structural)]
pub enum ProductFit {
    Keep,
    Remove,
}

#[derive(Debug, Clone, PartialEq, Eq)]
pub struct GameRow {
    pub name: String,
    pub info: String,
    pub product_fit: String,
}

/// The `Product fit` cell, trimmed and read without regard to ASCII case.
pub open spec fn fit_spec(product_fit: Seq<char>) -> Option<ProductFit> {
    let value = trim_spec(product_fit);
    if eq_ignore_ascii_case_spec(value, "keep"@) {
        Some(ProductFit::Keep)
    } else if eq_ignore_ascii_case_spec(value, "remove"@) {
        Some(ProductFit::Remove)
    } else {
        None
    }
}

impl GameRow {
    pub fn fit(&self) -> (r: Option<ProductFit>)
        ensures
            r == fit_spec(self.product_fit@),
    {
        let value = trim_chars(&chars_of(self.product_fit.as_str()));
        if eq_ignore_ascii_case(&value, &chars_of("keep")) {
            Some(ProductFit::Keep)
        } else if eq_ignore_ascii_case(&value, &chars_of("remove")) {
            Some(ProductFit::Remove)
        } else {
            None
        }
    }
}

/// The first required column the header row lacks.
pub open spec fn missing_column_spec(headers: Seq<String>) -> Option<Seq<char>> {
    if !(exists|k: int| 0 <= k < headers.len() && #[trigger] headers[k]@ == "Name"@) {
        Some("Name"@)
    } else if !(exists|k: int| 0 <= k < headers.len() && #[trigger] headers[k]@ == "Info"@) {
        Some("Info"@)
    } else if !(exists|k: int| 0 <= k < headers.len() && #[trigger] headers[k]@ == "Product fit"@) {
        Some("Product fit"@)
    } else {
        None
    }
}

fn has_header(headers: &[String], column: &str) -> (r: bool)
    ensures
        r == exists|k: int| 0 <= k < headers@.len() && #[trigger] headers@[k]@ == column@,
{
    let want = chars_of(column);
    let mut i: usize = 0;
    while i < headers.len()
        invariant
            i <= headers.len(),
            want@ == column@,
            forall|k: int| 0 <= k < i ==> #[trigger] headers@[k]@ != column@,
        decreases headers.len() - i,
    {
        if chars_eq(&chars_of(headers[i].as_str()), &want) {
            return true;
        }
        i = i + 1;
    }
    false
}

/// The complaint about a header row without a required column, if any.
pub fn missing_column(headers: &[String]) -> (r: Option<String>)
    ensures
        match r {
            Some(m) => missing_column_spec(headers@) matches Some(c) && m@ == "games.csv is missing the "@
                + debug_str(c) + " column"@,
            None => missing_column_spec(headers@) is None,
        },
{
    if !has_header(headers, "Name") {
        return Some(missing_message("Name"));
    }
    if !has_header(headers, "Info") {
        return Some(missing_message("Info"));
    }
    if !has_header(headers, "Product fit") {
        return Some(missing_message("Product fit"));
    }
    None
}

fn missing_message(column: &str) -> (r: String)
    ensures
        r@ == "games.csv is missing the "@ + debug_str(column@) + " column"@,
{
    let mut m = chars_of("games.csv is missing the ");
    push_all(&mut m, &debug_quoted_chars(&chars_of(column)));
    push_str(&mut m, " column");
    string_of(&m)
}

/// A row after its checks: the name trimmed, or the complaint about it.
pub open spec fn row_check(name: Seq<char>, product_fit: Seq<char>) -> Result<Seq<char>, Seq<char>> {
    let name = trim_spec(name);
    if name.len() == 0 {
        Err("games.csv has an empty Name"@)
    } else if fit_spec(product_fit) is None {
        Err("games.csv row "@ + debug_str(name) + " has an unknown Product fit "@ + debug_str(
            product_fit,
        ))
    } else {
        Ok(name)
    }
}

/// Trims a row's name and checks it has a name and a known `Product fit`.
pub fn check_row(row: GameRow) -> (r: Result<GameRow, String>)
    ensures
        match r {
            Ok(g) => row_check(row.name@, row.product_fit@) == Ok::<Seq<char>, Seq<char>>(g.name@)
                && g.info == row.info && g.product_fit == row.product_fit,
            Err(m) => row_check(row.name@, row.product_fit@) == Err::<Seq<char>, Seq<char>>(m@),
        },
{
    let name = trim_chars(&chars_of(row.name.as_str()));
    if name.len() == 0 {
        return Err(string_of(&chars_of("games.csv has an empty Name")));
    }
    let checked = GameRow { name: string_of(&name), info: row.info, product_fit: row.product_fit };
    if checked.fit().is_none() {
        let mut m = chars_of("games.csv row ");
        push_all(&mut m, &debug_quoted_chars(&name));
        push_str(&mut m, " has an unknown Product fit ");
        push_all(&mut m, &debug_quoted_chars(&chars_of(checked.product_fit.as_str())));
        return Err(string_of(&m));
    }
    Ok(checked)
}

/// Row `j`'s name, lowercased, is that of an earlier row.
pub open spec fn repeats_earlier(rows: Seq<GameRow>, j: int) -> bool {
    exists|i: int| 0 <= i < j && #[trigger] str_lowercase(rows[i].name@) == str_lowercase(rows[j].name@)
}

/// No name among the first `n` rows repeats an earlier one.
pub open spec fn distinct_upto(rows: Seq<GameRow>, n: int) -> bool {
    forall|j: int| 0 <= j < n ==> !#[trigger] repeats_earlier(rows, j)
}

/// Names are unique without regard to case; the first repeat is reported.
pub fn check_duplicates(rows: &[GameRow]) -> (r: Result<(), String>)
    ensures
        r is Ok ==> distinct_upto(rows@, rows@.len() as int),
        r matches Err(m) ==> exists|j: int|
            0 <= j < rows@.len() && #[trigger] repeats_earlier(rows@, j) && distinct_upto(rows@, j)
                && m@ == "duplicate game name "@ + debug_str(rows@[j].name@),
{
    let mut seen: Vec<String> = Vec::new();
    let mut j: usize = 0;
    while j < rows.len()
        invariant
            j <= rows.len(),
            seen@.len() == j,
            forall|k: int| 0 <= k < j ==> #[trigger] seen@[k]@ == str_lowercase(rows@[k].name@),
            distinct_upto(rows@, j as int),
        decreases rows.len() - j,
    {
        let lower = lowercase(rows[j].name.as_str());
        let lv = chars_of(lower.as_str());
        let ghost target = str_lowercase(rows@[j as int].name@);
        let mut i: usize = 0;
        while i < seen.len()
            invariant
                i <= seen.len() == j,
                j < rows.len(),
                lv@ == target,
                target == str_lowercase(rows@[j as int].name@),
                forall|k: int| 0 <= k < j ==> #[trigger] seen@[k]@ == str_lowercase(rows@[k].name@),
                forall|k: int| 0 <= k < i ==> #[trigger] seen@[k]@ != target,
                distinct_upto(rows@, j as int),
            decreases seen.len() - i,
        {
            if chars_eq(&chars_of(seen[i].as_str()), &lv) {
                assert(seen@[i as int]@ == str_lowercase(rows@[i as int].name@));
                assert(repeats_earlier(rows@, j as int));
                let mut m = chars_of("duplicate game name ");
                push_all(&mut m, &debug_quoted_chars(&chars_of(rows[j].name.as_str())));
                let message = string_of(&m);
                assert(0 <= j < rows@.len() && repeats_earlier(rows@, j as int) && distinct_upto(rows@, j as int)
                    && message@ == "duplicate game name "@ + debug_str(rows@[j as int].name@));
                return Err(message);
            }
            i = i + 1;
        }
        proof {
            if repeats_earlier(rows@, j as int) {
                let i = choose|i: int| 0 <= i < j && #[trigger] str_lowercase(rows@[i].name@) == str_lowercase(rows@[j as int].name@);
                assert(seen@[i]@ != target);
            }
            assert forall|q: int| 0 <= q < j + 1 implies !#[trigger] repeats_earlier(rows@, q) by {
                if q < j {
                    assert(!repeats_earlier(rows@, q));
                }
            }
        }
        seen.push(lower);
        j = j + 1;
    }
    Ok(())
}


// ---- reading the file ----------------------------------------------------------

/// A row as plain values: name, info, product fit.
pub type RowText = (Seq<char>, Seq<char>, Seq<char>);

/// The text without its leading byte-order marks.
pub open spec fn trim_boms(s: Seq<char>) -> Seq<char>
    decreases s.len(),
{
    if s.len() > 0 && s[0] == '\u{feff}' {
        trim_boms(s.drop_first())
    } else {
        s
    }
}

/// The columns a row is read into.
pub open spec fn known_field(h: Seq<char>) -> bool {
    h == "Name"@ || h == "Info"@ || h == "Product fit"@
}

/// The first of the first `n` headers that is `col`.
pub open spec fn first_col(headers: Seq<Seq<char>>, n: int, col: Seq<char>) -> Option<int>
    decreases n,
{
    if n <= 0 {
        None
    } else {
        match first_col(headers, n - 1, col) {
            Some(k) => Some(k),
            None => if headers[n - 1] == col {
                Some(n - 1)
            } else {
                None
            },
        }
    }
}

/// The first read column, among the first `n` headers, that names a field
/// an earlier column already gave.
pub open spec fn dup_field(headers: Seq<Seq<char>>, n: int) -> Option<Seq<char>>
    decreases n,
{
    if n <= 0 {
        None
    } else {
        match dup_field(headers, n - 1) {
            Some(f) => Some(f),
            None => if known_field(headers[n - 1]) && first_col(headers, n - 1, headers[n - 1]) is Some {
                Some(headers[n - 1])
            } else {
                None
            },
        }
    }
}

/// A record read by header name, as far as it has cells: a field given
/// twice or a missing `Name` or `Product fit` is an error naming the
/// line; a missing `Info` is empty; other columns are ignored.
pub open spec fn decode_row(headers: Seq<Seq<char>>, cells: Seq<Seq<char>>, line: u64) -> Result<RowText, Seq<char>> {
    let n = if headers.len() < cells.len() {
        headers.len() as int
    } else {
        cells.len() as int
    };
    let at = "games.csv line "@ + crate::text::decimal(line as nat) + ": "@;
    match dup_field(headers, n) {
        Some(f) => Err(at + "duplicate field `"@ + f + "`"@),
        None => match first_col(headers, n, "Name"@) {
            None => Err(at + "missing field `Name`"@),
            Some(kn) => match first_col(headers, n, "Product fit"@) {
                None => Err(at + "missing field `Product fit`"@),
                Some(kf) => Ok(
                    (
                        cells[kn],
                        match first_col(headers, n, "Info"@) {
                            Some(ki) => cells[ki],
                            None => Seq::empty(),
                        },
                        cells[kf],
                    ),
                ),
            },
        },
    }
}

/// The rows of the records in order, each read and checked, or the first
/// problem.
pub open spec fn rows_spec(headers: Seq<Seq<char>>, records: Seq<Result<(u64, Seq<Seq<char>>), Seq<char>>>) -> Result<Seq<RowText>, Seq<char>>
    decreases records.len(),
{
    if records.len() == 0 {
        Ok(Seq::empty())
    } else {
        match rows_spec(headers, records.drop_last()) {
            Err(e) => Err(e),
            Ok(rows) => match records.last() {
                Err(e) => Err(e),
                Ok((line, cells)) => match decode_row(headers, cells, line) {
                    Err(e) => Err(e),
                    Ok((name, info, fit)) => match row_check(name, fit) {
                        Err(e) => Err(e),
                        Ok(trimmed) => Ok(rows.push((trimmed, info, fit))),
                    },
                },
            },
        }
    }
}

/// The first required column the header row lacks.
pub open spec fn missing_of(headers: Seq<Seq<char>>) -> Option<Seq<char>> {
    if !headers.contains("Name"@) {
        Some("Name"@)
    } else if !headers.contains("Info"@) {
        Some("Info"@)
    } else if !headers.contains("Product fit"@) {
        Some("Product fit"@)
    } else {
        None
    }
}

/// Row `j`'s name, lowercased, is that of an earlier row.
pub open spec fn name_repeats(rows: Seq<RowText>, j: int) -> bool {
    exists|i: int| 0 <= i < j && #[trigger] str_lowercase(rows[i].0) == str_lowercase(rows[j].0)
}

/// `games.csv` read: leading byte-order marks dropped, the header row
/// holding `Name`, `Info` and `Product fit`, every record read by header
/// name and checked in order, and no name twice without regard to case (the
/// first repeat is reported).
pub open spec fn games_spec(text: Seq<char>) -> Result<Seq<RowText>, Seq<char>> {
    let read = csv_read(trim_boms(text));
    match read.0 {
        Err(e) => Err(e),
        Ok(headers) => match missing_of(headers) {
            Some(c) => Err("games.csv is missing the "@ + debug_str(c) + " column"@),
            None => match rows_spec(headers, read.1) {
                Err(e) => Err(e),
                Ok(rows) => if exists|j: int| 0 <= j < rows.len() && #[trigger] name_repeats(rows, j) {
                    let j = choose|j: int|
                        0 <= j < rows.len() && #[trigger] name_repeats(rows, j) && forall|q: int|
                            0 <= q < j ==> !#[trigger] name_repeats(rows, q);
                    Err("duplicate game name "@ + debug_str(rows[j].0))
                } else {
                    Ok(rows)
                },
            },
        },
    }
}

/// A row as plain values.
pub open spec fn row_text(g: GameRow) -> RowText {
    (g.name@, g.info@, g.product_fit@)
}

/// Rows as plain values.
pub open spec fn row_texts(rows: Seq<GameRow>) -> Seq<RowText> {
    rows.map_values(|g: GameRow| row_text(g))
}

fn first_col_of(headers: &Vec<String>, n: usize, col: &str) -> (r: Option<usize>)
    requires
        n <= headers@.len(),
    ensures
        match r {
            Some(k) => first_col(strs(headers@), n as int, col@) == Some(k as int) && k < n,
            None => first_col(strs(headers@), n as int, col@) is None,
        },
{
    let want = chars_of(col);
    let mut i: usize = 0;
    while i < n
        invariant
            i <= n <= headers@.len(),
            want@ == col@,
            first_col(strs(headers@), i as int, col@) is None,
        decreases n - i,
    {
        if chars_eq(&chars_of(headers[i].as_str()), &want) {
            proof {
                lemma_first_col_stays(strs(headers@), i as int + 1, n as int, col@);
            }
            return Some(i);
        }
        i = i + 1;
    }
    None
}

proof fn lemma_first_col_stays(h: Seq<Seq<char>>, m: int, n: int, col: Seq<char>)
    requires
        0 <= m <= n,
        first_col(h, m, col) is Some,
    ensures
        first_col(h, n, col) == first_col(h, m, col),
    decreases n - m,
{
    if n > m {
        lemma_first_col_stays(h, m, n - 1, col);
    }
}

proof fn lemma_dup_field_stays(h: Seq<Seq<char>>, m: int, n: int)
    requires
        0 <= m <= n,
        dup_field(h, m) is Some,
    ensures
        dup_field(h, n) == dup_field(h, m),
    decreases n - m,
{
    if n > m {
        lemma_dup_field_stays(h, m, n - 1);
    }
}

fn dup_field_of(headers: &Vec<String>, n: usize) -> (r: Option<String>)
    requires
        n <= headers@.len(),
    ensures
        match r {
            Some(f) => dup_field(strs(headers@), n as int) == Some(f@),
            None => dup_field(strs(headers@), n as int) is None,
        },
{
    let mut i: usize = 0;
    while i < n
        invariant
            i <= n <= headers@.len(),
            dup_field(strs(headers@), i as int) is None,
        decreases n - i,
    {
        let h = chars_of(headers[i].as_str());
        let known = crate::text::eq_lit(&h, "Name") || crate::text::eq_lit(&h, "Info") || crate::text::eq_lit(&h, "Product fit");
        if known {
            if first_col_of(headers, i, headers[i].as_str()).is_some() {
                proof {
                    lemma_dup_field_stays(strs(headers@), i as int + 1, n as int);
                }
                return Some(headers[i].clone());
            }
        }
        i = i + 1;
    }
    None
}

fn line_prefix(line: u64) -> (r: Vec<char>)
    ensures
        r@ == "games.csv line "@ + crate::text::decimal(line as nat) + ": "@,
{
    let mut m = chars_of("games.csv line ");
    push_all(&mut m, &crate::text::decimal_of(line));
    push_str(&mut m, ": ");
    m
}

fn decode(headers: &Vec<String>, cells: &Vec<String>, line: u64) -> (r: Result<GameRow, String>)
    ensures
        match r {
            Ok(g) => decode_row(strs(headers@), strs(cells@), line) == Ok::<RowText, Seq<char>>(row_text(g)),
            Err(e) => decode_row(strs(headers@), strs(cells@), line) == Err::<RowText, Seq<char>>(e@),
        },
{
    let n: usize = if headers.len() < cells.len() {
        headers.len()
    } else {
        cells.len()
    };
    match dup_field_of(headers, n) {
        Some(f) => {
            let mut m = line_prefix(line);
            push_str(&mut m, "duplicate field `");
            push_str(&mut m, f.as_str());
            push_str(&mut m, "`");
            return Err(string_of(&m));
        },
        None => {},
    }
    let kn = match first_col_of(headers, n, "Name") {
        Some(k) => k,
        None => {
            let mut m = line_prefix(line);
            push_str(&mut m, "missing field `Name`");
            return Err(string_of(&m));
        },
    };
    let kf = match first_col_of(headers, n, "Product fit") {
        Some(k) => k,
        None => {
            let mut m = line_prefix(line);
            push_str(&mut m, "missing field `Product fit`");
            return Err(string_of(&m));
        },
    };
    let info = match first_col_of(headers, n, "Info") {
        Some(k) => cells[k].clone(),
        None => String::new(),
    };
    Ok(GameRow { name: cells[kn].clone(), info, product_fit: cells[kf].clone() })
}


/// A problem in the first records is the problem of all of them.
proof fn lemma_rows_err_stays(h: Seq<Seq<char>>, recs: Seq<Result<(u64, Seq<Seq<char>>), Seq<char>>>, k: int)
    requires
        0 <= k <= recs.len(),
        rows_spec(h, recs.take(k)) is Err,
    ensures
        rows_spec(h, recs) == rows_spec(h, recs.take(k)),
    decreases recs.len() - k,
{
    if k < recs.len() {
        assert(recs.take(k + 1).drop_last() == recs.take(k));
        lemma_rows_err_stays(h, recs, k + 1);
    } else {
        assert(recs.take(k) == recs);
    }
}

proof fn lemma_missing_of(headers: Seq<String>)
    ensures
        missing_column_spec(headers) == missing_of(strs(headers)),
{
    let v = strs(headers);
    assert(v.contains("Name"@) <==> exists|k: int| 0 <= k < headers.len() && #[trigger] headers[k]@ == "Name"@) by {
        if v.contains("Name"@) {
            let k = choose|k: int| 0 <= k < v.len() && v[k] == "Name"@;
            assert(headers[k]@ == "Name"@);
        }
        if exists|k: int| 0 <= k < headers.len() && #[trigger] headers[k]@ == "Name"@ {
            let k = choose|k: int| 0 <= k < headers.len() && #[trigger] headers[k]@ == "Name"@;
            assert(v[k] == "Name"@);
        }
    }
    assert(v.contains("Info"@) <==> exists|k: int| 0 <= k < headers.len() && #[trigger] headers[k]@ == "Info"@) by {
        if v.contains("Info"@) {
            let k = choose|k: int| 0 <= k < v.len() && v[k] == "Info"@;
            assert(headers[k]@ == "Info"@);
        }
        if exists|k: int| 0 <= k < headers.len() && #[trigger] headers[k]@ == "Info"@ {
            let k = choose|k: int| 0 <= k < headers.len() && #[trigger] headers[k]@ == "Info"@;
            assert(v[k] == "Info"@);
        }
    }
    assert(v.contains("Product fit"@) <==> exists|k: int| 0 <= k < headers.len() && #[trigger] headers[k]@ == "Product fit"@) by {
        if v.contains("Product fit"@) {
            let k = choose|k: int| 0 <= k < v.len() && v[k] == "Product fit"@;
            assert(headers[k]@ == "Product fit"@);
        }
        if exists|k: int| 0 <= k < headers.len() && #[trigger] headers[k]@ == "Product fit"@ {
            let k = choose|k: int| 0 <= k < headers.len() && #[trigger] headers[k]@ == "Product fit"@;
            assert(v[k] == "Product fit"@);
        }
    }
}

/// Reads `games.csv` by header name; extra columns are ignored, every row
/// is checked, and no name may appear twice.
pub fn parse(text: &str) -> (r: Result<Vec<GameRow>, String>)
    ensures
        match r {
            Ok(rows) => games_spec(text@) == Ok::<Seq<RowText>, Seq<char>>(row_texts(rows@)),
            Err(e) => games_spec(text@) == Err::<Seq<RowText>, Seq<char>>(e@),
        },
{
    let raw = chars_of(text);
    let mut start: usize = 0;
    assert(raw@.skip(0) == raw@);
    while start < raw.len() && raw[start] == '\u{feff}'
        invariant
            start <= raw.len(),
            raw@ == text@,
            trim_boms(text@) == trim_boms(raw@.skip(start as int)),
        decreases raw.len() - start,
    {
        assert(raw@.skip(start as int).drop_first() == raw@.skip(start + 1));
        start = start + 1;
    }
    let body = crate::text::slice_chars(&raw, start, raw.len());
    assert(body@ == raw@.skip(start as int));
    assert(trim_boms(body@) == body@);
    let body_text = string_of(&body);
    let (headers, records) = read_csv(body_text.as_str());
    let ghost recs = csv_read(trim_boms(text@)).1;
    let headers = match headers {
        Ok(h) => h,
        Err(e) => {
            return Err(e);
        },
    };
    let ghost hs = strs(headers@);
    assert(csv_read(trim_boms(text@)).0 == Ok::<Seq<Seq<char>>, Seq<char>>(hs));
    proof {
        lemma_missing_of(headers@);
    }
    match missing_column(headers.as_slice()) {
        Some(m) => {
            return Err(m);
        },
        None => {},
    }
    let mut rows: Vec<GameRow> = Vec::new();
    let mut i: usize = 0;
    assert(recs.take(0) =~= Seq::<Result<(u64, Seq<Seq<char>>), Seq<char>>>::empty());
    assert(row_texts(rows@) =~= Seq::<RowText>::empty());
    while i < records.len()
        invariant
            i <= records@.len(),
            hs == strs(headers@),
            csv_read(trim_boms(text@)).0 == Ok::<Seq<Seq<char>>, Seq<char>>(hs),
            recs == csv_read(trim_boms(text@)).1,
            missing_of(hs) is None,
            recs.len() == records@.len(),
            forall|k: int| 0 <= k < records@.len() ==> #[trigger] recs[k] == match records@[k] {
                Ok((line, cells)) => Ok((line, strs(cells@))),
                Err(e) => Err(e@),
            },
            rows_spec(hs, recs.take(i as int)) == Ok::<Seq<RowText>, Seq<char>>(row_texts(rows@)),
        decreases records.len() - i,
    {
        assert(recs.take(i + 1).drop_last() == recs.take(i as int));
        assert(recs.take(i + 1).last() == recs[i as int]);
        match &records[i] {
            Err(e) => {
                proof {
                    assert(recs[i as int] == Err::<(u64, Seq<Seq<char>>), Seq<char>>(e@));
                    assert(rows_spec(hs, recs.take(i + 1)) == Err::<Seq<RowText>, Seq<char>>(e@));
                    lemma_rows_err_stays(hs, recs, i as int + 1);
                }
                return Err(e.clone());
            },
            Ok((line, cells)) => {
                let row = match decode(&headers, cells, *line) {
                    Ok(g) => g,
                    Err(e) => {
                        proof {
                            assert(recs[i as int] == Ok::<(u64, Seq<Seq<char>>), Seq<char>>((*line, strs(cells@))));
                            assert(rows_spec(hs, recs.take(i + 1)) == Err::<Seq<RowText>, Seq<char>>(e@));
                            lemma_rows_err_stays(hs, recs, i as int + 1);
                        }
                        return Err(e);
                    },
                };
                let checked = match check_row(row) {
                    Ok(g) => g,
                    Err(e) => {
                        proof {
                            lemma_rows_err_stays(hs, recs, i as int + 1);
                        }
                        return Err(e);
                    },
                };
                let ghost before = rows@;
                rows.push(checked);
                assert(row_texts(rows@) =~= row_texts(before).push(
                    row_text(checked),
                ));
            },
        }
        i = i + 1;
    }
    assert(recs.take(records.len() as int) == recs);
    let ghost t = row_texts(rows@);
    assert forall|j: int| 0 <= j < rows@.len() implies (#[trigger] name_repeats(t, j) <==> repeats_earlier(rows@, j)) by {
        if name_repeats(t, j) {
            let q = choose|q: int| 0 <= q < j && #[trigger] str_lowercase(t[q].0) == str_lowercase(t[j].0);
            assert(str_lowercase(rows@[q].name@) == str_lowercase(rows@[j].name@));
        }
        if repeats_earlier(rows@, j) {
            let q = choose|q: int| 0 <= q < j && #[trigger] str_lowercase(rows@[q].name@) == str_lowercase(rows@[j].name@);
            assert(str_lowercase(t[q].0) == str_lowercase(t[j].0));
        }
    }
    match check_duplicates(rows.as_slice()) {
        Ok(()) => {
            assert(!exists|j: int| 0 <= j < t.len() && #[trigger] name_repeats(t, j)) by {
                if exists|j: int| 0 <= j < t.len() && #[trigger] name_repeats(t, j) {
                    let j = choose|j: int| 0 <= j < t.len() && #[trigger] name_repeats(t, j);
                    assert(!repeats_earlier(rows@, j));
                }
            }
            Ok(rows)
        },
        Err(m) => {
            proof {
                let j = choose|j: int|
                    0 <= j < rows@.len() && #[trigger] repeats_earlier(rows@, j) && distinct_upto(rows@, j)
                        && m@ == "duplicate game name "@ + debug_str(rows@[j].name@);
                assert(name_repeats(t, j));
                let c = choose|c: int|
                    0 <= c < t.len() && #[trigger] name_repeats(t, c) && forall|q: int|
                        0 <= q < c ==> !#[trigger] name_repeats(t, q);
                if c < j {
                    assert(!repeats_earlier(rows@, c));
                } else if j < c {
                    assert(!name_repeats(t, j));
                }
            }
            Err(m)
        },
    }
}

} // verus!
