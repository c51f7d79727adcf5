//! The build report: hard errors, warnings, and the items listed for
//! review.

use vstd::prelude::*;
use crate::text::{decimal, decimal_of, push_all, push_str, string_of};

verus! {

#[derive(Debug, Clone, Default, PartialEq, Eq)]
pub struct Report {
    pub stats: Stats,
    pub errors: Vec<Issue>,
    pub warnings: Vec<Issue>,
    pub review: Review,
}

#[derive(Debug, Clone, Default, PartialEq, Eq)]
pub struct Stats {
    pub keep_rows: usize,
    pub remove_rows: usize,
    pub ignored_rows: usize,
    pub games_built: usize,
    pub from_manifest: usize,
    pub from_addendum_only: usize,
}

#[derive(Debug, Clone, PartialEq, Eq)]
pub struct Issue {
    pub kind: IssueKind,
    pub game: Option<String>,
    pub message: String,
}

impl Issue {
    pub fn new(kind: IssueKind, game: Option<&str>, message: String) -> (r: Issue)
        ensures
            r.kind == kind,
            r.message == message,
            match game {
                Some(g) => r.game matches Some(s) && s@ == g@,
                None => r.game is None,
            },
    {
        let game = match game {
            Some(g) => Some(crate::text::string_of(&crate::text::chars_of(g))),
            None => None,
        };
        Issue { kind, game, message }
    }
}

#[derive(Debug, Clone, Copy, PartialEq, Eq, Structural)]
pub enum IssueKind {
    // Hard errors.
    /// The manifest's bytes don't hash to `manifest.lock`'s `sha256`.
    ManifestHash,
    /// An input file can't be read or parsed at all.
    InvalidInput,
    /// A `Keep` name isn't in the manifest and has no addendum entry.
    UnresolvedName,
    DuplicateName,
    InvalidProductFit,
    /// `addendum.yaml` doesn't match the entry shape.
    AddendumSchema,
    /// A `Keep` game ended up with no save target.
    NoUsableSave,
    /// The finished entry fails the bundle validator.
    InvalidEntry,
    // Warnings.
    AddendumShadowed,
    AddendumWithoutKeepRow,
    DroppedTarget,
    /// An `Ignored` row: left out until someone addresses it.
    IgnoredGame,
}

#[derive(Debug, Clone, Default, PartialEq, Eq)]
pub struct Review {
    /// Every addendum `override`, so fixes upstream has since made can go.
    pub overrides: Vec<OverrideItem>,
    /// Every game whose save set has more than one target.
    pub multi_target: Vec<MultiTargetItem>,
    /// Every save target that is a whole folder tagged both config and save.
    pub config_save_folders: Vec<FolderItem>,
    /// `launch` entries that didn't become executables (documents, paths
    /// outside the install folder). Informational.
    pub dropped_launch: Vec<FolderItem>,
}

#[derive(Debug, Clone, PartialEq, Eq)]
pub struct OverrideItem {
    pub game: String,
    pub fields: Vec<String>,
}

#[derive(Debug, Clone, PartialEq, Eq)]
pub struct MultiTargetItem {
    pub game: String,
    pub targets: usize,
}

#[derive(Debug, Clone, PartialEq, Eq)]
pub struct FolderItem {
    pub game: String,
    pub path: String,
}

impl Report {
    pub fn has_errors(&self) -> (r: bool)
        ensures
            r == (self.errors@.len() > 0),
    {
        self.errors.len() > 0
    }
}

// ---- readable text -----------------------------------------------------------

/// The kebab-case name a kind is written with.
pub open spec fn kind_label(k: IssueKind) -> Seq<char> {
    match k {
        IssueKind::ManifestHash => "manifest-hash"@,
        IssueKind::InvalidInput => "invalid-input"@,
        IssueKind::UnresolvedName => "unresolved-name"@,
        IssueKind::DuplicateName => "duplicate-name"@,
        IssueKind::InvalidProductFit => "invalid-product-fit"@,
        IssueKind::AddendumSchema => "addendum-schema"@,
        IssueKind::NoUsableSave => "no-usable-save"@,
        IssueKind::InvalidEntry => "invalid-entry"@,
        IssueKind::AddendumShadowed => "addendum-shadowed"@,
        IssueKind::AddendumWithoutKeepRow => "addendum-without-keep-row"@,
        IssueKind::DroppedTarget => "dropped-target"@,
        IssueKind::IgnoredGame => "ignored-game"@,
    }
}

impl IssueKind {
    /// The kebab-case name of the kind, as the JSON report spells it.
    pub fn name(self) -> (r: &'static str)
        ensures
            r@ == kind_label(self),
    {
        match self {
            IssueKind::ManifestHash => "manifest-hash",
            IssueKind::InvalidInput => "invalid-input",
            IssueKind::UnresolvedName => "unresolved-name",
            IssueKind::DuplicateName => "duplicate-name",
            IssueKind::InvalidProductFit => "invalid-product-fit",
            IssueKind::AddendumSchema => "addendum-schema",
            IssueKind::NoUsableSave => "no-usable-save",
            IssueKind::InvalidEntry => "invalid-entry",
            IssueKind::AddendumShadowed => "addendum-shadowed",
            IssueKind::AddendumWithoutKeepRow => "addendum-without-keep-row",
            IssueKind::DroppedTarget => "dropped-target",
            IssueKind::IgnoredGame => "ignored-game",
        }
    }
}

/// `[kind] game: message`, or `[kind] message` when the issue names no game.
pub open spec fn issue_text(i: Issue) -> Seq<char> {
    let head = "["@ + kind_label(i.kind) + "] "@;
    match i.game {
        Some(g) => head + g@ + ": "@ + i.message@,
        None => head + i.message@,
    }
}

impl Issue {
    /// The issue as one line of text.
    pub fn text(&self) -> (r: String)
        ensures
            r@ == issue_text(*self),
    {
        let mut out: Vec<char> = Vec::new();
        push_issue(&mut out, self);
        string_of(&out)
    }
}

fn push_issue(out: &mut Vec<char>, issue: &Issue)
    ensures
        final(out)@ == old(out)@ + issue_text(*issue),
{
    let ghost start = out@;
    push_str(out, "[");
    push_str(out, issue.kind.name());
    push_str(out, "] ");
    match &issue.game {
        Some(g) => {
            push_str(out, g.as_str());
            push_str(out, ": ");
        },
        None => {},
    }
    push_str(out, issue.message.as_str());
    proof {
        let head = "["@ + kind_label(issue.kind) + "] "@;
        if issue.game is Some {
            let g = issue.game->0;
            assert(out@ == start + (head + g@ + ": "@ + issue.message@));
        } else {
            assert(out@ == start + (head + issue.message@));
        }
    }
}

/// The items joined with `", "` between them.
pub open spec fn joined(items: Seq<String>) -> Seq<char>
    decreases items.len(),
{
    if items.len() == 0 {
        Seq::empty()
    } else if items.len() == 1 {
        items[0]@
    } else {
        joined(items.drop_last()) + ", "@ + items.last()@
    }
}

/// One line per override: `  override  game: field, field`.
pub open spec fn override_lines(items: Seq<OverrideItem>) -> Seq<char>
    decreases items.len(),
{
    if items.len() == 0 {
        Seq::empty()
    } else {
        let item = items.last();
        override_lines(items.drop_last()) + "  override  "@ + item.game@ + ": "@ + joined(item.fields@)
            + "\n"@
    }
}

/// One line per folder: `  folder    game: path`.
pub open spec fn folder_lines(items: Seq<FolderItem>) -> Seq<char>
    decreases items.len(),
{
    if items.len() == 0 {
        Seq::empty()
    } else {
        let item = items.last();
        folder_lines(items.drop_last()) + "  folder    "@ + item.game@ + ": "@ + item.path@ + "\n"@
    }
}

/// One indented line per issue.
pub open spec fn issue_lines(items: Seq<Issue>) -> Seq<char>
    decreases items.len(),
{
    if items.len() == 0 {
        Seq::empty()
    } else {
        issue_lines(items.drop_last()) + "  "@ + issue_text(items.last()) + "\n"@
    }
}

/// A counted block of issues under a heading, or nothing when there are none.
pub open spec fn issue_block(items: Seq<Issue>, heading: Seq<char>) -> Seq<char> {
    if items.len() == 0 {
        Seq::empty()
    } else {
        decimal(items.len()) + heading + "\n"@ + issue_lines(items)
    }
}

/// The first line: what was built from what.
pub open spec fn stats_line(s: Stats) -> Seq<char> {
    "catalog: "@ + decimal(s.games_built as nat) + " games built ("@ + decimal(s.from_manifest as nat)
        + " from the manifest, "@ + decimal(s.from_addendum_only as nat) + " addendum-only) of "@
        + decimal(s.keep_rows as nat) + " Keep rows; "@ + decimal(s.remove_rows as nat)
        + " Remove rows skipped; "@ + decimal(s.ignored_rows as nat)
        + " Ignored rows need attention"@ + "\n"@
}

/// The second line: how much is listed for review.
pub open spec fn review_line(r: Review) -> Seq<char> {
    "review: "@ + decimal(r.overrides@.len()) + " overrides, "@ + decimal(r.multi_target@.len())
        + " multi-target games, "@ + decimal(r.config_save_folders@.len()) + " config+save folders, "@
        + decimal(r.dropped_launch@.len()) + " dropped launch entries"@ + "\n"@
}

/// The readable summary of a build: the counts, the overrides and
/// config+save folders one per line, then the warnings and the errors.
pub open spec fn summary_text(r: Report) -> Seq<char> {
    stats_line(r.stats) + review_line(r.review) + override_lines(r.review.overrides@) + folder_lines(
        r.review.config_save_folders@,
    ) + issue_block(r.warnings@, " warnings:"@) + issue_block(r.errors@, " errors:"@)
}

fn push_count(out: &mut Vec<char>, n: usize)
    ensures
        final(out)@ == old(out)@ + decimal(n as nat),
{
    let digits = decimal_of(n as u64);
    push_all(out, &digits);
}

fn push_joined(out: &mut Vec<char>, items: &Vec<String>)
    ensures
        final(out)@ == old(out)@ + joined(items@),
{
    let ghost start = out@;
    let mut i: usize = 0;
    while i < items.len()
        invariant
            i <= items.len(),
            out@ == start + joined(items@.take(i as int)),
        decreases items.len() - i,
    {
        if i > 0 {
            push_str(out, ", ");
        }
        push_str(out, items[i].as_str());
        proof {
            let next = items@.take(i + 1);
            assert(next.drop_last() == items@.take(i as int));
            assert(next.last() == items@[i as int]);
            if i == 0 {
                assert(out@ == start + joined(next));
            } else {
                assert(out@ == start + (joined(items@.take(i as int)) + ", "@ + items@[i as int]@));
            }
        }
        i = i + 1;
    }
    assert(items@.take(items.len() as int) == items@);
}

fn push_overrides(out: &mut Vec<char>, items: &Vec<OverrideItem>)
    ensures
        final(out)@ == old(out)@ + override_lines(items@),
{
    let ghost start = out@;
    let mut i: usize = 0;
    while i < items.len()
        invariant
            i <= items.len(),
            out@ == start + override_lines(items@.take(i as int)),
        decreases items.len() - i,
    {
        let item = &items[i];
        let ghost before = out@;
        push_str(out, "  override  ");
        push_str(out, item.game.as_str());
        push_str(out, ": ");
        push_joined(out, &item.fields);
        push_str(out, "\n");
        proof {
            let next = items@.take(i + 1);
            assert(next.drop_last() == items@.take(i as int));
            assert(next.last() == items@[i as int]);
            assert(out@ == before + ("  override  "@ + item.game@ + ": "@ + joined(item.fields@)
                + "\n"@));
        }
        i = i + 1;
    }
    assert(items@.take(items.len() as int) == items@);
}

fn push_folders(out: &mut Vec<char>, items: &Vec<FolderItem>)
    ensures
        final(out)@ == old(out)@ + folder_lines(items@),
{
    let ghost start = out@;
    let mut i: usize = 0;
    while i < items.len()
        invariant
            i <= items.len(),
            out@ == start + folder_lines(items@.take(i as int)),
        decreases items.len() - i,
    {
        let item = &items[i];
        let ghost before = out@;
        push_str(out, "  folder    ");
        push_str(out, item.game.as_str());
        push_str(out, ": ");
        push_str(out, item.path.as_str());
        push_str(out, "\n");
        proof {
            let next = items@.take(i + 1);
            assert(next.drop_last() == items@.take(i as int));
            assert(next.last() == items@[i as int]);
            assert(out@ == before + ("  folder    "@ + item.game@ + ": "@ + item.path@ + "\n"@));
        }
        i = i + 1;
    }
    assert(items@.take(items.len() as int) == items@);
}

fn push_issue_lines(out: &mut Vec<char>, items: &Vec<Issue>)
    ensures
        final(out)@ == old(out)@ + issue_lines(items@),
{
    let ghost start = out@;
    let mut i: usize = 0;
    while i < items.len()
        invariant
            i <= items.len(),
            out@ == start + issue_lines(items@.take(i as int)),
        decreases items.len() - i,
    {
        let ghost before = out@;
        push_str(out, "  ");
        push_issue(out, &items[i]);
        push_str(out, "\n");
        proof {
            let next = items@.take(i + 1);
            assert(next.drop_last() == items@.take(i as int));
            assert(next.last() == items@[i as int]);
            assert(out@ == before + ("  "@ + issue_text(items@[i as int]) + "\n"@));
        }
        i = i + 1;
    }
    assert(items@.take(items.len() as int) == items@);
}

fn push_issue_block(out: &mut Vec<char>, items: &Vec<Issue>, heading: &str)
    ensures
        final(out)@ == old(out)@ + issue_block(items@, heading@),
{
    if items.len() > 0 {
        let ghost start = out@;
        push_count(out, items.len());
        push_str(out, heading);
        push_str(out, "\n");
        push_issue_lines(out, items);
        assert(out@ == start + (decimal(items@.len()) + heading@ + "\n"@ + issue_lines(items@)));
    }
}

impl Report {
    /// The readable summary printed after a build.
    pub fn summary(&self) -> (r: String)
        ensures
            r@ == summary_text(*self),
    {
        let s = &self.stats;
        let mut out: Vec<char> = Vec::new();
        push_str(&mut out, "catalog: ");
        push_count(&mut out, s.games_built);
        push_str(&mut out, " games built (");
        push_count(&mut out, s.from_manifest);
        push_str(&mut out, " from the manifest, ");
        push_count(&mut out, s.from_addendum_only);
        push_str(&mut out, " addendum-only) of ");
        push_count(&mut out, s.keep_rows);
        push_str(&mut out, " Keep rows; ");
        push_count(&mut out, s.remove_rows);
        push_str(&mut out, " Remove rows skipped; ");
        push_count(&mut out, s.ignored_rows);
        push_str(&mut out, " Ignored rows need attention");
        push_str(&mut out, "\n");
        assert(out@ == stats_line(self.stats));
        let r = &self.review;
        push_str(&mut out, "review: ");
        push_count(&mut out, r.overrides.len());
        push_str(&mut out, " overrides, ");
        push_count(&mut out, r.multi_target.len());
        push_str(&mut out, " multi-target games, ");
        push_count(&mut out, r.config_save_folders.len());
        push_str(&mut out, " config+save folders, ");
        push_count(&mut out, r.dropped_launch.len());
        push_str(&mut out, " dropped launch entries");
        push_str(&mut out, "\n");
        assert(out@ == stats_line(self.stats) + review_line(self.review));
        push_overrides(&mut out, &r.overrides);
        push_folders(&mut out, &r.config_save_folders);
        push_issue_block(&mut out, &self.warnings, " warnings:");
        push_issue_block(&mut out, &self.errors, " errors:");
        string_of(&out)
    }
}

} // verus!
