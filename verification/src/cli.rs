//! The command-line client's own rules: its exit codes and the text it
//! prints for operations and history rows.

use vstd::prelude::*;
use crate::placeholders::opt_view;
use crate::host::{opt_str, FlushItem, FlushPreview, Phase};
use crate::paths::{byte_len, utf8_len};
use crate::text::{chars_of, decimal, decimal_of, eq_lit, push_all, push_str, slice_chars, string_of};

verus! {

/// How a command ended, told apart by the exit code.
#[derive(Debug, Clone, Copy, PartialEq, Eq, Structural)]
pub enum Exit {
    Success,
    /// The operation ran and failed.
    Failed,
    /// The host refused it (busy, unavailable, invalid, ...).
    Rejected,
    /// No host: not running, or unreachable.
    NoHost,
}

impl Exit {
    /// The process exit code: 0, 1, 3 or 4 (2 is the usage error the
    /// argument parser reports).
    pub fn code(self) -> (r: u8)
        ensures
            r == match self {
                Exit::Success => 0u8,
                Exit::Failed => 1u8,
                Exit::Rejected => 3u8,
                Exit::NoHost => 4u8,
            },
    {
        match self {
            Exit::Success => 0,
            Exit::Failed => 1,
            Exit::Rejected => 3,
            Exit::NoHost => 4,
        }
    }
}

/// The exit code a finished operation ends the command with: a
/// succeeded or cancelled operation is a success, anything else a failure.
pub fn outcome_exit(status: OpStatus) -> (r: Exit)
    ensures
        r == (if status == OpStatus::Succeeded || status == OpStatus::Cancelled {
            Exit::Success
        } else {
            Exit::Failed
        }),
{
    match status {
        OpStatus::Succeeded | OpStatus::Cancelled => Exit::Success,
        _ => Exit::Failed,
    }
}

/// Where an operation is.
#[derive(Debug, Clone, Copy, PartialEq, Eq, Structural)]
pub enum OpStatus {
    Accepted,
    Running,
    CountingDown,
    Waiting,
    Succeeded,
    Failed,
    Cancelled,
}

pub open spec fn status_words(s: OpStatus) -> Seq<char> {
    match s {
        OpStatus::Accepted => "accepted"@,
        OpStatus::Running => "running"@,
        OpStatus::CountingDown => "counting down"@,
        OpStatus::Waiting => "waiting for the game"@,
        OpStatus::Succeeded => "done"@,
        OpStatus::Failed => "failed"@,
        OpStatus::Cancelled => "cancelled"@,
    }
}

/// The words an operation's status is printed with.
pub fn status_text(status: OpStatus) -> (r: &'static str)
    ensures
        r@ == status_words(status),
{
    match status {
        OpStatus::Accepted => "accepted",
        OpStatus::Running => "running",
        OpStatus::CountingDown => "counting down",
        OpStatus::Waiting => "waiting for the game",
        OpStatus::Succeeded => "done",
        OpStatus::Failed => "failed",
        OpStatus::Cancelled => "cancelled",
    }
}

/// What a finished operation reports.
#[derive(Debug, Clone, Default)]
pub struct OpResult {
    pub checkpoint: Option<String>,
    pub recovery: Option<String>,
    pub removed_files: Option<u64>,
    pub count: Option<u64>,
    pub failures: Vec<String>,
}

/// An operation as the client reads it: its kind (`save`, `load`, ...),
/// its status, what it reported, and the text of its failure.
#[derive(Debug, Clone)]
pub struct Operation {
    pub kind: String,
    pub status: OpStatus,
    pub result: Option<OpResult>,
    pub error: Option<String>,
}

/// An optional text, empty when absent.
pub open spec fn or_empty(t: Option<String>) -> Seq<char> {
    match t {
        Some(s) => s@,
        None => Seq::empty(),
    }
}

/// One line per file a flush could not delete.
pub open spec fn failure_lines(failures: Seq<String>) -> Seq<char>
    decreases failures.len(),
{
    if failures.len() == 0 {
        Seq::empty()
    } else {
        failure_lines(failures.drop_last()) + "\n  not deleted: "@ + failures.last()@
    }
}

/// The checkpoint an operation reported, empty when none.
pub open spec fn res_checkpoint(r: Option<OpResult>) -> Seq<char> {
    match r {
        Some(x) => or_empty(x.checkpoint),
        None => Seq::empty(),
    }
}

/// The recovery point an operation reported, empty when none.
pub open spec fn res_recovery(r: Option<OpResult>) -> Seq<char> {
    match r {
        Some(x) => or_empty(x.recovery),
        None => Seq::empty(),
    }
}

pub open spec fn res_removed(r: Option<OpResult>) -> Option<u64> {
    match r {
        Some(x) => x.removed_files,
        None => None,
    }
}

pub open spec fn res_count(r: Option<OpResult>) -> nat {
    match r {
        Some(x) => match x.count {
            Some(n) => n as nat,
            None => 0nat,
        },
        None => 0nat,
    }
}

pub open spec fn res_failures(r: Option<OpResult>) -> Seq<String> {
    match r {
        Some(x) => x.failures@,
        None => Seq::empty(),
    }
}

/// A finished Load or Revert: what it restored, where the state before it
/// went, and the newer files it removed, when any.
pub open spec fn restore_text(load: bool, r: Option<OpResult>) -> Seq<char> {
    (if load {
        "loaded"@
    } else {
        "reverted to"@
    }) + " "@ + res_checkpoint(r) + " (kept the previous state as "@ + res_recovery(r) + ")"@ + match res_removed(r) {
        Some(n) => if n > 0 {
            "; removed "@ + decimal(n as nat) + " newer file(s), kept in the recovery point"@
        } else {
            Seq::empty()
        },
        None => Seq::empty(),
    }
}

/// A finished Flush: how many checkpoints went, and the files it could not
/// delete.
pub open spec fn flush_text(r: Option<OpResult>) -> Seq<char> {
    "flushed "@ + decimal(res_count(r)) + " checkpoint(s)"@ + failure_lines(res_failures(r))
}

/// What a succeeded operation did, by its kind, from what it reported
/// (nothing reported reads as empty texts, no numbers and no failures).
pub open spec fn success_text(kind: Seq<char>, r: Option<OpResult>) -> Seq<char> {
    if kind == "save"@ {
        "saved checkpoint "@ + res_checkpoint(r)
    } else if kind == "load"@ || kind == "revert"@ {
        restore_text(kind == "load"@, r)
    } else if kind == "delete"@ {
        "deleted"@
    } else if kind == "flush"@ {
        flush_text(r)
    } else {
        kind + ": done"@
    }
}

/// How an operation ended, in words.
pub open spec fn outcome_text(op: Operation) -> Seq<char> {
    match op.status {
        OpStatus::Succeeded => success_text(op.kind@, op.result),
        OpStatus::Cancelled => op.kind@ + ": cancelled"@,
        _ => match op.error {
            Some(e) => op.kind@ + " failed: "@ + e@,
            None => op.kind@ + " failed"@,
        },
    }
}

fn push_opt(out: &mut Vec<char>, t: &Option<String>)
    ensures
        final(out)@ == old(out)@ + or_empty(*t),
{
    match t {
        Some(s) => push_str(out, s.as_str()),
        None => {
            assert(old(out)@ + Seq::<char>::empty() =~= old(out)@);
        },
    }
}

fn push_checkpoint(out: &mut Vec<char>, result: &Option<OpResult>)
    ensures
        final(out)@ == old(out)@ + res_checkpoint(*result),
{
    match result {
        Some(x) => push_opt(out, &x.checkpoint),
        None => {
            assert(old(out)@ + Seq::<char>::empty() =~= old(out)@);
        },
    }
}

fn push_restore(out: &mut Vec<char>, load: bool, result: &Option<OpResult>)
    ensures
        final(out)@ == old(out)@ + restore_text(load, *result),
{
    let ghost start = out@;
    if load {
        push_str(out, "loaded");
    } else {
        push_str(out, "reverted to");
    }
    push_str(out, " ");
    push_checkpoint(out, result);
    push_str(out, " (kept the previous state as ");
    match result {
        Some(x) => push_opt(out, &x.recovery),
        None => {},
    }
    push_str(out, ")");
    let removed: Option<u64> = match result {
        Some(x) => x.removed_files,
        None => None,
    };
    match removed {
        Some(n) => {
            if n > 0 {
                push_str(out, "; removed ");
                push_all(out, &decimal_of(n));
                push_str(out, " newer file(s), kept in the recovery point");
            }
        },
        None => {},
    }
    assert(out@ =~= start + restore_text(load, *result));
}

fn push_flush(out: &mut Vec<char>, result: &Option<OpResult>)
    ensures
        final(out)@ == old(out)@ + flush_text(*result),
{
    let ghost start = out@;
    let empty: Vec<String> = Vec::new();
    let (count, failures): (u64, &Vec<String>) = match result {
        Some(x) => (
            match x.count {
                Some(n) => n,
                None => 0,
            },
            &x.failures,
        ),
        None => (0, &empty),
    };
    assert(failures@ == res_failures(*result));
    push_str(out, "flushed ");
    push_all(out, &decimal_of(count));
    push_str(out, " checkpoint(s)");
    let ghost head = out@;
    let mut i: usize = 0;
    while i < failures.len()
        invariant
            i <= failures@.len(),
            out@ == head + failure_lines(failures@.take(i as int)),
        decreases failures.len() - i,
    {
        assert(failures@.take(i + 1).drop_last() == failures@.take(i as int));
        push_str(out, "\n  not deleted: ");
        push_str(out, failures[i].as_str());
        assert(out@ =~= head + failure_lines(failures@.take(i + 1)));
        i = i + 1;
    }
    assert(failures@.take(failures.len() as int) == failures@);
    assert(out@ =~= start + flush_text(*result));
}

fn push_success(out: &mut Vec<char>, kind: &String, result: &Option<OpResult>)
    ensures
        final(out)@ == old(out)@ + success_text(kind@, *result),
{
    let ghost start = out@;
    let k = chars_of(kind.as_str());
    if eq_lit(&k, "save") {
        push_str(out, "saved checkpoint ");
        push_checkpoint(out, result);
        assert(out@ =~= start + success_text(kind@, *result));
    } else if eq_lit(&k, "load") || eq_lit(&k, "revert") {
        let load = eq_lit(&k, "load");
        push_restore(out, load, result);
    } else if eq_lit(&k, "delete") {
        push_str(out, "deleted");
    } else if eq_lit(&k, "flush") {
        push_flush(out, result);
    } else {
        push_str(out, kind.as_str());
        push_str(out, ": done");
        assert(out@ =~= start + success_text(kind@, *result));
    }
}

/// How an operation ended, as the client prints it.
pub fn describe_outcome(op: &Operation) -> (r: String)
    ensures
        r@ == outcome_text(*op),
{
    let mut out: Vec<char> = Vec::new();
    match op.status {
        OpStatus::Succeeded => {
            push_success(&mut out, &op.kind, &op.result);
        },
        OpStatus::Cancelled => {
            push_str(&mut out, op.kind.as_str());
            push_str(&mut out, ": cancelled");
        },
        _ => {
            push_str(&mut out, op.kind.as_str());
            match &op.error {
                Some(e) => {
                    push_str(&mut out, " failed: ");
                    push_str(&mut out, e.as_str());
                },
                None => {
                    push_str(&mut out, " failed");
                },
            }
        },
    }
    string_of(&out)
}

// ---- history -------------------------------------------------------------------

/// What a history row records.
#[derive(Debug, Clone, Copy, PartialEq, Eq, Structural)]
pub enum RowKind {
    Saved,
    Loaded,
    Reverted,
    GameStarted,
    GameClosed,
}

pub open spec fn row_kind_words(k: RowKind) -> Seq<char> {
    match k {
        RowKind::Saved => "Saved"@,
        RowKind::Loaded => "Loaded"@,
        RowKind::Reverted => "Reverted"@,
        RowKind::GameStarted => "Game started"@,
        RowKind::GameClosed => "Game closed"@,
    }
}

/// A history row as the client reads it; `unavailable` is the name of
/// the reason its checkpoint can't be used.
#[derive(Debug, Clone)]
pub struct HistoryEntry {
    pub at: String,
    pub kind: RowKind,
    pub label: Option<String>,
    pub saved_at: Option<String>,
    pub removed_files: Option<u64>,
    pub cloud_replaced: bool,
    pub checkpoint: Option<String>,
    pub unavailable: Option<String>,
}

/// The row's label, quoted.
pub open spec fn label_part(row: HistoryEntry) -> Seq<char> {
    match row.label {
        Some(l) => " \""@ + l@ + "\""@,
        None => Seq::empty(),
    }
}

/// When the restored save was made (a Saved row says nothing of it).
pub open spec fn saved_at_part(row: HistoryEntry) -> Seq<char> {
    match row.saved_at {
        Some(a) => if row.kind != RowKind::Saved {
            " · "@ + a@
        } else {
            Seq::empty()
        },
        None => Seq::empty(),
    }
}

/// How many newer saves a restore removed, when any.
pub open spec fn removed_part(row: HistoryEntry) -> Seq<char> {
    match row.removed_files {
        Some(n) => if n > 0 {
            " · removed "@ + decimal(n as nat) + " newer save(s)"@
        } else {
            Seq::empty()
        },
        None => Seq::empty(),
    }
}

pub open spec fn cloud_part(row: HistoryEntry) -> Seq<char> {
    if row.cloud_replaced {
        " · Steam Cloud replaced the restored save"@
    } else {
        Seq::empty()
    }
}

pub open spec fn checkpoint_part(row: HistoryEntry) -> Seq<char> {
    match row.checkpoint {
        Some(c) => "  ["@ + c@ + "]"@,
        None => Seq::empty(),
    }
}

pub open spec fn unavailable_part(row: HistoryEntry) -> Seq<char> {
    match row.unavailable {
        Some(u) => "  (unavailable: "@ + u@ + ")"@,
        None => Seq::empty(),
    }
}

/// A history row as one line: when and what, then its label, when the
/// restored save was made, files removed, a Steam Cloud replacement, its
/// checkpoint and why that can't be used, each only when there is one.
pub open spec fn history_text(row: HistoryEntry) -> Seq<char> {
    row.at@ + "  "@ + row_kind_words(row.kind) + label_part(row) + saved_at_part(row) + removed_part(row)
        + cloud_part(row) + checkpoint_part(row) + unavailable_part(row)
}

fn kind_words(k: RowKind) -> (r: &'static str)
    ensures
        r@ == row_kind_words(k),
{
    match k {
        RowKind::Saved => "Saved",
        RowKind::Loaded => "Loaded",
        RowKind::Reverted => "Reverted",
        RowKind::GameStarted => "Game started",
        RowKind::GameClosed => "Game closed",
    }
}

fn push_label(out: &mut Vec<char>, row: &HistoryEntry)
    ensures
        final(out)@ == old(out)@ + label_part(*row),
{
    let ghost start = out@;
    match &row.label {
        Some(l) => {
            push_str(out, " \"");
            push_str(out, l.as_str());
            push_str(out, "\"");
        },
        None => {},
    }
    assert(out@ =~= start + label_part(*row));
}

fn push_saved_at(out: &mut Vec<char>, row: &HistoryEntry)
    ensures
        final(out)@ == old(out)@ + saved_at_part(*row),
{
    let ghost start = out@;
    match &row.saved_at {
        Some(a) => {
            if row.kind != RowKind::Saved {
                push_str(out, " · ");
                push_str(out, a.as_str());
            }
        },
        None => {},
    }
    assert(out@ =~= start + saved_at_part(*row));
}

fn push_removed(out: &mut Vec<char>, row: &HistoryEntry)
    ensures
        final(out)@ == old(out)@ + removed_part(*row),
{
    let ghost start = out@;
    match row.removed_files {
        Some(n) => {
            if n > 0 {
                push_str(out, " · removed ");
                push_all(out, &decimal_of(n));
                push_str(out, " newer save(s)");
            }
        },
        None => {},
    }
    assert(out@ =~= start + removed_part(*row));
}

fn push_marks(out: &mut Vec<char>, row: &HistoryEntry)
    ensures
        final(out)@ == old(out)@ + cloud_part(*row) + checkpoint_part(*row) + unavailable_part(*row),
{
    let ghost start = out@;
    if row.cloud_replaced {
        push_str(out, " · Steam Cloud replaced the restored save");
    }
    assert(out@ =~= start + cloud_part(*row));
    let ghost s1 = out@;
    match &row.checkpoint {
        Some(c) => {
            push_str(out, "  [");
            push_str(out, c.as_str());
            push_str(out, "]");
        },
        None => {},
    }
    assert(out@ =~= s1 + checkpoint_part(*row));
    let ghost s2 = out@;
    match &row.unavailable {
        Some(u) => {
            push_str(out, "  (unavailable: ");
            push_str(out, u.as_str());
            push_str(out, ")");
        },
        None => {},
    }
    assert(out@ =~= s2 + unavailable_part(*row));
    assert(out@ =~= start + cloud_part(*row) + checkpoint_part(*row) + unavailable_part(*row));
}

/// A history row as the client prints it.
pub fn history_line(row: &HistoryEntry) -> (r: String)
    ensures
        r@ == history_text(*row),
{
    let mut out = chars_of(row.at.as_str());
    push_str(&mut out, "  ");
    push_str(&mut out, kind_words(row.kind));
    push_label(&mut out, row);
    push_saved_at(&mut out, row);
    push_removed(&mut out, row);
    push_marks(&mut out, row);
    assert(out@ =~= history_text(*row));
    string_of(&out)
}


// ---- the game list ---------------------------------------------------------------

/// Whether an action is available, with the name of the reason when not.
#[derive(Debug, Clone)]
pub struct Availability {
    pub available: bool,
    pub reason: Option<String>,
}

/// The newest checkpoint of a game.
#[derive(Debug, Clone)]
pub struct Latest {
    pub created_at: String,
    pub label: Option<String>,
}

/// A game as the client lists it; `blocked` is the kind of the interrupted
/// operation it waits on.
#[derive(Debug, Clone)]
pub struct GameSummary {
    pub id: String,
    pub name: String,
    pub install_tag: Option<String>,
    pub running: bool,
    pub save: Availability,
    pub load: Availability,
    pub latest: Option<Latest>,
    pub blocked: Option<String>,
}

/// `yes`, or the reason (nothing when none is given).
pub open spec fn availability_words(a: Availability) -> Seq<char> {
    if a.available {
        "yes"@
    } else {
        or_empty(a.reason)
    }
}

pub open spec fn latest_part(l: Option<Latest>) -> Seq<char> {
    match l {
        Some(x) => " latest "@ + x.created_at@ + match x.label {
            Some(t) => " \""@ + t@ + "\""@,
            None => Seq::empty(),
        },
        None => Seq::empty(),
    }
}

/// The game's name, install tag and whether it runs.
pub open spec fn game_head(g: GameSummary) -> Seq<char> {
    g.name@ + match g.install_tag {
        Some(t) => " ["@ + t@ + "]"@,
        None => Seq::empty(),
    } + if g.running {
        " running"@
    } else {
        Seq::empty()
    }
}

/// What blocks the game, when anything does.
pub open spec fn blocked_part(g: GameSummary) -> Seq<char> {
    match g.blocked {
        Some(b) => "  BLOCKED: "@ + b@,
        None => Seq::empty(),
    }
}

/// A game in one line: name, install tag, whether it runs, id, what Save
/// and Load say, the newest checkpoint and what blocks it.
pub open spec fn game_text(g: GameSummary) -> Seq<char> {
    game_head(g) + "  ("@ + g.id@ + ")  save: "@ + availability_words(g.save) + "  load: "@ + availability_words(g.load)
        + latest_part(g.latest) + blocked_part(g)
}

/// The lines joined with line breaks.
pub open spec fn game_lines(games: Seq<GameSummary>) -> Seq<char>
    decreases games.len(),
{
    if games.len() == 0 {
        Seq::empty()
    } else if games.len() == 1 {
        game_text(games[0])
    } else {
        game_lines(games.drop_last()) + "\n"@ + game_text(games.last())
    }
}

/// The game list, or `(no games)`.
pub open spec fn games_text(games: Seq<GameSummary>) -> Seq<char> {
    if games.len() == 0 {
        "(no games)"@
    } else {
        game_lines(games)
    }
}

fn push_availability(out: &mut Vec<char>, a: &Availability)
    ensures
        final(out)@ == old(out)@ + availability_words(*a),
{
    if a.available {
        push_str(out, "yes");
    } else {
        push_opt(out, &a.reason);
    }
}

fn push_latest(out: &mut Vec<char>, l: &Option<Latest>)
    ensures
        final(out)@ == old(out)@ + latest_part(*l),
{
    let ghost start = out@;
    match l {
        Some(x) => {
            push_str(out, " latest ");
            push_str(out, x.created_at.as_str());
            match &x.label {
                Some(t) => {
                    push_str(out, " \"");
                    push_str(out, t.as_str());
                    push_str(out, "\"");
                },
                None => {},
            }
        },
        None => {},
    }
    assert(out@ =~= start + latest_part(*l));
}

fn push_game_head(out: &mut Vec<char>, g: &GameSummary)
    ensures
        final(out)@ == old(out)@ + game_head(*g),
{
    let ghost start = out@;
    push_str(out, g.name.as_str());
    match &g.install_tag {
        Some(t) => {
            push_str(out, " [");
            push_str(out, t.as_str());
            push_str(out, "]");
        },
        None => {},
    }
    if g.running {
        push_str(out, " running");
    }
    assert(out@ =~= start + game_head(*g));
}

fn push_blocked(out: &mut Vec<char>, g: &GameSummary)
    ensures
        final(out)@ == old(out)@ + blocked_part(*g),
{
    let ghost start = out@;
    match &g.blocked {
        Some(b) => {
            push_str(out, "  BLOCKED: ");
            push_str(out, b.as_str());
        },
        None => {},
    }
    assert(out@ =~= start + blocked_part(*g));
}

fn push_game(out: &mut Vec<char>, g: &GameSummary)
    ensures
        final(out)@ == old(out)@ + game_text(*g),
{
    let ghost start = out@;
    push_game_head(out, g);
    push_str(out, "  (");
    push_str(out, g.id.as_str());
    push_str(out, ")  save: ");
    push_availability(out, &g.save);
    push_str(out, "  load: ");
    push_availability(out, &g.load);
    push_latest(out, &g.latest);
    push_blocked(out, g);
    assert(out@ =~= start + game_text(*g));
}

/// The game list as the client prints it.
pub fn games(list: &Vec<GameSummary>) -> (r: String)
    ensures
        r@ == games_text(list@),
{
    if list.len() == 0 {
        return string_of(&chars_of("(no games)"));
    }
    let mut out: Vec<char> = Vec::new();
    let mut i: usize = 0;
    while i < list.len()
        invariant
            i <= list@.len(),
            out@ == game_lines(list@.take(i as int)),
        decreases list.len() - i,
    {
        assert(list@.take(i + 1).drop_last() == list@.take(i as int));
        if i > 0 {
            push_str(&mut out, "\n");
        }
        push_game(&mut out, &list[i]);
        proof {
            if i == 0 {
                assert(out@ =~= game_lines(list@.take(1)));
            } else {
                assert(out@ =~= game_lines(list@.take(i + 1)));
            }
        }
        i = i + 1;
    }
    assert(list@.take(list.len() as int) == list@);
    string_of(&out)
}


// ---- the host's state ------------------------------------------------------------

/// A pending Delete as the client lists it.
#[derive(Debug, Clone)]
pub struct PendingDelete {
    pub checkpoint: Option<String>,
    pub game: Option<String>,
    pub status: OpStatus,
}

/// The host's state as the `status` command reads it.
#[derive(Debug, Clone)]
pub struct HostState {
    pub host_version: String,
    pub phase: Phase,
    pub catalog_revision: String,
    pub store_path: String,
    pub store_available: bool,
    pub active_stack: Vec<String>,
    pub hotkey_target: Option<String>,
    pub games: Vec<GameSummary>,
    pub deletes: Vec<PendingDelete>,
}

/// How a phase is written (its variant name).
pub open spec fn phase_words(p: Phase) -> Seq<char> {
    match p {
        Phase::Starting => "Starting"@,
        Phase::Ready => "Ready"@,
        Phase::ShuttingDown => "ShuttingDown"@,
    }
}

fn phase_text(p: Phase) -> (r: &'static str)
    ensures
        r@ == phase_words(p),
{
    match p {
        Phase::Starting => "Starting",
        Phase::Ready => "Ready",
        Phase::ShuttingDown => "ShuttingDown",
    }
}

/// The number of bytes of the revision shown: ten, or all of a shorter one.
pub open spec fn shown_bytes(s: Seq<char>) -> nat {
    if utf8_len(s) < 10 {
        utf8_len(s)
    } else {
        10
    }
}

/// The first `n` bytes of the text end between two characters.
pub open spec fn ends_on_char(s: Seq<char>, n: nat) -> bool {
    exists|k: int| 0 <= k <= s.len() && #[trigger] utf8_len(s.take(k)) == n
}

/// Longer prefixes take more bytes.
proof fn lemma_utf8_prefix_grows(s: Seq<char>, i: int, j: int)
    requires
        0 <= i < j <= s.len(),
    ensures
        utf8_len(s.take(i)) < utf8_len(s.take(j)),
    decreases j - i,
{
    assert(s.take(j).drop_last() == s.take(j - 1));
    if i < j - 1 {
        lemma_utf8_prefix_grows(s, i, j - 1);
    }
}

/// The first bytes of a text, up to a character boundary the caller
/// vouches for.
fn byte_prefix(v: &[char], n: u128) -> (r: Vec<char>)
    requires
        ends_on_char(v@, n as nat),
    ensures
        exists|k: int| 0 <= k <= v@.len() && utf8_len(v@.take(k)) == n && r@ == v@.take(k),
{
    let ghost k0 = choose|k: int| 0 <= k <= v@.len() && #[trigger] utf8_len(v@.take(k)) == n as nat;
    let mut acc: u128 = 0;
    let mut i: usize = 0;
    while acc < n
        invariant
            0 <= k0 <= v@.len(),
            utf8_len(v@.take(k0)) == n,
            i <= k0,
            acc == utf8_len(v@.take(i as int)),
            acc <= n,
        decreases k0 - i,
    {
        proof {
            assert(i < k0);
            lemma_utf8_prefix_grows(v@, i as int, k0);
            if i + 1 < k0 {
                lemma_utf8_prefix_grows(v@, i + 1, k0);
            }
        }
        let u = v[i] as u32;
        let w: u128 = if u < 0x80 {
            1
        } else if u < 0x800 {
            2
        } else if u < 0x10000 {
            3
        } else {
            4
        };
        assert(v@.take(i + 1).drop_last() == v@.take(i as int));
        acc = acc + w;
        i = i + 1;
    }
    proof {
        if i < k0 {
            lemma_utf8_prefix_grows(v@, i as int, k0);
        }
    }
    slice_chars(v, 0, i)
}

/// The stack joined with `" > "`.
pub open spec fn stack_text(stack: Seq<String>) -> Seq<char>
    decreases stack.len(),
{
    if stack.len() == 0 {
        Seq::empty()
    } else if stack.len() == 1 {
        stack[0]@
    } else {
        stack_text(stack.drop_last()) + " > "@ + stack.last()@
    }
}

/// One line per pending Delete, each after a line break.
pub open spec fn delete_lines(ds: Seq<PendingDelete>) -> Seq<char>
    decreases ds.len(),
{
    if ds.len() == 0 {
        Seq::empty()
    } else {
        let d = ds.last();
        delete_lines(ds.drop_last()) + "\ndelete "@ + or_empty(d.checkpoint) + " of "@ + or_empty(d.game) + ": "@
            + status_words(d.status)
    }
}

/// The versions and phase, and the checkpoint store.
pub open spec fn status_top(st: HostState, revision: Seq<char>) -> Seq<char> {
    "host "@ + st.host_version@ + " ("@ + phase_words(st.phase) + "), catalog "@ + revision + "\ncheckpoints: "@
        + st.store_path@ + if st.store_available {
        Seq::empty()
    } else {
        " (unavailable)"@
    }
}

/// The active stack and where the hotkeys act.
pub open spec fn status_focus(st: HostState) -> Seq<char> {
    "\nactive stack: "@ + (if st.active_stack@.len() == 0 {
        "(none)"@
    } else {
        stack_text(st.active_stack@)
    }) + "\nhotkeys act on: "@ + match st.hotkey_target {
        Some(t) => t@,
        None => "(none)"@,
    } + "\n"@
}

/// The head of the status text: versions and phase, the checkpoint store,
/// the active stack and where the hotkeys act.
pub open spec fn status_head(st: HostState, revision: Seq<char>) -> Seq<char> {
    status_top(st, revision) + status_focus(st)
}

/// The status text: the head with the first ten bytes of the catalog
/// revision, the game list, then the pending Deletes.
pub open spec fn status_text_of(st: HostState, revision: Seq<char>) -> Seq<char> {
    status_head(st, revision) + games_text(st.games@) + delete_lines(st.deletes@)
}

fn push_stack(out: &mut Vec<char>, stack: &Vec<String>)
    ensures
        final(out)@ == old(out)@ + (if stack@.len() == 0 {
            "(none)"@
        } else {
            stack_text(stack@)
        }),
{
    if stack.len() == 0 {
        push_str(out, "(none)");
        return;
    }
    let ghost start = out@;
    let mut i: usize = 0;
    while i < stack.len()
        invariant
            i <= stack@.len(),
            stack@.len() > 0,
            out@ == start + stack_text(stack@.take(i as int)),
        decreases stack.len() - i,
    {
        assert(stack@.take(i + 1).drop_last() == stack@.take(i as int));
        if i > 0 {
            push_str(out, " > ");
        }
        push_str(out, stack[i].as_str());
        proof {
            if i == 0 {
                assert(out@ =~= start + stack_text(stack@.take(1)));
            } else {
                assert(out@ =~= start + stack_text(stack@.take(i + 1)));
            }
        }
        i = i + 1;
    }
    assert(stack@.take(stack.len() as int) == stack@);
}

fn push_top(out: &mut Vec<char>, st: &HostState, revision: &Vec<char>)
    ensures
        final(out)@ == old(out)@ + status_top(*st, revision@),
{
    let ghost start = out@;
    push_str(out, "host ");
    push_str(out, st.host_version.as_str());
    push_str(out, " (");
    push_str(out, phase_text(st.phase));
    push_str(out, "), catalog ");
    push_all(out, revision);
    push_str(out, "\ncheckpoints: ");
    push_str(out, st.store_path.as_str());
    if !st.store_available {
        push_str(out, " (unavailable)");
    }
    assert(out@ =~= start + status_top(*st, revision@));
}

fn push_focus(out: &mut Vec<char>, st: &HostState)
    ensures
        final(out)@ == old(out)@ + status_focus(*st),
{
    let ghost start = out@;
    push_str(out, "\nactive stack: ");
    push_stack(out, &st.active_stack);
    push_str(out, "\nhotkeys act on: ");
    match &st.hotkey_target {
        Some(t) => push_str(out, t.as_str()),
        None => push_str(out, "(none)"),
    }
    push_str(out, "\n");
    assert(out@ =~= start + status_focus(*st));
}

fn push_head(out: &mut Vec<char>, st: &HostState, revision: &Vec<char>)
    ensures
        final(out)@ == old(out)@ + status_head(*st, revision@),
{
    let ghost start = out@;
    push_top(out, st, revision);
    push_focus(out, st);
    assert(out@ =~= start + status_head(*st, revision@));
}

/// The host's state as the `status` command prints it. The first ten bytes
/// of the catalog revision (all of a shorter one) must end between two
/// characters.
pub fn status(st: &HostState) -> (r: String)
    requires
        ends_on_char(st.catalog_revision@, shown_bytes(st.catalog_revision@)),
    ensures
        exists|k: int|
            0 <= k <= st.catalog_revision@.len() && utf8_len(st.catalog_revision@.take(k)) == shown_bytes(
                st.catalog_revision@,
            ) && r@ == status_text_of(*st, st.catalog_revision@.take(k)),
{
    let rev = chars_of(st.catalog_revision.as_str());
    let total = byte_len(&rev);
    let n: u128 = if total < 10 {
        total
    } else {
        10
    };
    let shown = byte_prefix(&rev, n);
    let mut out: Vec<char> = Vec::new();
    push_head(&mut out, st, &shown);
    let listed = games(&st.games);
    push_str(&mut out, listed.as_str());
    let ghost head = out@;
    let mut i: usize = 0;
    while i < st.deletes.len()
        invariant
            i <= st.deletes@.len(),
            out@ == head + delete_lines(st.deletes@.take(i as int)),
        decreases st.deletes.len() - i,
    {
        assert(st.deletes@.take(i + 1).drop_last() == st.deletes@.take(i as int));
        let d = &st.deletes[i];
        push_str(&mut out, "\ndelete ");
        push_opt(&mut out, &d.checkpoint);
        push_str(&mut out, " of ");
        push_opt(&mut out, &d.game);
        push_str(&mut out, ": ");
        push_str(&mut out, status_text(d.status));
        assert(out@ =~= head + delete_lines(st.deletes@.take(i + 1)));
        i = i + 1;
    }
    assert(st.deletes@.take(st.deletes.len() as int) == st.deletes@);
    let r = string_of(&out);
    assert(r@ =~= status_text_of(*st, shown@));
    r
}


// ---- answers to the other commands -----------------------------------------------

/// The exit code of a command the host answered: a reply taken is a
/// success, a refused one ends with [`Exit::Rejected`].
pub fn reply_exit(ok: bool) -> (r: Exit)
    ensures
        r == (if ok {
            Exit::Success
        } else {
            Exit::Rejected
        }),
{
    if ok {
        Exit::Success
    } else {
        Exit::Rejected
    }
}

/// An operation taken but not waited for.
pub fn accepted_text(id: &str, kind: &str) -> (r: String)
    ensures
        r@ == "accepted: "@ + id@ + " ("@ + kind@ + ")"@,
{
    let mut out: Vec<char> = Vec::new();
    push_str(&mut out, "accepted: ");
    push_str(&mut out, id);
    push_str(&mut out, " (");
    push_str(&mut out, kind);
    push_str(&mut out, ")");
    string_of(&out)
}

/// The answer to setting a label: the label now set, or that it was cleared.
pub open spec fn label_words(label: Option<Seq<char>>) -> Seq<char> {
    match label {
        Some(l) => "label: "@ + l,
        None => "label cleared"@,
    }
}

/// The answer to setting a label.
pub fn label_text(label: Option<&str>) -> (r: String)
    ensures
        r@ == label_words(opt_str(label)),
{
    let mut out: Vec<char> = Vec::new();
    match label {
        Some(l) => {
            push_str(&mut out, "label: ");
            push_str(&mut out, l);
        },
        None => push_str(&mut out, "label cleared"),
    }
    string_of(&out)
}

/// The answer to a finished scan.
pub fn scan_text(new_games: u64) -> (r: String)
    ensures
        r@ == "scan finished; "@ + decimal(new_games as nat) + " new game(s)"@,
{
    let mut out: Vec<char> = Vec::new();
    push_str(&mut out, "scan finished; ");
    push_all(&mut out, &decimal_of(new_games));
    push_str(&mut out, " new game(s)");
    string_of(&out)
}

/// What asking to show the UI did, by the host's word for it.
pub open spec fn show_ui_words(ui: Seq<char>) -> Seq<char> {
    if ui == "front"@ {
        "asked the open UI to come to the front"@
    } else if ui == "started"@ {
        "started the UI"@
    } else if ui == "starting"@ {
        "the UI is already starting"@
    } else {
        "there is no UI to show in this install"@
    }
}

/// The answer to asking to show the UI.
pub fn show_ui_text(ui: &str) -> (r: &'static str)
    ensures
        r@ == show_ui_words(ui@),
{
    let v = chars_of(ui);
    if eq_lit(&v, "front") {
        "asked the open UI to come to the front"
    } else if eq_lit(&v, "started") {
        "started the UI"
    } else if eq_lit(&v, "starting") {
        "the UI is already starting"
    } else {
        "there is no UI to show in this install"
    }
}

/// Which game the hotkeys act on, and where that choice came from.
pub open spec fn hotkey_words(game: Option<Seq<char>>, source: Seq<char>) -> Seq<char> {
    match game {
        Some(g) => g + " ("@ + source + ")"@,
        None => "none"@,
    }
}

/// The answer to asking which game the hotkeys act on.
pub fn hotkey_text(game: Option<&str>, source: &str) -> (r: String)
    ensures
        r@ == hotkey_words(opt_str(game), source@),
{
    let mut out: Vec<char> = Vec::new();
    match game {
        Some(g) => {
            push_str(&mut out, g);
            push_str(&mut out, " (");
            push_str(&mut out, source);
            push_str(&mut out, ")");
        },
        None => push_str(&mut out, "none"),
    }
    string_of(&out)
}

/// One listed item of a flush preview: its kind, path and label.
pub open spec fn flush_item_line(item: FlushItem) -> Seq<char> {
    "\n  "@ + item.kind@ + " "@ + item.path@ + match item.label {
        Some(l) => " ("@ + l@ + ")"@,
        None => Seq::empty(),
    }
}

pub open spec fn flush_item_lines(items: Seq<FlushItem>) -> Seq<char>
    decreases items.len(),
{
    if items.len() == 0 {
        Seq::empty()
    } else {
        flush_item_lines(items.drop_last()) + flush_item_line(items.last())
    }
}

/// A flush preview: the counts and size, each listed item, and, unless only
/// a preview was asked for, how to go on.
pub open spec fn flush_preview_words(p: FlushPreview, preview: bool) -> Seq<char> {
    decimal(p.saved as nat) + " saved, "@ + decimal(p.recovery as nat) + " recovery, "@ + decimal(
        p.temporary as nat,
    ) + " temporary; "@ + decimal(p.size as nat) + " bytes"@ + flush_item_lines(p.items@) + if preview {
        Seq::empty()
    } else {
        "\nrun again with --yes to delete all of it"@
    }
}

fn push_flush_item(out: &mut Vec<char>, item: &FlushItem)
    ensures
        final(out)@ == old(out)@ + flush_item_line(*item),
{
    let ghost start = out@;
    push_str(out, "\n  ");
    push_str(out, item.kind.as_str());
    push_str(out, " ");
    push_str(out, item.path.as_str());
    match &item.label {
        Some(l) => {
            push_str(out, " (");
            push_str(out, l.as_str());
            push_str(out, ")");
        },
        None => {},
    }
    assert(out@ =~= start + flush_item_line(*item));
}

/// What a flush would delete, as the client prints it.
pub fn flush_preview_text(p: &FlushPreview, preview: bool) -> (r: String)
    ensures
        r@ == flush_preview_words(*p, preview),
{
    let mut out: Vec<char> = Vec::new();
    push_all(&mut out, &decimal_of(p.saved as u64));
    push_str(&mut out, " saved, ");
    push_all(&mut out, &decimal_of(p.recovery as u64));
    push_str(&mut out, " recovery, ");
    push_all(&mut out, &decimal_of(p.temporary as u64));
    push_str(&mut out, " temporary; ");
    push_all(&mut out, &decimal_of(p.size));
    push_str(&mut out, " bytes");
    let ghost head = out@;
    let mut i: usize = 0;
    assert(p.items@.take(0) =~= Seq::<FlushItem>::empty());
    while i < p.items.len()
        invariant
            i <= p.items@.len(),
            out@ == head + flush_item_lines(p.items@.take(i as int)),
        decreases p.items.len() - i,
    {
        assert(p.items@.take(i + 1).drop_last() == p.items@.take(i as int));
        push_flush_item(&mut out, &p.items[i]);
        assert(out@ =~= head + flush_item_lines(p.items@.take(i + 1)));
        i = i + 1;
    }
    assert(p.items@.take(p.items.len() as int) == p.items@);
    if !preview {
        push_str(&mut out, "\nrun again with --yes to delete all of it");
    }
    assert(out@ =~= flush_preview_words(*p, preview));
    string_of(&out)
}

/// The catalog as the host describes it.
#[derive(Debug, Clone)]
pub struct CatalogInfo {
    pub repo: String,
    pub revision: String,
    pub games: u64,
    pub source: String,
    pub updates: bool,
    pub checked_at: Option<String>,
    pub problem: Option<String>,
}

/// The catalog: where and which revision it is, how many games and from
/// where; whether updates are off or when they were last checked; the last
/// check's problem; and, after a refresh that `changed` it, that the
/// library was rescanned.
pub open spec fn catalog_words(info: CatalogInfo, changed: bool) -> Seq<char> {
    info.repo@ + " at "@ + info.revision@ + " ("@ + decimal(info.games as nat) + " games, "@ + info.source@
        + ")"@ + (if !info.updates {
        "\nupdates are off"@
    } else {
        match info.checked_at {
            Some(c) => "\nlast checked "@ + c@,
            None => Seq::empty(),
        }
    }) + match info.problem {
        Some(p) => "\nthe last check failed: "@ + p@,
        None => Seq::empty(),
    } + if changed {
        "\nupdated; the library was rescanned"@
    } else {
        Seq::empty()
    }
}

/// The answer to asking about the catalog, or to refreshing it.
pub fn catalog_text(info: &CatalogInfo, changed: bool) -> (r: String)
    ensures
        r@ == catalog_words(*info, changed),
{
    let mut out: Vec<char> = Vec::new();
    push_str(&mut out, info.repo.as_str());
    push_str(&mut out, " at ");
    push_str(&mut out, info.revision.as_str());
    push_str(&mut out, " (");
    push_all(&mut out, &decimal_of(info.games));
    push_str(&mut out, " games, ");
    push_str(&mut out, info.source.as_str());
    push_str(&mut out, ")");
    let ghost a = out@;
    if !info.updates {
        push_str(&mut out, "\nupdates are off");
    } else {
        match &info.checked_at {
            Some(c) => {
                push_str(&mut out, "\nlast checked ");
                push_str(&mut out, c.as_str());
            },
            None => {},
        }
    }
    let ghost b = out@;
    match &info.problem {
        Some(p) => {
            push_str(&mut out, "\nthe last check failed: ");
            push_str(&mut out, p.as_str());
        },
        None => {},
    }
    let ghost c = out@;
    if changed {
        push_str(&mut out, "\nupdated; the library was rescanned");
    }
    assert(out@ =~= catalog_words(*info, changed));
    string_of(&out)
}

/// One run of the host as it was recorded.
#[derive(Debug, Clone)]
pub struct HostRun {
    pub started_at: String,
    pub current: bool,
    pub ended_at: Option<String>,
    pub last_seen_at: String,
}

/// A run: when it started, and that it runs now, when it ended, or that it
/// was last seen and didn't exit cleanly.
pub open spec fn run_words(r: HostRun) -> Seq<char> {
    r.started_at@ + " "@ + if r.current {
        "running now"@
    } else {
        match r.ended_at {
            Some(e) => "until "@ + e@,
            None => "until some time after "@ + r.last_seen_at@ + " (didn't exit cleanly)"@,
        }
    }
}

/// The runs, one per line.
pub open spec fn run_lines(runs: Seq<HostRun>) -> Seq<char>
    decreases runs.len(),
{
    if runs.len() == 0 {
        Seq::empty()
    } else if runs.len() == 1 {
        run_words(runs[0])
    } else {
        run_lines(runs.drop_last()) + "\n"@ + run_words(runs.last())
    }
}

fn push_run(out: &mut Vec<char>, r: &HostRun)
    ensures
        final(out)@ == old(out)@ + run_words(*r),
{
    let ghost start = out@;
    push_str(out, r.started_at.as_str());
    push_str(out, " ");
    if r.current {
        push_str(out, "running now");
    } else {
        match &r.ended_at {
            Some(e) => {
                push_str(out, "until ");
                push_str(out, e.as_str());
            },
            None => {
                push_str(out, "until some time after ");
                push_str(out, r.last_seen_at.as_str());
                push_str(out, " (didn't exit cleanly)");
            },
        }
    }
    assert(out@ =~= start + run_words(*r));
}

/// The host's recorded runs, as the client prints them.
pub fn host_runs_text(runs: &Vec<HostRun>) -> (r: String)
    ensures
        r@ == run_lines(runs@),
{
    let mut out: Vec<char> = Vec::new();
    let mut i: usize = 0;
    assert(runs@.take(0) =~= Seq::<HostRun>::empty());
    while i < runs.len()
        invariant
            i <= runs@.len(),
            out@ == run_lines(runs@.take(i as int)),
        decreases runs.len() - i,
    {
        assert(runs@.take(i + 1).drop_last() == runs@.take(i as int));
        if i > 0 {
            push_str(&mut out, "\n");
        }
        push_run(&mut out, &runs[i]);
        proof {
            if i == 0 {
                assert(out@ =~= run_lines(runs@.take(1)));
            } else {
                assert(out@ =~= run_lines(runs@.take(i + 1)));
            }
        }
        i = i + 1;
    }
    assert(runs@.take(runs.len() as int) == runs@);
    string_of(&out)
}

} // verus!
