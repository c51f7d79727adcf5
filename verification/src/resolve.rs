//! The decision module. The host observes the machine through [`Probe`],
//! passes the result to [`resolve`], and persists the chosen directory. No
//! OS APIs, database or host types appear here.

use vstd::prelude::*;
use crate::model::{when_applies, Game, Platform, SaveCandidate, Store};
use crate::paths::{
    byte_len, file_name, file_name_of, has_no_parent, lemma_text_order, lemma_text_order_trans, parentless, path_compare, path_eq,
    path_order, path_starts_with, same_path, starts_with_path, text_compare, text_order, utf8_len,
};
use crate::placeholders::{
    lemma_template_same_places, lemma_template_same_target, opt_view, profile, resolve as resolve_template, same_places,
    same_target, strs, template_spec,
};
use crate::text::{
    ascii_lower_seq, chars_of, decimal, decimal_of, eq_ignore_ascii_case, eq_ignore_ascii_case_spec, push_all,
    push_str, string_of,
};

verus! {

/// Every environment observation the resolver needs. Tests implement this
/// against in-memory maps and never touch a real filesystem. Nothing is
/// assumed of what an implementation answers.
pub trait Probe {
    fn is_dir(&self, path: &str) -> bool;

    /// Whether `path` is a file.
    fn is_file(&self, path: &str) -> bool;

    fn install_identity(&self, install_dir: &str) -> Option<String>;

    /// Newest modification among files matching `globs`, or all files when
    /// empty.
    fn newest_activity(&self, dir: &str, globs: &[String]) -> Option<u64>;

    /// Directory names directly under `dir`. Only Proton prefix profile
    /// selection uses this; the default is empty so simple probes stay tiny.
    fn child_dirs(&self, dir: &str) -> (r: Vec<String>)
        default_ensures
            r@ == Seq::<String>::empty(),
    {
        Vec::new()
    }
}

/// Produced by the store-discovery scanner, passed in by the host.
#[derive(Clone, Debug, PartialEq, Eq)]
pub struct Install {
    /// Catalog id (for example `steam-1434950`), before install-level
    /// splitting.
    pub catalog_id: String,
    pub store: Store,
    /// The platform the install is on. A Linux install with a Proton
    /// prefix may run either build; the files present decide which.
    pub platform: Platform,
    pub install_dir: String,
    pub executables: Vec<String>,
    /// The Proton prefix a Windows build runs in, when there is one.
    pub proton_prefix: Option<String>,
    /// Stable install identity (volume/file id), when the scanner could
    /// obtain it.
    pub identity: Option<String>,
}

#[derive(Clone, Debug, Default)]
pub struct Environment {
    /// Known folders keyed by placeholder name (`APPDATA`, `HOME`, ...),
    /// each key once.
    pub folders: Vec<(String, String)>,
    /// Resolved `<root>/userdata/<current steam user>` directory.
    pub steam_userdata: Option<String>,
    /// Sticky value persisted by the host. Kept while it still exists.
    pub current_pick: Option<String>,
    /// Detected store user id for `{STORE_USER_ID}` (the Steam id for
    /// Steam).
    pub store_user_id: Option<String>,
}


#[derive(Clone, Copy, Debug, PartialEq, Eq, Structural)]
pub enum Reason {
    /// The persisted pick still exists.
    Sticky,
    /// Exactly one candidate directory exists.
    OnlyExisting,
    /// Newest save activity decided among several existing candidates.
    NewestActivity,
    /// The exact save-directory name rule decided.
    ExactName,
    /// Ambiguity fell through to the first candidate.
    FirstCandidate,
    /// A safe ancestor stood in for the whole candidate set.
    Ancestor,
}

#[derive(Clone, Debug, PartialEq, Eq)]
pub enum Decision {
    Chosen {
        /// Install-level id; [`assign_games`] may rewrite it.
        game_id: String,
        catalog_id: String,
        install_identity: Option<String>,
        executables: Vec<String>,
        data_dir: String,
        candidates: Vec<String>,
        reason: Reason,
    },
    Unsupported {
        game_id: String,
        catalog_id: String,
        install_identity: Option<String>,
        executables: Vec<String>,
        candidates: Vec<String>,
        reason: String,
    },
}

/// One record per install, or one record for installs that share a save dir.
#[derive(Clone, Debug, PartialEq, Eq)]
pub struct GameRecord {
    pub game_id: String,
    pub catalog_id: String,
    pub data_dir: Option<String>,
    pub executables: Vec<String>,
    pub candidates: Vec<String>,
    pub install_ids: Vec<String>,
    pub unsupported: Option<String>,
}

/// What the probe reported while one install was resolved.
#[derive(Clone, Debug)]
pub struct Observations {
    /// The Proton profile under the prefix's `drive_c/users`.
    pub profile: String,
    /// Whether the persisted pick still exists as a directory.
    pub pick_exists: bool,
    /// Per candidate, whether it exists as a directory (missing: no).
    pub existing: Vec<bool>,
    /// Per existing candidate, in order, its newest save activity (missing:
    /// none).
    pub activity: Vec<Option<u64>>,
    /// For a Linux install with a Proton prefix: whether a file the catalog
    /// lists for the Linux build is in the install folder.
    pub linux_present: bool,
    /// Likewise for the Windows build.
    pub windows_present: bool,
}

// ---- candidates ------------------------------------------------------------

/// Whether some path in `s` is the same path as `p`.
pub open spec fn has_path(s: Seq<Seq<char>>, p: Seq<char>) -> bool {
    exists|k: int| 0 <= k < s.len() && #[trigger] path_eq(s[k], p)
}

/// Whether a candidate's condition admits this install.
pub open spec fn candidate_applies(c: SaveCandidate, install: Install) -> bool {
    match c.when {
        Some(w) => when_applies(w, install.platform, install.store),
        None => true,
    }
}

/// The save candidates that apply to this install, resolved, in bundle
/// order, each path once.
pub open spec fn candidates_spec(
    save: Seq<SaveCandidate>,
    install: Install,
    env: Environment,
    user: Seq<char>,
) -> Seq<Seq<char>>
    decreases save.len(),
{
    if save.len() == 0 {
        Seq::empty()
    } else {
        let prev = candidates_spec(save.drop_last(), install, env, user);
        let c = save.last();
        if !candidate_applies(c, install) {
            prev
        } else {
            match template_spec(c.dir@, install, env, user) {
                None => prev,
                Some(p) => if has_path(prev, p) {
                    prev
                } else {
                    prev.push(p)
                },
            }
        }
    }
}

fn contains_path(list: &Vec<String>, p: &[char]) -> (r: bool)
    ensures
        r == has_path(strs(list@), p@),
{
    let mut i: usize = 0;
    while i < list.len()
        invariant
            i <= list.len(),
            forall|k: int| 0 <= k < i ==> !#[trigger] path_eq(strs(list@)[k], p@),
        decreases list.len() - i,
    {
        let c = chars_of(list[i].as_str());
        if same_path(&c, p) {
            assert(path_eq(strs(list@)[i as int], p@));
            return true;
        }
        i = i + 1;
    }
    false
}

fn filtered_candidates(game: &Game, install: &Install, env: &Environment, user: &str) -> (r: Vec<
    String,
>)
    ensures
        strs(r@) == candidates_spec(game.save@, *install, *env, user@),
{
    let mut resolved: Vec<String> = Vec::new();
    let mut i: usize = 0;
    while i < game.save.len()
        invariant
            i <= game.save.len(),
            strs(resolved@) == candidates_spec(game.save@.take(i as int), *install, *env, user@),
        decreases game.save.len() - i,
    {
        let candidate = &game.save[i];
        assert(game.save@.take(i + 1).drop_last() == game.save@.take(i as int));
        assert(game.save@.take(i + 1).last() == *candidate);
        let applies = match &candidate.when {
            Some(w) => w.applies(install.platform, install.store),
            None => true,
        };
        if applies {
            match resolve_template(candidate.dir.as_str(), install, env, user) {
                Some(path) => {
                    let pv = chars_of(path.as_str());
                    if !contains_path(&resolved, &pv) {
                        let ghost before = resolved@;
                        resolved.push(path);
                        assert(strs(resolved@) =~= strs(before).push(pv@));
                    }
                },
                None => {},
            }
        }
        i = i + 1;
    }
    assert(game.save@.take(game.save@.len() as int) == game.save@);
    resolved
}

// ---- builds ----------------------------------------------------------------

/// A Linux install with a Proton prefix, which may run either build.
pub open spec fn chooses_build(install: Install) -> bool {
    install.platform == Platform::Linux && install.proton_prefix is Some
}

/// The builds whose save locations are considered: the install's own
/// platform; for a Linux install with a Proton prefix, the build whose
/// listed files are present when only one build's are, else both (Linux
/// first).
pub open spec fn builds_spec(install: Install, linux_present: bool, windows_present: bool) -> Seq<Platform> {
    if !chooses_build(install) {
        seq![install.platform]
    } else if linux_present && !windows_present {
        seq![Platform::Linux]
    } else if windows_present && !linux_present {
        seq![Platform::Windows]
    } else {
        seq![Platform::Linux, Platform::Windows]
    }
}

/// The install as one build sees it: that platform, with the Proton prefix
/// only for the Windows build.
pub open spec fn build_install(install: Install, b: Platform) -> Install {
    Install {
        platform: b,
        proton_prefix: if b == Platform::Windows {
            install.proton_prefix
        } else {
            None
        },
        ..install
    }
}

/// `b`'s paths appended to `a`, each path once.
pub open spec fn merge_paths(a: Seq<Seq<char>>, b: Seq<Seq<char>>) -> Seq<Seq<char>>
    decreases b.len(),
{
    if b.len() == 0 {
        a
    } else {
        let m = merge_paths(a, b.drop_last());
        if has_path(m, b.last()) {
            m
        } else {
            m.push(b.last())
        }
    }
}

/// The candidates of an install given what was observed: those of its own
/// platform; for a Linux install with a Proton prefix, those of each build
/// considered, Linux's first, each path once.
pub open spec fn obs_candidates(save: Seq<SaveCandidate>, install: Install, env: Environment, obs: Observations) -> Seq<Seq<char>> {
    let user = obs.profile@;
    if !chooses_build(install) {
        candidates_spec(save, install, env, user)
    } else {
        let bs = builds_spec(install, obs.linux_present, obs.windows_present);
        if bs.len() == 1 {
            candidates_spec(save, build_install(install, bs[0]), env, user)
        } else {
            merge_paths(
                candidates_spec(save, build_install(install, Platform::Linux), env, user),
                candidates_spec(save, build_install(install, Platform::Windows), env, user),
            )
        }
    }
}

/// Which builds a Linux install with a Proton prefix is considered to run,
/// from whether each build's listed files are present.
pub fn decide_builds(install: &Install, linux_present: bool, windows_present: bool) -> (r: Vec<Platform>)
    ensures
        r@ == builds_spec(*install, linux_present, windows_present),
{
    let mut r: Vec<Platform> = Vec::new();
    let choose = install.platform == Platform::Linux && install.proton_prefix.is_some();
    if !choose {
        r.push(install.platform);
    } else if linux_present && !windows_present {
        r.push(Platform::Linux);
    } else if windows_present && !linux_present {
        r.push(Platform::Windows);
    } else {
        r.push(Platform::Linux);
        r.push(Platform::Windows);
    }
    assert(r@ =~= builds_spec(*install, linux_present, windows_present));
    r
}

fn build_for(install: &Install, b: Platform) -> (r: Install)
    ensures
        same_target(r, build_install(*install, b)),
{
    Install {
        catalog_id: install.catalog_id.clone(),
        store: install.store,
        platform: b,
        install_dir: install.install_dir.clone(),
        executables: clone_strings(&install.executables),
        proton_prefix: if b == Platform::Windows {
            clone_opt(&install.proton_prefix)
        } else {
            None
        },
        identity: clone_opt(&install.identity),
    }
}

/// Candidates are alike for installs that agree on what templates read.
proof fn lemma_candidates_same_target(save: Seq<SaveCandidate>, a: Install, b: Install, env: Environment, user: Seq<char>)
    requires
        same_target(a, b),
    ensures
        candidates_spec(save, a, env, user) == candidates_spec(save, b, env, user),
    decreases save.len(),
{
    if save.len() > 0 {
        lemma_candidates_same_target(save.drop_last(), a, b, env, user);
        lemma_template_same_target(save.last().dir@, a, b, env, user);
    }
}

fn merge_into(out: &mut Vec<String>, more: &Vec<String>)
    ensures
        strs(final(out)@) == merge_paths(strs(old(out)@), strs(more@)),
{
    let ghost start = strs(out@);
    let mut j: usize = 0;
    while j < more.len()
        invariant
            j <= more@.len(),
            strs(out@) == merge_paths(start, strs(more@).take(j as int)),
        decreases more.len() - j,
    {
        assert(strs(more@).take(j + 1).drop_last() == strs(more@).take(j as int));
        assert(strs(more@).take(j + 1).last() == more@[j as int]@);
        let pv = chars_of(more[j].as_str());
        if !contains_path(out, &pv) {
            let ghost before = out@;
            out.push(more[j].clone());
            assert(strs(out@) =~= strs(before).push(pv@));
        }
        j = j + 1;
    }
    assert(strs(more@).take(more.len() as int) == strs(more@));
}

/// The candidates of an install given the observations.
fn install_candidates(game: &Game, install: &Install, env: &Environment, observed: &Observations) -> (r: Vec<String>)
    ensures
        strs(r@) == obs_candidates(game.save@, *install, *env, *observed),
{
    let user = observed.profile.as_str();
    let choose = install.platform == Platform::Linux && install.proton_prefix.is_some();
    if !choose {
        return filtered_candidates(game, install, env, user);
    }
    let builds = decide_builds(install, observed.linux_present, observed.windows_present);
    if builds.len() == 1 {
        let one = build_for(install, builds[0]);
        proof {
            lemma_candidates_same_target(game.save@, one, build_install(*install, builds@[0]), *env, user@);
        }
        return filtered_candidates(game, &one, env, user);
    }
    let linux = build_for(install, Platform::Linux);
    let windows = build_for(install, Platform::Windows);
    proof {
        lemma_candidates_same_target(game.save@, linux, build_install(*install, Platform::Linux), *env, user@);
        lemma_candidates_same_target(game.save@, windows, build_install(*install, Platform::Windows), *env, user@);
    }
    let mut out = filtered_candidates(game, &linux, env, user);
    let more = filtered_candidates(game, &windows, env, user);
    merge_into(&mut out, &more);
    out
}

// ---- the ladder ------------------------------------------------------------

/// The candidates whose flag is set (a missing flag counts as unset).
pub open spec fn kept(c: Seq<Seq<char>>, flags: Seq<bool>) -> Seq<Seq<char>>
    decreases c.len(),
{
    if c.len() == 0 {
        Seq::empty()
    } else {
        let prev = kept(c.drop_last(), flags);
        if c.len() - 1 < flags.len() && flags[c.len() - 1] {
            prev.push(c.last())
        } else {
            prev
        }
    }
}

/// Save-directory names that decide on their own.
pub open spec fn is_exact_name(n: Seq<char>) -> bool {
    eq_ignore_ascii_case_spec(n, "save"@) || eq_ignore_ascii_case_spec(n, "saves"@)
        || eq_ignore_ascii_case_spec(n, "savegame"@) || eq_ignore_ascii_case_spec(n, "savegames"@)
        || eq_ignore_ascii_case_spec(n, "saved games"@) || eq_ignore_ascii_case_spec(
        n,
        "save data"@,
    )
}

/// Whether the path's last component is an exact save-directory name.
pub open spec fn exact_named(p: Seq<char>) -> bool {
    match file_name(p) {
        Some(n) => is_exact_name(n),
        None => false,
    }
}

/// The first path with an exact save-directory name.
#[verifier::opaque]
pub open spec fn exact_name_spec(paths: Seq<Seq<char>>) -> Option<int> {
    if exists|k: int| 0 <= k < paths.len() && #[trigger] exact_named(paths[k]) {
        Some(
            choose|k: int|
                0 <= k < paths.len() && exact_named(paths[k]) && forall|m: int|
                    0 <= m < k ==> !#[trigger] exact_named(paths[m]),
        )
    } else {
        None
    }
}

pub(crate) fn exact_name_of(n: &[char]) -> (r: bool)
    ensures
        r == is_exact_name(n@),
{
    eq_ignore_ascii_case(n, &chars_of("save")) || eq_ignore_ascii_case(n, &chars_of("saves"))
        || eq_ignore_ascii_case(n, &chars_of("savegame")) || eq_ignore_ascii_case(
        n,
        &chars_of("savegames"),
    ) || eq_ignore_ascii_case(n, &chars_of("saved games")) || eq_ignore_ascii_case(
        n,
        &chars_of("save data"),
    )
}

/// The first path whose last component is an exact save-directory name.
fn exact_name(paths: &Vec<String>) -> (r: Option<usize>)
    ensures
        match r {
            Some(k) => k < paths.len() && exact_name_spec(strs(paths@)) == Some(k as int),
            None => exact_name_spec(strs(paths@)) is None,
        },
{
    reveal(exact_name_spec);
    let ghost ps = strs(paths@);
    let mut i: usize = 0;
    while i < paths.len()
        invariant
            i <= paths.len(),
            ps == strs(paths@),
            forall|m: int| 0 <= m < i ==> !#[trigger] exact_named(ps[m]),
        decreases paths.len() - i,
    {
        let p = chars_of(paths[i].as_str());
        let hit = match file_name_of(&p) {
            Some(n) => exact_name_of(&n),
            None => false,
        };
        if hit {
            assert(exact_named(ps[i as int]));
            proof {
                reveal(exact_name_spec);
                assert(0 <= i < ps.len() && exact_named(ps[i as int]));
                let k = choose|k: int|
                    0 <= k < ps.len() && exact_named(ps[k]) && forall|m: int|
                        0 <= m < k ==> !#[trigger] exact_named(ps[m]);
                assert(0 <= i as int && exact_named(ps[i as int]) && forall|m: int|
                    0 <= m < i ==> !#[trigger] exact_named(ps[m]));
                if k < i {
                    assert(!exact_named(ps[k]));
                } else if k > i {
                    assert(!exact_named(ps[i as int]));
                }
                assert(exact_name_spec(ps) == Some(i as int));
            }
            return Some(i);
        }
        i = i + 1;
    }
    None
}

/// The activity reported for the `k`-th existing candidate.
pub open spec fn act_at(acts: Seq<Option<u64>>, k: int) -> Option<u64> {
    if 0 <= k < acts.len() {
        acts[k]
    } else {
        None
    }
}

/// The activity at `i` is above every other among the first `n`.
pub open spec fn strict_max(acts: Seq<Option<u64>>, n: int, i: int) -> bool {
    &&& 0 <= i < n
    &&& act_at(acts, i) is Some
    &&& forall|k: int|
        0 <= k < n && k != i && #[trigger] act_at(acts, k) is Some ==> act_at(acts, k)->0 < act_at(
            acts,
            i,
        )->0
}

/// The existing candidate whose activity is newer than every other's,
/// among the first `n`; `None` when the newest activity is tied or nothing
/// reported activity (so the ladder continues).
#[verifier::opaque]
pub open spec fn newest_spec(acts: Seq<Option<u64>>, n: int) -> Option<int> {
    if exists|i: int| #[trigger] strict_max(acts, n, i) {
        Some(choose|i: int| #[trigger] strict_max(acts, n, i))
    } else {
        None
    }
}

/// The unique candidate with the newest activity among the first `n`, or
/// `None` when the maximum is tied or unavailable.
fn newest_activity(acts: &Vec<Option<u64>>, n: usize) -> (r: Option<usize>)
    ensures
        match r {
            Some(k) => k < n && newest_spec(acts@, n as int) == Some(k as int),
            None => newest_spec(acts@, n as int) is None,
        },
{
    reveal(newest_spec);
    let mut best: Option<(u64, usize)> = None;
    let mut tied = false;
    let mut i: usize = 0;
    while i < n
        invariant
            i <= n,
            best is None ==> forall|k: int| 0 <= k < i ==> #[trigger] act_at(acts@, k) is None,
            best is None ==> !tied,
            best matches Some((a, b)) ==> {
                &&& b < i
                &&& act_at(acts@, b as int) == Some(a)
                &&& forall|k: int| 0 <= k < i && #[trigger] act_at(acts@, k) is Some ==> act_at(acts@, k)->0 <= a
                &&& forall|k: int| 0 <= k < b && #[trigger] act_at(acts@, k) is Some ==> act_at(acts@, k)->0 < a
                &&& (tied <==> exists|k: int| 0 <= k < i && k != b && #[trigger] act_at(acts@, k) == Some(a))
            },
        decreases n - i,
    {
        let activity: Option<u64> = if i < acts.len() {
            acts[i]
        } else {
            None
        };
        assert(activity == act_at(acts@, i as int));
        match activity {
            None => {},
            Some(x) => {
                match best {
                    None => {
                        best = Some((x, i));
                    },
                    Some((a, b)) => {
                        if x > a {
                            best = Some((x, i));
                            tied = false;
                        } else if x == a {
                            tied = true;
                        }
                    },
                }
            },
        }
        i = i + 1;
    }
    if tied {
        proof {
            if exists|c: int| #[trigger] strict_max(acts@, n as int, c) {
                let c = choose|c: int| #[trigger] strict_max(acts@, n as int, c);
                let (a, b) = best->0;
                let k = choose|k: int| 0 <= k < n && k != b && #[trigger] act_at(acts@, k) == Some(a);
                if c != b {
                    assert(act_at(acts@, b as int)->0 < act_at(acts@, c)->0);
                } else {
                    assert(act_at(acts@, k)->0 < act_at(acts@, c)->0);
                }
            }
        }
        return None;
    }
    match best {
        None => {
            proof {
                if exists|c: int| #[trigger] strict_max(acts@, n as int, c) {
                    let c = choose|c: int| #[trigger] strict_max(acts@, n as int, c);
                    assert(act_at(acts@, c) is Some);
                }
            }
            None
        },
        Some((a, b)) => {
            proof {
                assert forall|k: int|
                    0 <= k < n && k != b && #[trigger] act_at(acts@, k) is Some implies act_at(
                    acts@,
                    k,
                )->0 < a by {
                    if act_at(acts@, k)->0 == a {
                        assert(act_at(acts@, k) == Some(a));
                    }
                }
                assert(strict_max(acts@, n as int, b as int));
                let c = choose|c: int| #[trigger] strict_max(acts@, n as int, c);
                if c != b {
                    assert(act_at(acts@, c)->0 < a);
                    assert(act_at(acts@, b as int)->0 < act_at(acts@, c)->0);
                }
            }
            Some(b)
        },
    }
}

/// A path that a known folder, the install folder or a bare root stands
/// for: never a safe ancestor.
pub open spec fn protected_spec(path: Seq<char>, install: Install, env: Environment) -> bool {
    path_eq(path, install.install_dir@) || parentless(path) || exists|k: int|
        0 <= k < env.folders@.len() && #[trigger] path_eq(env.folders@[k].1@, path)
}

fn path_starts_with_any_protected(path: &[char], install: &Install, env: &Environment) -> (r: bool)
    ensures
        r == protected_spec(path@, *install, *env),
{
    let dir = chars_of(install.install_dir.as_str());
    if same_path(path, &dir) {
        return true;
    }
    if has_no_parent(path) {
        return true;
    }
    let mut i: usize = 0;
    while i < env.folders.len()
        invariant
            i <= env.folders.len(),
            forall|k: int| 0 <= k < i ==> !#[trigger] path_eq(env.folders@[k].1@, path@),
        decreases env.folders.len() - i,
    {
        let root = chars_of(env.folders[i].1.as_str());
        if same_path(&root, path) {
            return true;
        }
        i = i + 1;
    }
    false
}

/// Every other candidate lies under candidate `i`.
pub open spec fn covers_all(c: Seq<Seq<char>>, i: int) -> bool {
    forall|j: int| 0 <= j < c.len() && !path_eq(#[trigger] c[j], c[i]) ==> path_starts_with(c[j], c[i])
}

/// Candidate `i` may stand in for the whole set.
pub open spec fn safe_ancestor(c: Seq<Seq<char>>, i: int, install: Install, env: Environment) -> bool {
    0 <= i < c.len() && !protected_spec(c[i], install, env) && covers_all(c, i)
}

/// Candidate `i` is the longest safe ancestor, the first of the longest.
pub open spec fn best_ancestor(c: Seq<Seq<char>>, i: int, install: Install, env: Environment) -> bool {
    &&& safe_ancestor(c, i, install, env)
    &&& forall|j: int|
        #[trigger] safe_ancestor(c, j, install, env) ==> utf8_len(c[j]) <= utf8_len(c[i]) && (j
            < i ==> utf8_len(c[j]) < utf8_len(c[i]))
}

#[verifier::opaque]
pub open spec fn ancestor_spec(c: Seq<Seq<char>>, install: Install, env: Environment) -> Option<
    int,
> {
    if exists|i: int| #[trigger] best_ancestor(c, i, install, env) {
        Some(choose|i: int| #[trigger] best_ancestor(c, i, install, env))
    } else {
        None
    }
}

fn covers(list: &Vec<String>, i: usize) -> (r: bool)
    requires
        i < list.len(),
    ensures
        r == covers_all(strs(list@), i as int),
{
    let ghost c = strs(list@);
    let base = chars_of(list[i].as_str());
    let mut j: usize = 0;
    while j < list.len()
        invariant
            j <= list.len(),
            i < list.len(),
            c == strs(list@),
            base@ == c[i as int],
            forall|k: int|
                0 <= k < j && !path_eq(#[trigger] c[k], c[i as int]) ==> path_starts_with(
                    c[k],
                    c[i as int],
                ),
        decreases list.len() - j,
    {
        let other = chars_of(list[j].as_str());
        if !same_path(&other, &base) && !starts_with_path(&other, &base) {
            assert(!path_eq(c[j as int], c[i as int]));
            return false;
        }
        j = j + 1;
    }
    true
}

/// A candidate that is a strict ancestor of every other candidate and is
/// neither a known folder, the install folder nor a bare root; the longest
/// such, in bytes.
fn ancestor(candidates: &Vec<String>, install: &Install, env: &Environment) -> (r: Option<usize>)
    ensures
        match r {
            Some(k) => k < candidates.len() && ancestor_spec(strs(candidates@), *install, *env)
                == Some(k as int),
            None => ancestor_spec(strs(candidates@), *install, *env) is None,
        },
{
    reveal(ancestor_spec);
    let ghost c = strs(candidates@);
    let mut best: Option<(usize, u128)> = None;
    let mut i: usize = 0;
    while i < candidates.len()
        invariant
            i <= candidates.len(),
            c == strs(candidates@),
            best is None ==> forall|k: int| 0 <= k < i ==> !#[trigger] safe_ancestor(c, k, *install, *env),
            best matches Some((b, len)) ==> {
                &&& b < i
                &&& len == utf8_len(c[b as int])
                &&& safe_ancestor(c, b as int, *install, *env)
                &&& forall|k: int|
                    0 <= k < i && #[trigger] safe_ancestor(c, k, *install, *env) ==> utf8_len(c[k])
                        <= len && (k < b ==> utf8_len(c[k]) < len)
            },
        decreases candidates.len() - i,
    {
        let path = chars_of(candidates[i].as_str());
        assert(path@ == c[i as int]);
        if !path_starts_with_any_protected(&path, install, env) && covers(candidates, i) {
            assert(safe_ancestor(c, i as int, *install, *env));
            let len = byte_len(&path);
            let better = match best {
                None => true,
                Some((_, current)) => len > current,
            };
            if better {
                best = Some((i, len));
            }
        } else {
            assert(!safe_ancestor(c, i as int, *install, *env));
        }
        i = i + 1;
    }
    match best {
        None => {
            None
        },
        Some((b, _)) => {
            proof {
                assert(best_ancestor(c, b as int, *install, *env));
                let k = choose|k: int| #[trigger] best_ancestor(c, k, *install, *env);
                if k != b {
                    if k < b {
                        assert(utf8_len(c[k]) < utf8_len(c[b as int]));
                    } else {
                        assert(utf8_len(c[b as int]) < utf8_len(c[k]));
                    }
                }
            }
            Some(b)
        },
    }
}

/// The directory the ladder picks among non-empty `candidates`, given which
/// exist and the activity under the existing ones.
pub open spec fn choose_spec(
    candidates: Seq<Seq<char>>,
    existing: Seq<bool>,
    activity: Seq<Option<u64>>,
    install: Install,
    env: Environment,
) -> (Seq<char>, Reason) {
    let ex = kept(candidates, existing);
    if ex.len() == 0 {
        match exact_name_spec(candidates) {
            Some(k) => (candidates[k], Reason::ExactName),
            None => (candidates[0], Reason::FirstCandidate),
        }
    } else if ex.len() == 1 {
        (ex[0], Reason::OnlyExisting)
    } else {
        match newest_spec(activity, ex.len() as int) {
            Some(k) => (ex[k], Reason::NewestActivity),
            None => match exact_name_spec(ex) {
                Some(k) => (ex[k], Reason::ExactName),
                None => match ancestor_spec(candidates, install, env) {
                    Some(k) => (candidates[k], Reason::Ancestor),
                    None => (ex[0], Reason::FirstCandidate),
                },
            },
        }
    }
}

fn kept_paths(candidates: &Vec<String>, existing: &Vec<bool>) -> (r: Vec<String>)
    ensures
        strs(r@) == kept(strs(candidates@), existing@),
{
    let mut r: Vec<String> = Vec::new();
    let mut i: usize = 0;
    while i < candidates.len()
        invariant
            i <= candidates.len(),
            strs(r@) == kept(strs(candidates@).take(i as int), existing@),
        decreases candidates.len() - i,
    {
        let ghost t = strs(candidates@).take(i + 1);
        assert(t.drop_last() == strs(candidates@).take(i as int));
        assert(t.last() == candidates@[i as int]@);
        if i < existing.len() && existing[i] {
            let ghost before = r@;
            let p = string_of(&chars_of(candidates[i].as_str()));
            r.push(p);
            assert(strs(r@) =~= strs(before).push(candidates@[i as int]@));
        }
        i = i + 1;
    }
    assert(strs(candidates@).take(candidates.len() as int) == strs(candidates@));
    r
}

fn choose_dir(
    candidates: &Vec<String>,
    existing: &Vec<bool>,
    activity: &Vec<Option<u64>>,
    install: &Install,
    env: &Environment,
) -> (r: (String, Reason))
    requires
        candidates.len() > 0,
    ensures
        (r.0@, r.1) == choose_spec(strs(candidates@), existing@, activity@, *install, *env),
{
    let ex = kept_paths(candidates, existing);
    if ex.len() == 0 {
        return match exact_name(candidates) {
            Some(k) => (candidates[k].clone(), Reason::ExactName),
            None => (candidates[0].clone(), Reason::FirstCandidate),
        };
    }
    if ex.len() == 1 {
        return (ex[0].clone(), Reason::OnlyExisting);
    }
    if let Some(k) = newest_activity(activity, ex.len()) {
        return (ex[k].clone(), Reason::NewestActivity);
    }
    if let Some(k) = exact_name(&ex) {
        return (ex[k].clone(), Reason::ExactName);
    }
    if let Some(k) = ancestor(candidates, install, env) {
        return (candidates[k].clone(), Reason::Ancestor);
    }
    (ex[0].clone(), Reason::FirstCandidate)
}


// ---- the decision ----------------------------------------------------------

/// The directory and reason the resolver settles on for this install, given
/// what the probe reported; `None` when no candidate applies.
pub open spec fn outcome_spec(game: Game, install: Install, env: Environment, obs: Observations) -> Option<
    (Seq<char>, Reason),
> {
    let cands = obs_candidates(game.save@, install, env, obs);
    if env.current_pick is Some && obs.pick_exists {
        Some((env.current_pick->0@, Reason::Sticky))
    } else if cands.len() == 0 {
        None
    } else {
        Some(choose_spec(cands, obs.existing@, obs.activity@, install, env))
    }
}

/// `r` is the decision for this install given the observations: the
/// outcome, the applicable candidates, and the install's ids and
/// executables carried along.
pub open spec fn decided(
    r: Decision,
    game: Game,
    install: Install,
    env: Environment,
    obs: Observations,
) -> bool {
    let cands = obs_candidates(game.save@, install, env, obs);
    match r {
        Decision::Chosen {
            game_id,
            catalog_id,
            install_identity,
            executables,
            data_dir,
            candidates,
            reason,
        } => {
            &&& outcome_spec(game, install, env, obs) == Some((data_dir@, reason))
            &&& strs(candidates@) == cands
            &&& game_id@ == install.catalog_id@
            &&& catalog_id@ == install.catalog_id@
            &&& opt_view(install_identity) == opt_view(install.identity)
            &&& strs(executables@) == strs(install.executables@)
        },
        Decision::Unsupported {
            game_id,
            catalog_id,
            install_identity,
            executables,
            candidates,
            reason,
        } => {
            &&& outcome_spec(game, install, env, obs) is None
            &&& strs(candidates@) == cands
            &&& reason@ == "no save candidate applies to this install"@
            &&& game_id@ == install.catalog_id@
            &&& catalog_id@ == install.catalog_id@
            &&& opt_view(install_identity) == opt_view(install.identity)
            &&& strs(executables@) == strs(install.executables@)
        },
    }
}

fn clone_strings(v: &Vec<String>) -> (r: Vec<String>)
    ensures
        r@ == v@,
{
    let mut r: Vec<String> = Vec::new();
    let mut i: usize = 0;
    while i < v.len()
        invariant
            i <= v.len(),
            r@ == v@.take(i as int),
        decreases v.len() - i,
    {
        r.push(v[i].clone());
        i = i + 1;
        assert(r@ == v@.take(i as int));
    }
    assert(v@.take(v.len() as int) == v@);
    r
}

fn clone_opt(o: &Option<String>) -> (r: Option<String>)
    ensures
        r == *o,
{
    match o {
        Some(s) => Some(s.clone()),
        None => None,
    }
}

/// The decision for one install from what the probe reported: the sticky
/// pick while it exists, otherwise the ladder over the applicable
/// candidates (only existing, newest activity, exact name, safe ancestor,
/// first), or unsupported when no candidate applies.
pub fn decide(game: &Game, install: &Install, environment: &Environment, observed: &Observations) -> (r:
    Decision)
    ensures
        decided(r, *game, *install, *environment, *observed),
{
    let candidates = install_candidates(game, install, environment, observed);
    if let Some(pick) = &environment.current_pick {
        if observed.pick_exists {
            return Decision::Chosen {
                game_id: install.catalog_id.clone(),
                catalog_id: install.catalog_id.clone(),
                install_identity: clone_opt(&install.identity),
                executables: clone_strings(&install.executables),
                data_dir: pick.clone(),
                candidates,
                reason: Reason::Sticky,
            };
        }
    }
    if candidates.len() == 0 {
        return Decision::Unsupported {
            game_id: install.catalog_id.clone(),
            catalog_id: install.catalog_id.clone(),
            install_identity: clone_opt(&install.identity),
            executables: clone_strings(&install.executables),
            candidates,
            reason: string_of(&chars_of("no save candidate applies to this install")),
        };
    }
    let (data_dir, reason) = choose_dir(
        &candidates,
        &observed.existing,
        &observed.activity,
        install,
        environment,
    );
    Decision::Chosen {
        game_id: install.catalog_id.clone(),
        catalog_id: install.catalog_id.clone(),
        install_identity: clone_opt(&install.identity),
        executables: clone_strings(&install.executables),
        data_dir,
        candidates,
        reason,
    }
}

/// Whether a file the catalog lists for the build is in the install
/// folder, as the probe tells.
fn listed_present<P: Probe>(game: &Game, b: Platform, install: &Install, probe: &P) -> bool {
    let dir = chars_of(install.install_dir.as_str());
    let mut i: usize = 0;
    while i < game.executables.len()
        invariant
            i <= game.executables.len(),
        decreases game.executables.len() - i,
    {
        if game.executables[i].0 == b {
            let files = &game.executables[i].1;
            let mut k: usize = 0;
            while k < files.len()
                invariant
                    k <= files.len(),
                decreases files.len() - k,
            {
                let path = string_of(&crate::paths::join(&dir, &chars_of(files[k].as_str())));
                if probe.is_file(path.as_str()) {
                    return true;
                }
                k = k + 1;
            }
            return false;
        }
        i = i + 1;
    }
    false
}

/// Whether each build's listed files are present, asked only for a Linux
/// install with a Proton prefix.
fn build_presence<P: Probe>(game: &Game, install: &Install, probe: &P) -> (r: (bool, bool))
    ensures
        !chooses_build(*install) ==> !r.0 && !r.1,
{
    let choose = install.platform == Platform::Linux && install.proton_prefix.is_some();
    if choose {
        (listed_present(game, Platform::Linux, install, probe), listed_present(game, Platform::Windows, install, probe))
    } else {
        (false, false)
    }
}

/// The builds whose save locations a resolve considers: the install's own
/// platform, or for a Linux install with a Proton prefix the build whose
/// listed files the probe finds in the install folder when only one
/// build's are there, else both.
pub fn install_builds<P: Probe>(game: &Game, install: &Install, probe: &P) -> (r: Vec<Platform>)
    ensures
        exists|linux_present: bool, windows_present: bool|
            r@ == #[trigger] builds_spec(*install, linux_present, windows_present),
        !chooses_build(*install) ==> r@ == seq![install.platform],
{
    let (l, w) = build_presence(game, install, probe);
    let r = decide_builds(install, l, w);
    assert(r@ == builds_spec(*install, l, w));
    r
}

/// What the observations of a resolve hold whatever the probe answers: the
/// profile is `steamuser` without a prefix and a profile rule's pick with
/// one; the pick is missing when there is none; files decide a build only
/// for a Linux install with a prefix; one existence answer per candidate
/// when the pick is gone and candidates exist (none otherwise); and one
/// activity answer per existing candidate when several exist (none
/// otherwise).
pub open spec fn observed_shape(game: Game, install: Install, env: Environment, obs: Observations) -> bool {
    let c = obs_candidates(game.save@, install, env, obs);
    let looked = !obs.pick_exists && c.len() > 0;
    &&& install.proton_prefix is None ==> obs.profile@ == "steamuser"@
    &&& install.proton_prefix is Some ==> exists|children: Seq<String>|
        obs.profile@ == #[trigger] crate::placeholders::profile_spec(children)
    &&& env.current_pick is None ==> !obs.pick_exists
    &&& !chooses_build(install) ==> !obs.linux_present && !obs.windows_present
    &&& obs.existing@.len() == if looked {
        c.len()
    } else {
        0
    }
    &&& obs.activity@.len() == if looked && kept(c, obs.existing@).len() > 1 {
        kept(c, obs.existing@).len()
    } else {
        0
    }
}

/// Resolves one install: asks the probe for the Proton profile (when the
/// install has a prefix), which build a Linux install with a prefix runs
/// (from the files present), whether the sticky pick still exists, which
/// candidates exist and, among several existing ones, their newest save
/// activity; then decides. Whatever the probe answers, the result is the
/// decision for some such set of answers.
pub fn resolve<P: Probe>(game: &Game, install: &Install, environment: &Environment, probe: &P) -> (r:
    Decision)
    ensures
        exists|observed: Observations|
            decided(r, *game, *install, *environment, observed) && #[trigger] observed_shape(
                *game,
                *install,
                *environment,
                observed,
            ),
{
    let user = match &install.proton_prefix {
        Some(prefix) => profile(prefix.as_str(), probe),
        None => string_of(&chars_of("steamuser")),
    };
    let (linux_present, windows_present) = build_presence(game, install, probe);
    let first = Observations {
        profile: user,
        pick_exists: false,
        existing: Vec::new(),
        activity: Vec::new(),
        linux_present,
        windows_present,
    };
    let candidates = install_candidates(game, install, environment, &first);
    let pick_exists = match &environment.current_pick {
        Some(pick) => probe.is_dir(pick.as_str()),
        None => false,
    };
    let mut existing: Vec<bool> = Vec::new();
    let mut activity: Vec<Option<u64>> = Vec::new();
    let ghost c = strs(candidates@);
    if !pick_exists && candidates.len() > 0 {
        let mut found: Vec<String> = Vec::new();
        let mut i: usize = 0;
        while i < candidates.len()
            invariant
                i <= candidates.len(),
                existing@.len() == i,
                c == strs(candidates@),
                strs(found@) == kept(c.take(i as int), existing@),
            decreases candidates.len() - i,
        {
            let here = probe.is_dir(candidates[i].as_str());
            let ghost before = existing@;
            existing.push(here);
            proof {
                assert(c.take(i + 1).drop_last() == c.take(i as int));
                lemma_kept_flags(c.take(i as int), before, existing@);
            }
            if here {
                found.push(candidates[i].clone());
            }
            assert(strs(found@) =~= kept(c.take(i + 1), existing@));
            i = i + 1;
        }
        assert(c.take(candidates.len() as int) == c);
        if found.len() > 1 {
            let globs: Vec<String> = Vec::new();
            let mut k: usize = 0;
            while k < found.len()
                invariant
                    k <= found.len(),
                    activity@.len() == k,
                decreases found.len() - k,
            {
                activity.push(probe.newest_activity(found[k].as_str(), globs.as_slice()));
                k = k + 1;
            }
        }
    }
    let observed = Observations { profile: first.profile, pick_exists, existing, activity, linux_present, windows_present };
    assert(obs_candidates(game.save@, *install, *environment, observed) == c);
    let r = decide(game, install, environment, &observed);
    assert(observed_shape(*game, *install, *environment, observed));
    r
}

/// Flags beyond a list's end are not read.
proof fn lemma_kept_flags(c: Seq<Seq<char>>, f: Seq<bool>, g: Seq<bool>)
    requires
        f.len() >= c.len(),
        g.len() >= f.len(),
        forall|k: int| 0 <= k < f.len() ==> f[k] == g[k],
    ensures
        kept(c, f) == kept(c, g),
    decreases c.len(),
{
    if c.len() > 0 {
        lemma_kept_flags(c.drop_last(), f, g);
    }
}


// ---- install-level ids -----------------------------------------------------

/// A chosen install as the id assignment sees it: catalog id, identity,
/// executables, data directory and candidates.
pub type InstallView = (Seq<char>, Option<Seq<char>>, Seq<Seq<char>>, Seq<char>, Seq<Seq<char>>);

/// A chosen install on its way to a record.
struct Named {
    catalog_id: String,
    identity: Option<String>,
    executables: Vec<String>,
    data_dir: String,
    candidates: Vec<String>,
}

spec fn named_view(n: Named) -> InstallView {
    (n.catalog_id@, opt_view(n.identity), strs(n.executables@), n.data_dir@, strs(n.candidates@))
}

spec fn named_views(v: Seq<Named>) -> Seq<InstallView> {
    v.map_values(|n: Named| named_view(n))
}

/// The chosen decisions, in order.
pub open spec fn chosen_of(ds: Seq<Decision>) -> Seq<InstallView>
    decreases ds.len(),
{
    if ds.len() == 0 {
        Seq::empty()
    } else {
        let prev = chosen_of(ds.drop_last());
        match ds.last() {
            Decision::Chosen {
                catalog_id,
                install_identity,
                executables,
                data_dir,
                candidates,
                ..
            } => prev.push(
                (
                    catalog_id@,
                    opt_view(install_identity),
                    strs(executables@),
                    data_dir@,
                    strs(candidates@),
                ),
            ),
            Decision::Unsupported { .. } => prev,
        }
    }
}

/// The unsupported decisions, in order.
pub open spec fn unsupported_of(ds: Seq<Decision>) -> Seq<Decision>
    decreases ds.len(),
{
    if ds.len() == 0 {
        Seq::empty()
    } else {
        let prev = unsupported_of(ds.drop_last());
        if ds.last() is Unsupported {
            prev.push(ds.last())
        } else {
            prev
        }
    }
}

/// `Option<String>` order: `None` first, then by text.
pub open spec fn opt_text_order(a: Option<Seq<char>>, b: Option<Seq<char>>) -> int {
    match (a, b) {
        (None, None) => 0,
        (None, Some(_)) => -1,
        (Some(_), None) => 1,
        (Some(x), Some(y)) => text_order(x, y),
    }
}

/// Installs order by catalog id, then identity, then data directory.
pub open spec fn install_order(a: InstallView, b: InstallView) -> int {
    if text_order(a.0, b.0) != 0 {
        text_order(a.0, b.0)
    } else if opt_text_order(a.1, b.1) != 0 {
        opt_text_order(a.1, b.1)
    } else {
        path_order(a.3, b.3)
    }
}

/// `x` inserted into `s` after every element not above it (stable
/// insertion).
pub open spec fn insert_install(s: Seq<InstallView>, x: InstallView) -> Seq<InstallView>
    decreases s.len(),
{
    if s.len() == 0 {
        seq![x]
    } else if install_order(s.last(), x) <= 0 {
        s.push(x)
    } else {
        insert_install(s.drop_last(), x).push(s.last())
    }
}

/// The stable sort of installs by [`install_order`].
pub open spec fn sort_installs_spec(s: Seq<InstallView>) -> Seq<InstallView>
    decreases s.len(),
{
    if s.len() == 0 {
        Seq::empty()
    } else {
        insert_install(sort_installs_spec(s.drop_last()), s.last())
    }
}

proof fn lemma_insert_install(s: Seq<InstallView>, x: InstallView, p: int)
    requires
        0 <= p <= s.len(),
        p == 0 || install_order(s[p - 1], x) <= 0,
        forall|j: int| p <= j < s.len() ==> install_order(#[trigger] s[j], x) > 0,
    ensures
        insert_install(s, x) == s.take(p).push(x) + s.skip(p),
    decreases s.len(),
{
    if s.len() == 0 {
        assert(s.take(p).push(x) + s.skip(p) =~= seq![x]);
    } else if install_order(s.last(), x) <= 0 {
        assert(p == s.len());
        assert(s.take(p).push(x) + s.skip(p) =~= s.push(x));
    } else {
        let t = s.drop_last();
        lemma_insert_install(t, x, p);
        assert(t.take(p).push(x) + t.skip(p) + seq![s.last()] =~= s.take(p).push(x) + s.skip(p));
    }
}

fn opt_text_compare(a: &Option<String>, b: &Option<String>) -> (r: i8)
    ensures
        r as int == opt_text_order(opt_view(*a), opt_view(*b)),
{
    match (a, b) {
        (None, None) => 0,
        (None, Some(_)) => -1,
        (Some(_), None) => 1,
        (Some(x), Some(y)) => {
            let xv = chars_of(x.as_str());
            let yv = chars_of(y.as_str());
            text_compare(&xv, &yv)
        },
    }
}

fn install_compare(a: &Named, b: &Named) -> (r: i8)
    ensures
        r as int == install_order(named_view(*a), named_view(*b)),
{
    let ac = chars_of(a.catalog_id.as_str());
    let bc = chars_of(b.catalog_id.as_str());
    let c = text_compare(&ac, &bc);
    if c != 0 {
        return c;
    }
    let i = opt_text_compare(&a.identity, &b.identity);
    if i != 0 {
        return i;
    }
    let ad = chars_of(a.data_dir.as_str());
    let bd = chars_of(b.data_dir.as_str());
    path_compare(&ad, &bd)
}

fn sort_installs(v: Vec<Named>) -> (r: Vec<Named>)
    ensures
        named_views(r@) == sort_installs_spec(named_views(v@)),
{
    let ghost orig = v@;
    let mut rest = v;
    let mut sorted: Vec<Named> = Vec::new();
    let mut i: usize = 0;
    assert(orig.len() == rest.len());
    while rest.len() > 0
        invariant
            i <= orig.len() <= usize::MAX,
            rest@ == orig.skip(i as int),
            named_views(sorted@) == sort_installs_spec(named_views(orig.take(i as int))),
        decreases rest.len(),
    {
        let x = rest.remove(0);
        assert(x == orig[i as int]);
        let mut p: usize = sorted.len();
        while p > 0 && install_compare(&sorted[p - 1], &x) > 0
            invariant
                p <= sorted.len(),
                forall|j: int|
                    p <= j < sorted.len() ==> install_order(
                        #[trigger] named_views(sorted@)[j],
                        named_view(x),
                    ) > 0,
            decreases p,
        {
            p = p - 1;
        }
        let ghost before = sorted@;
        proof {
            lemma_insert_install(named_views(before), named_view(x), p as int);
            let w = named_views(orig.take(i + 1));
            assert(w.drop_last() =~= named_views(orig.take(i as int)));
            assert(w.last() == named_view(x));
            assert(orig.skip(i as int).drop_first() == orig.skip(i + 1));
        }
        sorted.insert(p, x);
        assert(named_views(sorted@) =~= named_views(before).take(p as int).push(named_view(x))
            + named_views(before).skip(p as int));
        i = i + 1;
    }
    assert(orig.take(orig.len() as int) == orig);
    sorted
}


// ---- merging ---------------------------------------------------------------

/// `x` inserted into sorted paths after every path not above it.
pub open spec fn insert_path(s: Seq<Seq<char>>, x: Seq<char>) -> Seq<Seq<char>>
    decreases s.len(),
{
    if s.len() == 0 {
        seq![x]
    } else if path_order(s.last(), x) <= 0 {
        s.push(x)
    } else {
        insert_path(s.drop_last(), x).push(s.last())
    }
}

/// `sort()` on paths: stable, in path order.
pub open spec fn sort_paths(s: Seq<Seq<char>>) -> Seq<Seq<char>>
    decreases s.len(),
{
    if s.len() == 0 {
        Seq::empty()
    } else {
        insert_path(sort_paths(s.drop_last()), s.last())
    }
}

/// `dedup()` on paths: a path equal to the one kept before it is dropped.
pub open spec fn dedup_paths(s: Seq<Seq<char>>) -> Seq<Seq<char>>
    decreases s.len(),
{
    if s.len() == 0 {
        Seq::empty()
    } else {
        let prev = dedup_paths(s.drop_last());
        if prev.len() > 0 && path_eq(prev.last(), s.last()) {
            prev
        } else {
            prev.push(s.last())
        }
    }
}

/// Sorted, then without repeats.
pub open spec fn tidy(s: Seq<Seq<char>>) -> Seq<Seq<char>> {
    dedup_paths(sort_paths(s))
}

proof fn lemma_insert_path(s: Seq<Seq<char>>, x: Seq<char>, p: int)
    requires
        0 <= p <= s.len(),
        p == 0 || path_order(s[p - 1], x) <= 0,
        forall|j: int| p <= j < s.len() ==> path_order(#[trigger] s[j], x) > 0,
    ensures
        insert_path(s, x) == s.take(p).push(x) + s.skip(p),
    decreases s.len(),
{
    if s.len() == 0 {
        assert(s.take(p).push(x) + s.skip(p) =~= seq![x]);
    } else if path_order(s.last(), x) <= 0 {
        assert(p == s.len());
        assert(s.take(p).push(x) + s.skip(p) =~= s.push(x));
    } else {
        let t = s.drop_last();
        lemma_insert_path(t, x, p);
        assert(t.take(p).push(x) + t.skip(p) + seq![s.last()] =~= s.take(p).push(x) + s.skip(p));
    }
}

fn sort_path_list(v: Vec<String>) -> (r: Vec<String>)
    ensures
        strs(r@) == sort_paths(strs(v@)),
{
    let ghost orig = v@;
    let mut rest = v;
    let mut sorted: Vec<String> = Vec::new();
    let mut i: usize = 0;
    assert(orig.len() == rest.len());
    while rest.len() > 0
        invariant
            i <= orig.len() <= usize::MAX,
            rest@ == orig.skip(i as int),
            strs(sorted@) == sort_paths(strs(orig.take(i as int))),
        decreases rest.len(),
    {
        let x = rest.remove(0);
        assert(x == orig[i as int]);
        let xv = chars_of(x.as_str());
        let mut p: usize = sorted.len();
        while p > 0 && path_compare(&chars_of(sorted[p - 1].as_str()), &xv) > 0
            invariant
                p <= sorted.len(),
                xv@ == x@,
                forall|j: int| p <= j < sorted.len() ==> path_order(#[trigger] strs(sorted@)[j], x@) > 0,
            decreases p,
        {
            p = p - 1;
        }
        let ghost before = sorted@;
        proof {
            lemma_insert_path(strs(before), x@, p as int);
            let w = strs(orig.take(i + 1));
            assert(w.drop_last() =~= strs(orig.take(i as int)));
            assert(w.last() == x@);
            assert(orig.skip(i as int).drop_first() == orig.skip(i + 1));
        }
        sorted.insert(p, x);
        assert(strs(sorted@) =~= strs(before).take(p as int).push(xv@) + strs(before).skip(p as int));
        i = i + 1;
    }
    assert(orig.take(orig.len() as int) == orig);
    sorted
}

fn dedup_path_list(v: Vec<String>) -> (r: Vec<String>)
    ensures
        strs(r@) == dedup_paths(strs(v@)),
{
    let ghost orig = v@;
    let mut rest = v;
    let mut kept_list: Vec<String> = Vec::new();
    let mut i: usize = 0;
    assert(orig.len() == rest.len());
    while rest.len() > 0
        invariant
            i <= orig.len() <= usize::MAX,
            rest@ == orig.skip(i as int),
            strs(kept_list@) == dedup_paths(strs(orig.take(i as int))),
        decreases rest.len(),
    {
        let x = rest.remove(0);
        assert(x == orig[i as int]);
        proof {
            let w = strs(orig.take(i + 1));
            assert(w.drop_last() =~= strs(orig.take(i as int)));
            assert(w.last() == x@);
            assert(orig.skip(i as int).drop_first() == orig.skip(i + 1));
        }
        let repeat = kept_list.len() > 0 && same_path(
            &chars_of(kept_list[kept_list.len() - 1].as_str()),
            &chars_of(x.as_str()),
        );
        if !repeat {
            let ghost before = kept_list@;
            kept_list.push(x);
            assert(strs(kept_list@) =~= strs(before).push(orig[i as int]@));
        }
        i = i + 1;
    }
    assert(orig.take(orig.len() as int) == orig);
    kept_list
}

fn tidy_paths(v: Vec<String>) -> (r: Vec<String>)
    ensures
        strs(r@) == tidy(strs(v@)),
{
    let sorted = sort_path_list(v);
    dedup_path_list(sorted)
}

/// How many installs before position `j` share the catalog id of
/// install `k`.
pub open spec fn same_before(s: Seq<InstallView>, k: int, j: int) -> nat
    decreases j,
{
    if j <= 0 {
        0
    } else {
        same_before(s, k, j - 1) + if s[j - 1].0 == s[k].0 {
            1nat
        } else {
            0nat
        }
    }
}

/// The install-level id of the `k`-th sorted install: the first install per
/// catalog id keeps the base id, the others get `#<identity>` (`#<index>`
/// when the identity is unavailable).
pub open spec fn install_id(s: Seq<InstallView>, k: int) -> Seq<char> {
    let index = same_before(s, k, k);
    if index == 0 {
        s[k].0
    } else {
        s[k].0 + "#"@ + match s[k].1 {
            Some(identity) => identity,
            None => decimal(index),
        }
    }
}

proof fn lemma_same_before(s: Seq<InstallView>, k: int, j: int)
    ensures
        same_before(s, k, j) == 0 <==> forall|i: int| 0 <= i < j ==> #[trigger] s[i].0 != s[k].0,
    decreases j,
{
    if j > 0 {
        lemma_same_before(s, k, j - 1);
        assert forall|i: int| 0 <= i < j && same_before(s, k, j) == 0 implies #[trigger] s[i].0 != s[k].0 by {
            if i < j - 1 {
                assert(s[i].0 != s[k].0);
            }
        }
    }
}

/// A catalog id without `#`, then `#` and a suffix: the id is kept before
/// the `#`.
proof fn lemma_hashed_id(c: Seq<char>, y: Seq<char>)
    requires
        !c.contains('#'),
    ensures
        (c + "#"@ + y).len() > c.len(),
        (c + "#"@ + y)[c.len() as int] == '#',
        (c + "#"@ + y).take(c.len() as int) == c,
        (c + "#"@ + y).skip(c.len() as int + 1) == y,
        forall|i: int| 0 <= i < c.len() ==> #[trigger] (c + "#"@ + y)[i] == c[i],
{
    reveal_strlit("#");
    assert((c + "#"@ + y).take(c.len() as int) == c);
    assert((c + "#"@ + y).skip(c.len() as int + 1) == y);
}

proof fn lemma_ids_differ(s: Seq<InstallView>, a: int, b: int)
    requires
        0 <= a < b < s.len(),
        !s[a].0.contains('#'),
        !s[b].0.contains('#'),
        s[a].1 is Some,
        s[b].1 is Some,
        s[a].0 == s[b].0 ==> s[a].1 != s[b].1,
    ensures
        install_id(s, a) != install_id(s, b),
{
    reveal_strlit("#");
    let ca = s[a].0;
    let cb = s[b].0;
    lemma_same_before(s, a, a);
    lemma_same_before(s, b, b);
    let xa = install_id(s, a);
    let xb = install_id(s, b);
    lemma_hashed_id(ca, s[a].1->0);
    lemma_hashed_id(cb, s[b].1->0);
    if xa == xb {
        let hashed_a = same_before(s, a, a) != 0;
        let hashed_b = same_before(s, b, b) != 0;
        if ca == cb {
            assert(s[a].0 == s[b].0);
            assert(hashed_b);
            if hashed_a {
                assert(xa.skip(ca.len() as int + 1) == s[a].1->0);
                assert(xb.skip(cb.len() as int + 1) == s[b].1->0);
            } else {
                assert(xa.len() < xb.len());
            }
        } else if !hashed_a && !hashed_b {
        } else if hashed_a && !hashed_b {
            assert(xb.contains(xa[ca.len() as int]));
        } else if !hashed_a && hashed_b {
            assert(xa.contains(xb[cb.len() as int]));
        } else {
            if ca.len() < cb.len() {
                assert(xb[ca.len() as int] == cb[ca.len() as int]);
                assert(cb.contains(cb[ca.len() as int]));
            } else if cb.len() < ca.len() {
                assert(xa[cb.len() as int] == ca[cb.len() as int]);
                assert(ca.contains(ca[cb.len() as int]));
            } else {
                assert(xa.take(ca.len() as int) == xb.take(cb.len() as int));
            }
        }
    }
}

/// The id rule for installs in install order: an install keeps its catalog
/// id exactly when no install before it has that catalog id; each later one
/// gets `#` and its identity.
pub proof fn law_install_ids(s: Seq<InstallView>)
    ensures
        forall|k: int|
            0 <= k < s.len() ==> (#[trigger] install_id(s, k) == s[k].0 <==> forall|i: int|
                0 <= i < k ==> s[i].0 != s[k].0),
        forall|k: int|
            0 <= k < s.len() && s[k].1 is Some && (exists|i: int| 0 <= i < k && s[i].0 == s[k].0)
                ==> #[trigger] install_id(s, k) == s[k].0 + "#"@ + s[k].1->0,
{
    reveal_strlit("#");
    assert forall|k: int| 0 <= k < s.len() implies (#[trigger] install_id(s, k) == s[k].0 <==> forall|i: int|
        0 <= i < k ==> s[i].0 != s[k].0) by {
        lemma_same_before(s, k, k);
        if same_before(s, k, k) != 0 {
            assert(install_id(s, k).len() > s[k].0.len());
        }
    }
    assert forall|k: int|
        0 <= k < s.len() && s[k].1 is Some && (exists|i: int| 0 <= i < k && s[i].0 == s[k].0)
            implies #[trigger] install_id(s, k) == s[k].0 + "#"@ + s[k].1->0 by {
        lemma_same_before(s, k, k);
        let i = choose|i: int| 0 <= i < k && s[i].0 == s[k].0;
        assert(s[i].0 == s[k].0);
    }
}

/// Where catalog ids hold no `#` and every install has an identity,
/// distinct among the installs of one catalog id, no two installs in
/// install order get the same id.
pub proof fn law_install_ids_are_distinct(s: Seq<InstallView>)
    requires
        forall|k: int| 0 <= k < s.len() ==> !(#[trigger] s[k].0).contains('#') && s[k].1 is Some,
        forall|a: int, b: int|
            0 <= a < b < s.len() && s[a].0 == s[b].0 ==> #[trigger] s[a].1 != #[trigger] s[b].1,
    ensures
        forall|a: int, b: int| 0 <= a < b < s.len() ==> #[trigger] install_id(s, a) != #[trigger] install_id(s, b),
{
    assert forall|a: int, b: int| 0 <= a < b < s.len() implies #[trigger] install_id(s, a) != #[trigger] install_id(
        s,
        b,
    ) by {
        assert(!s[a].0.contains('#') && s[a].1 is Some);
        assert(!s[b].0.contains('#') && s[b].1 is Some);
        lemma_ids_differ(s, a, b);
    }
}

/// A record as the merge sees it: game id, catalog id, data directory,
/// executables, candidates and install ids.
pub type RecordView = (Seq<char>, Seq<char>, Seq<char>, Seq<Seq<char>>, Seq<Seq<char>>, Seq<Seq<char>>);

/// The identity as a list: empty when unknown.
pub open spec fn ids_of(identity: Option<Seq<char>>) -> Seq<Seq<char>> {
    match identity {
        Some(i) => seq![i],
        None => Seq::empty(),
    }
}

/// The first record whose data directory is the same path as `d`.
pub open spec fn first_dir(recs: Seq<RecordView>, d: Seq<char>) -> Option<int> {
    if exists|k: int| 0 <= k < recs.len() && #[trigger] path_eq(recs[k].2, d) {
        Some(
            choose|k: int|
                0 <= k < recs.len() && path_eq(recs[k].2, d) && forall|j: int|
                    0 <= j < k ==> !#[trigger] path_eq(recs[j].2, d),
        )
    } else {
        None
    }
}

/// The records after the first `m` sorted installs: an install whose data
/// directory a record already has joins it (executables and candidates
/// merged, sorted and deduplicated, its identity added); otherwise it starts
/// a record of its own.
pub open spec fn merged(s: Seq<InstallView>, m: int) -> Seq<RecordView>
    decreases m,
{
    if m <= 0 {
        Seq::empty()
    } else {
        let prev = merged(s, m - 1);
        let n = s[m - 1];
        match first_dir(prev, n.3) {
            Some(k) => prev.update(
                k,
                (
                    prev[k].0,
                    prev[k].1,
                    prev[k].2,
                    tidy(prev[k].3 + n.2),
                    tidy(prev[k].4 + n.4),
                    prev[k].5 + ids_of(n.1),
                ),
            ),
            None => prev.push((install_id(s, m - 1), n.0, n.3, n.2, n.4, ids_of(n.1))),
        }
    }
}

/// `g` is the chosen record `v`.
pub open spec fn record_is(g: GameRecord, v: RecordView) -> bool {
    &&& g.game_id@ == v.0
    &&& g.catalog_id@ == v.1
    &&& g.data_dir matches Some(d) && d@ == v.2
    &&& strs(g.executables@) == v.3
    &&& strs(g.candidates@) == v.4
    &&& strs(g.install_ids@) == v.5
    &&& g.unsupported is None
}

/// `g` is the record of the unsupported decision `d`.
pub open spec fn unsupported_record_is(g: GameRecord, d: Decision) -> bool {
    match d {
        Decision::Unsupported {
            game_id,
            catalog_id,
            install_identity,
            executables,
            candidates,
            reason,
        } => {
            &&& g.game_id@ == game_id@
            &&& g.catalog_id@ == catalog_id@
            &&& g.data_dir is None
            &&& strs(g.executables@) == strs(executables@)
            &&& strs(g.candidates@) == strs(candidates@)
            &&& strs(g.install_ids@) == ids_of(opt_view(install_identity))
            &&& opt_view(g.unsupported) == Some(reason@)
        },
        Decision::Chosen { .. } => false,
    }
}

fn identity_list(identity: &Option<String>) -> (r: Vec<String>)
    ensures
        strs(r@) == ids_of(opt_view(*identity)),
{
    let mut r: Vec<String> = Vec::new();
    if let Some(i) = identity {
        r.push(i.clone());
        assert(strs(r@) =~= seq![i@]);
    } else {
        assert(strs(r@) =~= Seq::<Seq<char>>::empty());
    }
    r
}

fn same_catalog_before(sorted: &Vec<Named>, k: usize) -> (r: usize)
    requires
        k < sorted.len(),
    ensures
        r == same_before(named_views(sorted@), k as int, k as int),
{
    let ghost s = named_views(sorted@);
    let mine = chars_of(sorted[k].catalog_id.as_str());
    let mut count: usize = 0;
    let mut j: usize = 0;
    while j < k
        invariant
            j <= k < sorted.len(),
            s == named_views(sorted@),
            mine@ == s[k as int].0,
            count == same_before(s, k as int, j as int),
            count <= j,
        decreases k - j,
    {
        let other = chars_of(sorted[j].catalog_id.as_str());
        assert(other@ == s[j as int].0);
        if crate::text::chars_eq(&other, &mine) {
            count = count + 1;
        }
        j = j + 1;
    }
    count
}

fn install_id_of(sorted: &Vec<Named>, k: usize) -> (r: String)
    requires
        k < sorted.len(),
    ensures
        r@ == install_id(named_views(sorted@), k as int),
{
    let index = same_catalog_before(sorted, k);
    if index == 0 {
        return sorted[k].catalog_id.clone();
    }
    let mut id: Vec<char> = chars_of(sorted[k].catalog_id.as_str());
    push_str(&mut id, "#");
    match &sorted[k].identity {
        Some(identity) => push_str(&mut id, identity.as_str()),
        None => {
            let digits = decimal_of(index as u64);
            push_all(&mut id, &digits);
        },
    }
    string_of(&id)
}

fn find_record(records: &Vec<GameRecord>, dir: &[char], Ghost(recs): Ghost<Seq<RecordView>>) -> (r:
    Option<usize>)
    requires
        records.len() == recs.len(),
        forall|k: int| 0 <= k < recs.len() ==> #[trigger] record_is(records@[k], recs[k]),
    ensures
        match r {
            Some(k) => k < recs.len() && first_dir(recs, dir@) == Some(k as int),
            None => first_dir(recs, dir@) is None,
        },
{
    let mut i: usize = 0;
    while i < records.len()
        invariant
            i <= records.len() == recs.len(),
            forall|k: int| 0 <= k < recs.len() ==> #[trigger] record_is(records@[k], recs[k]),
            forall|j: int| 0 <= j < i ==> !#[trigger] path_eq(recs[j].2, dir@),
        decreases records.len() - i,
    {
        assert(record_is(records@[i as int], recs[i as int]));
        let hit = match &records[i].data_dir {
            Some(d) => same_path(&chars_of(d.as_str()), dir),
            None => false,
        };
        if hit {
            proof {
                assert(0 <= i < recs.len() && path_eq(recs[i as int].2, dir@));
                let k = choose|k: int|
                    0 <= k < recs.len() && path_eq(recs[k].2, dir@) && forall|j: int|
                        0 <= j < k ==> !#[trigger] path_eq(recs[j].2, dir@);
                assert(0 <= i < recs.len() && path_eq(recs[i as int].2, dir@) && forall|j: int|
                    0 <= j < i ==> !#[trigger] path_eq(recs[j].2, dir@));
                if k < i {
                    assert(!path_eq(recs[k].2, dir@));
                } else if k > i {
                    assert(!path_eq(recs[i as int].2, dir@));
                }
            }
            return Some(i);
        }
        i = i + 1;
    }
    None
}


/// The records of `decisions`, as [`assign_games`] lays them out: the
/// chosen ones merged by data directory, then the unsupported ones.
pub open spec fn assigned(decisions: Seq<Decision>, r: Seq<GameRecord>) -> bool {
    let s = sort_installs_spec(chosen_of(decisions));
    let m = merged(s, s.len() as int);
    let u = unsupported_of(decisions);
    &&& r.len() == m.len() + u.len()
    &&& forall|k: int| 0 <= k < m.len() ==> #[trigger] record_is(r[k], m[k])
    &&& forall|k: int| 0 <= k < u.len() ==> #[trigger] unsupported_record_is(r[m.len() + k], u[k])
}

/// Merges decisions whose chosen directory is the same path and assigns
/// install-level ids: installs are ordered by catalog id, identity and data
/// directory; the first install per catalog id keeps the base id, the others
/// get `#<identity>` (`#<index>` when identity is unavailable). Unsupported
/// decisions follow, in their order.
pub fn assign_games(decisions: &[Decision]) -> (r: Vec<GameRecord>)
    ensures
        assigned(decisions@, r@),
{
    let mut chosen: Vec<Named> = Vec::new();
    let mut unsupported: Vec<GameRecord> = Vec::new();
    let mut i: usize = 0;
    while i < decisions.len()
        invariant
            i <= decisions.len(),
            named_views(chosen@) == chosen_of(decisions@.take(i as int)),
            unsupported.len() == unsupported_of(decisions@.take(i as int)).len(),
            forall|k: int|
                0 <= k < unsupported.len() ==> #[trigger] unsupported_record_is(
                    unsupported@[k],
                    unsupported_of(decisions@.take(i as int))[k],
                ),
        decreases decisions.len() - i,
    {
        let ghost t = decisions@.take(i + 1);
        assert(t.drop_last() == decisions@.take(i as int));
        assert(t.last() == decisions@[i as int]);
        match &decisions[i] {
            Decision::Chosen { catalog_id, install_identity, executables, data_dir, candidates, .. } => {
                let ghost before = chosen@;
                chosen.push(
                    Named {
                        catalog_id: catalog_id.clone(),
                        identity: clone_opt(install_identity),
                        executables: clone_strings(executables),
                        data_dir: data_dir.clone(),
                        candidates: clone_strings(candidates),
                    },
                );
                assert(named_views(chosen@) =~= named_views(before).push(named_view(chosen@.last())));
            },
            Decision::Unsupported {
                game_id,
                catalog_id,
                install_identity,
                executables,
                candidates,
                reason,
            } => {
                unsupported.push(
                    GameRecord {
                        game_id: game_id.clone(),
                        catalog_id: catalog_id.clone(),
                        data_dir: None,
                        executables: clone_strings(executables),
                        candidates: clone_strings(candidates),
                        install_ids: identity_list(install_identity),
                        unsupported: Some(reason.clone()),
                    },
                );
            },
        }
        i = i + 1;
    }
    assert(decisions@.take(decisions.len() as int) == decisions@);
    let sorted = sort_installs(chosen);
    let ghost s = named_views(sorted@);
    let mut records: Vec<GameRecord> = Vec::new();
    let mut k: usize = 0;
    while k < sorted.len()
        invariant
            k <= sorted.len(),
            s == named_views(sorted@),
            records.len() == merged(s, k as int).len(),
            forall|j: int|
                0 <= j < records.len() ==> #[trigger] record_is(records@[j], merged(s, k as int)[j]),
        decreases sorted.len() - k,
    {
        let ghost prev = merged(s, k as int);
        let n = &sorted[k];
        assert(named_view(*n) == s[k as int]);
        let dir = chars_of(n.data_dir.as_str());
        match find_record(&records, &dir, Ghost(prev)) {
            Some(j) => {
                assert(record_is(records@[j as int], prev[j as int]));
                let mut executables = clone_strings(&records[j].executables);
                let mut more = clone_strings(&n.executables);
                let ghost e0 = executables@;
                let ghost e1 = more@;
                executables.append(&mut more);
                assert(strs(executables@) =~= strs(e0) + strs(e1));
                let executables = tidy_paths(executables);
                let mut candidates = clone_strings(&records[j].candidates);
                let mut more_candidates = clone_strings(&n.candidates);
                let ghost c0 = candidates@;
                let ghost c1 = more_candidates@;
                candidates.append(&mut more_candidates);
                assert(strs(candidates@) =~= strs(c0) + strs(c1));
                let candidates = tidy_paths(candidates);
                let mut install_ids = clone_strings(&records[j].install_ids);
                let mut identity = identity_list(&n.identity);
                let ghost i0 = install_ids@;
                let ghost i1 = identity@;
                install_ids.append(&mut identity);
                assert(strs(install_ids@) =~= strs(i0) + strs(i1));
                let record = GameRecord {
                    game_id: records[j].game_id.clone(),
                    catalog_id: records[j].catalog_id.clone(),
                    data_dir: clone_opt(&records[j].data_dir),
                    executables,
                    candidates,
                    install_ids,
                    unsupported: None,
                };
                let ghost before = records@;
                records[j] = record;
                proof {
                    let next = merged(s, k + 1);
                    assert(next == prev.update(
                        j as int,
                        (
                            prev[j as int].0,
                            prev[j as int].1,
                            prev[j as int].2,
                            tidy(prev[j as int].3 + s[k as int].2),
                            tidy(prev[j as int].4 + s[k as int].4),
                            prev[j as int].5 + ids_of(s[k as int].1),
                        ),
                    ));
                    assert forall|m: int| 0 <= m < records.len() implies #[trigger] record_is(
                        records@[m],
                        next[m],
                    ) by {
                        if m != j {
                            assert(records@[m] == before[m]);
                        }
                    }
                }
            },
            None => {
                let record = GameRecord {
                    game_id: install_id_of(&sorted, k),
                    catalog_id: n.catalog_id.clone(),
                    data_dir: Some(n.data_dir.clone()),
                    executables: clone_strings(&n.executables),
                    candidates: clone_strings(&n.candidates),
                    install_ids: identity_list(&n.identity),
                    unsupported: None,
                };
                let ghost before = records@;
                records.push(record);
                proof {
                    let next = merged(s, k + 1);
                    assert(next == prev.push(
                        (
                            install_id(s, k as int),
                            s[k as int].0,
                            s[k as int].3,
                            s[k as int].2,
                            s[k as int].4,
                            ids_of(s[k as int].1),
                        ),
                    ));
                    assert forall|m: int| 0 <= m < records.len() implies #[trigger] record_is(
                        records@[m],
                        next[m],
                    ) by {
                        if m < before.len() {
                            assert(records@[m] == before[m]);
                        }
                    }
                }
            },
        }
        k = k + 1;
    }
    let ghost chosen_records = records@;
    let ghost u = unsupported@;
    records.append(&mut unsupported);
    proof {
        assert forall|m: int| 0 <= m < chosen_records.len() implies #[trigger] record_is(
            records@[m],
            merged(s, s.len() as int)[m],
        ) by {
            assert(records@[m] == chosen_records[m]);
        }
        assert forall|m: int|
            0 <= m < unsupported_of(decisions@).len() implies #[trigger] unsupported_record_is(
            records@[chosen_records.len() + m],
            unsupported_of(decisions@)[m],
        ) by {
            assert(records@[chosen_records.len() + m] == u[m]);
        }
    }
    records
}


// ---- laws ------------------------------------------------------------------

/// Among the first `n` integers, one satisfying `p` implies a least one.
pub proof fn lemma_least(p: spec_fn(int) -> bool, n: int)
    requires
        exists|k: int| 0 <= k < n && #[trigger] p(k),
    ensures
        exists|k: int| 0 <= k < n && #[trigger] p(k) && forall|j: int| 0 <= j < k ==> !#[trigger] p(j),
    decreases n,
{
    if exists|k: int| 0 <= k < n - 1 && #[trigger] p(k) {
        lemma_least(p, n - 1);
        let k = choose|k: int| 0 <= k < n - 1 && #[trigger] p(k) && forall|j: int| 0 <= j < k ==> !#[trigger] p(j);
        assert(0 <= k < n && p(k));
    } else {
        let k = choose|k: int| 0 <= k < n && #[trigger] p(k);
        assert(k == n - 1);
        assert forall|j: int| 0 <= j < n - 1 implies !#[trigger] p(j) by {}
        assert(0 <= n - 1 < n && p(n - 1));
    }
}

proof fn lemma_first_dir(recs: Seq<RecordView>, d: Seq<char>)
    ensures
        match first_dir(recs, d) {
            Some(k) => 0 <= k < recs.len() && path_eq(recs[k].2, d),
            None => forall|k: int| 0 <= k < recs.len() ==> !#[trigger] path_eq(recs[k].2, d),
        },
{
    if exists|k: int| 0 <= k < recs.len() && #[trigger] path_eq(recs[k].2, d) {
        let p = |k: int| path_eq(recs[k].2, d);
        assert(exists|k: int| 0 <= k < recs.len() && #[trigger] p(k)) by {
            let k = choose|k: int| 0 <= k < recs.len() && #[trigger] path_eq(recs[k].2, d);
            assert(p(k));
        }
        lemma_least(p, recs.len() as int);
        let k = choose|k: int| 0 <= k < recs.len() && #[trigger] p(k) && forall|j: int| 0 <= j < k ==> !#[trigger] p(j);
        assert(0 <= k < recs.len() && path_eq(recs[k].2, d) && forall|j: int|
            0 <= j < k ==> !#[trigger] path_eq(recs[j].2, d)) by {
            assert forall|j: int| 0 <= j < k implies !#[trigger] path_eq(recs[j].2, d) by {
                assert(!p(j));
            }
        }
    }
}

/// Some record's data directory is the same path as `d`.
pub open spec fn has_dir(recs: Seq<RecordView>, d: Seq<char>) -> bool {
    exists|j: int| 0 <= j < recs.len() && #[trigger] path_eq(recs[j].2, d)
}

proof fn lemma_merged(s: Seq<InstallView>, m: int)
    requires
        0 <= m <= s.len(),
    ensures
        forall|i: int, j: int|
            0 <= i < j < merged(s, m).len() ==> !path_eq(#[trigger] merged(s, m)[i].2, #[trigger] merged(s, m)[j].2),
        forall|k: int| 0 <= k < m ==> has_dir(merged(s, m), #[trigger] s[k].3),
    decreases m,
{
    if m > 0 {
        lemma_merged(s, m - 1);
        let prev = merged(s, m - 1);
        let next = merged(s, m);
        let n = s[m - 1];
        let d = n.3;
        lemma_first_dir(prev, d);
        match first_dir(prev, d) {
            Some(j) => {
                let rec = (
                    prev[j].0,
                    prev[j].1,
                    prev[j].2,
                    tidy(prev[j].3 + n.2),
                    tidy(prev[j].4 + n.4),
                    prev[j].5 + ids_of(n.1),
                );
                assert(next == prev.update(j, rec));
                assert(next.len() == prev.len());
                assert forall|i: int| 0 <= i < next.len() implies #[trigger] next[i].2 == prev[i].2 by {
                    if i == j {
                        assert(next[i] == rec);
                    } else {
                        assert(next[i] == prev[i]);
                    }
                }
                assert forall|k: int| 0 <= k < m implies has_dir(next, #[trigger] s[k].3) by {
                    if k < m - 1 {
                        assert(has_dir(prev, s[k].3));
                        let w = choose|w: int| 0 <= w < prev.len() && #[trigger] path_eq(prev[w].2, s[k].3);
                        assert(next[w].2 == prev[w].2);
                        assert(0 <= w < next.len() && path_eq(next[w].2, s[k].3));
                    } else {
                        assert(next[j].2 == prev[j].2);
                        assert(0 <= j < next.len() && path_eq(next[j].2, s[k].3));
                    }
                }
                assert forall|a: int, b: int|
                    0 <= a < b < next.len() implies !path_eq(#[trigger] next[a].2, #[trigger] next[b].2) by {
                    assert(next[a].2 == prev[a].2);
                    assert(next[b].2 == prev[b].2);
                    assert(!path_eq(prev[a].2, prev[b].2));
                }
            },
            None => {
                let rec = (install_id(s, m - 1), n.0, n.3, n.2, n.4, ids_of(n.1));
                assert(next == prev.push(rec));
                assert forall|k: int| 0 <= k < m implies has_dir(next, #[trigger] s[k].3) by {
                    if k < m - 1 {
                        assert(has_dir(prev, s[k].3));
                        let w = choose|w: int| 0 <= w < prev.len() && #[trigger] path_eq(prev[w].2, s[k].3);
                        assert(next[w] == prev[w]);
                        assert(0 <= w < next.len() && path_eq(next[w].2, s[k].3));
                    } else {
                        assert(next[prev.len() as int] == rec);
                        assert(0 <= prev.len() < next.len() && path_eq(next[prev.len() as int].2, s[k].3));
                    }
                }
                assert forall|a: int, b: int|
                    0 <= a < b < next.len() implies !path_eq(#[trigger] next[a].2, #[trigger] next[b].2) by {
                    assert(next[a] == prev[a]);
                    if b == prev.len() {
                        assert(next[b] == rec);
                        assert(!path_eq(prev[a].2, d));
                    } else {
                        assert(next[b] == prev[b]);
                        assert(!path_eq(prev[a].2, prev[b].2));
                    }
                }
            },
        }
    }
}

/// One of the first `n` records has the data directory `d`.
pub open spec fn record_for(r: Seq<GameRecord>, n: int, d: Seq<char>) -> bool {
    exists|j: int| 0 <= j < n && #[trigger] path_eq(r[j].data_dir->0@, d)
}

/// Installs that chose the same save directory share one record: no two
/// records of chosen installs name the same directory, and every chosen
/// install's directory has a record.
pub proof fn law_one_record_per_save_dir(decisions: Seq<Decision>, r: Seq<GameRecord>)
    requires
        assigned(decisions, r),
    ensures
        ({
            let s = sort_installs_spec(chosen_of(decisions));
            let m = merged(s, s.len() as int);
            &&& forall|i: int, j: int|
                0 <= i < j < m.len() ==> !path_eq(
                    #[trigger] r[i].data_dir->0@,
                    #[trigger] r[j].data_dir->0@,
                )
            &&& forall|k: int| 0 <= k < s.len() ==> record_for(r, m.len() as int, #[trigger] s[k].3)
        }),
{
    let s = sort_installs_spec(chosen_of(decisions));
    let m = merged(s, s.len() as int);
    lemma_merged(s, s.len() as int);
    assert forall|i: int, j: int| 0 <= i < j < m.len() implies !path_eq(
        #[trigger] r[i].data_dir->0@,
        #[trigger] r[j].data_dir->0@,
    ) by {
        assert(record_is(r[i], m[i]));
        assert(record_is(r[j], m[j]));
        assert(!path_eq(m[i].2, m[j].2));
    }
    assert forall|k: int| 0 <= k < s.len() implies record_for(r, m.len() as int, #[trigger] s[k].3) by {
        assert(has_dir(m, s[k].3));
        let j = choose|j: int| 0 <= j < m.len() && #[trigger] path_eq(m[j].2, s[k].3);
        assert(record_is(r[j], m[j]));
        assert(path_eq(r[j].data_dir->0@, s[k].3));
    }
}

/// Every path of `a` is, up to path equality, one of `t`.
pub open spec fn holds_paths(t: Seq<Seq<char>>, a: Seq<Seq<char>>) -> bool {
    forall|i: int| 0 <= i < a.len() ==> #[trigger] has_path(t, a[i])
}

proof fn lemma_covers_of_contains(t: Seq<Seq<char>>, a: Seq<Seq<char>>)
    requires
        forall|e: Seq<char>| a.contains(e) ==> #[trigger] t.contains(e),
    ensures
        holds_paths(t, a),
{
    assert forall|i: int| 0 <= i < a.len() implies #[trigger] has_path(t, a[i]) by {
        assert(a.contains(a[i]));
        assert(t.contains(a[i]));
        let j = choose|j: int| 0 <= j < t.len() && t[j] == a[i];
        assert(path_eq(t[j], a[i]));
    }
}

proof fn lemma_covers_trans(t: Seq<Seq<char>>, u: Seq<Seq<char>>, a: Seq<Seq<char>>)
    requires
        holds_paths(t, u),
        holds_paths(u, a),
    ensures
        holds_paths(t, a),
{
    assert forall|i: int| 0 <= i < a.len() implies #[trigger] has_path(t, a[i]) by {
        assert(has_path(u, a[i]));
        let j = choose|j: int| 0 <= j < u.len() && #[trigger] path_eq(u[j], a[i]);
        assert(has_path(t, u[j]));
        let k = choose|k: int| 0 <= k < t.len() && #[trigger] path_eq(t[k], u[j]);
        assert(path_eq(t[k], a[i]));
    }
}

proof fn lemma_insert_path_elems(s: Seq<Seq<char>>, x: Seq<char>)
    ensures
        forall|e: Seq<char>| #[trigger] insert_path(s, x).contains(e) <==> (s.contains(e) || e == x),
    decreases s.len(),
{
    broadcast use vstd::seq_lib::lemma_seq_contains_after_push;

    if s.len() > 0 && path_order(s.last(), x) > 0 {
        lemma_insert_path_elems(s.drop_last(), x);
    }
    assert forall|e: Seq<char>| #[trigger] insert_path(s, x).contains(e) <==> (s.contains(e) || e == x) by {
        if s.len() == 0 {
            assert(insert_path(s, x) == Seq::<Seq<char>>::empty().push(x));
            assert(!Seq::<Seq<char>>::empty().contains(e));
        } else {
            assert(s.drop_last().push(s.last()) == s);
            if path_order(s.last(), x) <= 0 {
                assert(insert_path(s, x) == s.push(x));
            } else {
                assert(insert_path(s, x) == insert_path(s.drop_last(), x).push(s.last()));
            }
        }
    }
}

proof fn lemma_sort_paths_elems(s: Seq<Seq<char>>)
    ensures
        forall|e: Seq<char>| s.contains(e) ==> #[trigger] sort_paths(s).contains(e),
    decreases s.len(),
{
    broadcast use vstd::seq_lib::lemma_seq_contains_after_push;

    if s.len() > 0 {
        lemma_sort_paths_elems(s.drop_last());
        lemma_insert_path_elems(sort_paths(s.drop_last()), s.last());
        assert(s.drop_last().push(s.last()) == s);
    }
}

proof fn lemma_dedup_covers(s: Seq<Seq<char>>)
    ensures
        holds_paths(dedup_paths(s), s),
    decreases s.len(),
{
    if s.len() > 0 {
        lemma_dedup_covers(s.drop_last());
        let prev = dedup_paths(s.drop_last());
        let next = dedup_paths(s);
        let kept = prev.len() > 0 && path_eq(prev.last(), s.last());
        if kept {
            assert(next == prev);
        } else {
            assert(next == prev.push(s.last()));
        }
        assert forall|i: int| 0 <= i < s.len() implies #[trigger] has_path(next, s[i]) by {
            if i < s.len() - 1 {
                assert(s[i] == s.drop_last()[i]);
                assert(has_path(prev, s.drop_last()[i]));
                let j = choose|j: int| 0 <= j < prev.len() && #[trigger] path_eq(prev[j], s[i]);
                assert(next[j] == prev[j]);
                assert(path_eq(next[j], s[i]));
            } else if kept {
                assert(next[prev.len() - 1] == prev.last());
                assert(path_eq(next[prev.len() - 1], s[i]));
            } else {
                assert(next[prev.len() as int] == s.last());
                assert(path_eq(next[prev.len() as int], s[i]));
            }
        }
    }
}

/// Sorting and dropping repeats loses no path.
proof fn lemma_tidy_covers(a: Seq<Seq<char>>, b: Seq<Seq<char>>)
    ensures
        holds_paths(tidy(a + b), a),
        holds_paths(tidy(a + b), b),
{
    broadcast use vstd::seq_lib::lemma_seq_concat_contains_all_elements;

    lemma_sort_paths_elems(a + b);
    lemma_dedup_covers(sort_paths(a + b));
    lemma_covers_of_contains(sort_paths(a + b), a);
    lemma_covers_of_contains(sort_paths(a + b), b);
    lemma_covers_trans(tidy(a + b), sort_paths(a + b), a);
    lemma_covers_trans(tidy(a + b), sort_paths(a + b), b);
}

proof fn lemma_covers_self(a: Seq<Seq<char>>)
    ensures
        holds_paths(a, a),
{
    lemma_covers_of_contains(a, a);
}

proof fn lemma_insert_install_elems(s: Seq<InstallView>, x: InstallView)
    ensures
        forall|e: InstallView| #[trigger] insert_install(s, x).contains(e) <==> (s.contains(e) || e == x),
    decreases s.len(),
{
    broadcast use vstd::seq_lib::lemma_seq_contains_after_push;

    if s.len() > 0 && install_order(s.last(), x) > 0 {
        lemma_insert_install_elems(s.drop_last(), x);
    }
    assert forall|e: InstallView| #[trigger] insert_install(s, x).contains(e) <==> (s.contains(e) || e == x) by {
        if s.len() == 0 {
            assert(insert_install(s, x) == Seq::<InstallView>::empty().push(x));
            assert(!Seq::<InstallView>::empty().contains(e));
        } else {
            assert(s.drop_last().push(s.last()) == s);
            if install_order(s.last(), x) <= 0 {
                assert(insert_install(s, x) == s.push(x));
            } else {
                assert(insert_install(s, x) == insert_install(s.drop_last(), x).push(s.last()));
            }
        }
    }
}

/// Sorting the installs keeps exactly the installs.
proof fn lemma_sort_installs_elems(s: Seq<InstallView>)
    ensures
        forall|e: InstallView| #[trigger] sort_installs_spec(s).contains(e) <==> s.contains(e),
    decreases s.len(),
{
    broadcast use vstd::seq_lib::lemma_seq_contains_after_push;

    if s.len() > 0 {
        lemma_sort_installs_elems(s.drop_last());
        lemma_insert_install_elems(sort_installs_spec(s.drop_last()), s.last());
        assert(s.drop_last().push(s.last()) == s);
    }
}

/// A record that gathers install `n`: its directory is `n`'s and its
/// executables hold `n`'s.
pub open spec fn gathers(rec: RecordView, n: InstallView) -> bool {
    path_eq(rec.2, n.3) && holds_paths(rec.3, n.2)
}

/// Some record gathers install `n`.
pub open spec fn has_gatherer(recs: Seq<RecordView>, n: InstallView) -> bool {
    exists|j: int| 0 <= j < recs.len() && #[trigger] gathers(recs[j], n)
}

/// `d` is the directory of one of the first `m` installs.
pub open spec fn dir_of_install(s: Seq<InstallView>, m: int, d: Seq<char>) -> bool {
    exists|k: int| 0 <= k < m && #[trigger] s[k].3 == d
}

proof fn lemma_merged_dirs(s: Seq<InstallView>, m: int)
    requires
        0 <= m <= s.len(),
    ensures
        forall|j: int| 0 <= j < merged(s, m).len() ==> #[trigger] dir_of_install(s, m, merged(s, m)[j].2),
    decreases m,
{
    if m > 0 {
        lemma_merged_dirs(s, m - 1);
        let prev = merged(s, m - 1);
        let next = merged(s, m);
        let n = s[m - 1];
        lemma_first_dir(prev, n.3);
        match first_dir(prev, n.3) {
            Some(w) => {
                let rec = (
                    prev[w].0,
                    prev[w].1,
                    prev[w].2,
                    tidy(prev[w].3 + n.2),
                    tidy(prev[w].4 + n.4),
                    prev[w].5 + ids_of(n.1),
                );
                assert(next == prev.update(w, rec));
                assert forall|j: int| 0 <= j < next.len() implies #[trigger] dir_of_install(s, m, next[j].2) by {
                    assert(next[j].2 == prev[j].2);
                    assert(dir_of_install(s, m - 1, prev[j].2));
                    let k = choose|k: int| 0 <= k < m - 1 && #[trigger] s[k].3 == prev[j].2;
                    assert(s[k].3 == next[j].2);
                }
            },
            None => {
                let rec = (install_id(s, m - 1), n.0, n.3, n.2, n.4, ids_of(n.1));
                assert(next == prev.push(rec));
                assert forall|j: int| 0 <= j < next.len() implies #[trigger] dir_of_install(s, m, next[j].2) by {
                    if j < prev.len() {
                        assert(next[j] == prev[j]);
                        assert(dir_of_install(s, m - 1, prev[j].2));
                        let k = choose|k: int| 0 <= k < m - 1 && #[trigger] s[k].3 == prev[j].2;
                        assert(s[k].3 == next[j].2);
                    } else {
                        assert(s[m - 1].3 == next[j].2);
                    }
                }
            },
        }
    }
}

proof fn lemma_gatherer_joined(prev: Seq<RecordView>, next: Seq<RecordView>, w: int, n: InstallView, x: InstallView)
    requires
        0 <= w < prev.len(),
        path_eq(prev[w].2, n.3),
        next == prev.update(
            w,
            (
                prev[w].0,
                prev[w].1,
                prev[w].2,
                tidy(prev[w].3 + n.2),
                tidy(prev[w].4 + n.4),
                prev[w].5 + ids_of(n.1),
            ),
        ),
        x == n || has_gatherer(prev, x),
    ensures
        has_gatherer(next, x),
{
    lemma_tidy_covers(prev[w].3, n.2);
    assert(next[w].2 == prev[w].2);
    assert(next[w].3 == tidy(prev[w].3 + n.2));
    if x == n {
        assert(gathers(next[w], x));
    } else {
        let j = choose|j: int| 0 <= j < prev.len() && #[trigger] gathers(prev[j], x);
        if j == w {
            lemma_covers_trans(next[w].3, prev[w].3, x.2);
            assert(gathers(next[w], x));
        } else {
            assert(next[j] == prev[j]);
            assert(gathers(next[j], x));
        }
    }
}

proof fn lemma_merged_gathers(s: Seq<InstallView>, m: int)
    requires
        0 <= m <= s.len(),
    ensures
        forall|k: int| 0 <= k < m ==> #[trigger] has_gatherer(merged(s, m), s[k]),
    decreases m,
{
    if m > 0 {
        lemma_merged_gathers(s, m - 1);
        let prev = merged(s, m - 1);
        let next = merged(s, m);
        let n = s[m - 1];
        lemma_first_dir(prev, n.3);
        match first_dir(prev, n.3) {
            Some(w) => {
                assert forall|k: int| 0 <= k < m implies #[trigger] has_gatherer(next, s[k]) by {
                    if k < m - 1 {
                        assert(has_gatherer(prev, s[k]));
                    }
                    lemma_gatherer_joined(prev, next, w, n, s[k]);
                }
            },
            None => {
                let rec = (install_id(s, m - 1), n.0, n.3, n.2, n.4, ids_of(n.1));
                assert(next == prev.push(rec));
                lemma_covers_self(n.2);
                assert forall|k: int| 0 <= k < m implies #[trigger] has_gatherer(next, s[k]) by {
                    if k < m - 1 {
                        assert(has_gatherer(prev, s[k]));
                        let j = choose|j: int| 0 <= j < prev.len() && #[trigger] gathers(prev[j], s[k]);
                        assert(next[j] == prev[j]);
                        assert(gathers(next[j], s[k]));
                    } else {
                        assert(next[prev.len() as int] == rec);
                        assert(gathers(next[prev.len() as int], s[k]));
                    }
                }
            },
        }
    }
}

proof fn lemma_insert_install_multiset(t: Seq<InstallView>, x: InstallView)
    ensures
        insert_install(t, x).to_multiset() == t.to_multiset().insert(x),
    decreases t.len(),
{
    broadcast use vstd::seq_lib::to_multiset_build;
    broadcast use vstd::multiset::group_multiset_axioms;

    if t.len() == 0 {
        assert(insert_install(t, x) == t.push(x));
    } else {
        assert(t.drop_last().push(t.last()) == t);
        if install_order(t.last(), x) <= 0 {
            assert(insert_install(t, x) == t.push(x));
        } else {
            lemma_insert_install_multiset(t.drop_last(), x);
            assert(insert_install(t, x) == insert_install(t.drop_last(), x).push(t.last()));
            assert(insert_install(t, x).to_multiset() =~= t.to_multiset().insert(x));
        }
    }
}

/// Sorting the installs reorders them, nothing more.
proof fn lemma_sort_installs_multiset(c: Seq<InstallView>)
    ensures
        sort_installs_spec(c).to_multiset() == c.to_multiset(),
    decreases c.len(),
{
    broadcast use vstd::seq_lib::to_multiset_build;

    if c.len() > 0 {
        lemma_sort_installs_multiset(c.drop_last());
        lemma_insert_install_multiset(sort_installs_spec(c.drop_last()), c.last());
        assert(c.drop_last().push(c.last()) == c);
        assert(c.to_multiset() == c.drop_last().push(c.last()).to_multiset());
    } else {
        assert(c == Seq::<InstallView>::empty());
    }
}

/// Every record's game id is the id of one of the first `m` installs, and
/// no two records share one, where no two installs do.
pub open spec fn id_of_install(s: Seq<InstallView>, m: int, g: Seq<char>) -> bool {
    exists|k: int| 0 <= k < m && #[trigger] install_id(s, k) == g
}

proof fn lemma_merged_ids(s: Seq<InstallView>, m: int)
    requires
        0 <= m <= s.len(),
        forall|a: int, b: int| 0 <= a < b < s.len() ==> #[trigger] install_id(s, a) != #[trigger] install_id(s, b),
    ensures
        forall|j: int| 0 <= j < merged(s, m).len() ==> #[trigger] id_of_install(s, m, merged(s, m)[j].0),
        forall|i: int, j: int|
            0 <= i < j < merged(s, m).len() ==> #[trigger] merged(s, m)[i].0 != #[trigger] merged(s, m)[j].0,
    decreases m,
{
    if m > 0 {
        lemma_merged_ids(s, m - 1);
        let prev = merged(s, m - 1);
        let next = merged(s, m);
        let n = s[m - 1];
        lemma_first_dir(prev, n.3);
        match first_dir(prev, n.3) {
            Some(w) => {
                let rec = (
                    prev[w].0,
                    prev[w].1,
                    prev[w].2,
                    tidy(prev[w].3 + n.2),
                    tidy(prev[w].4 + n.4),
                    prev[w].5 + ids_of(n.1),
                );
                assert(next == prev.update(w, rec));
                assert forall|j: int| 0 <= j < next.len() implies #[trigger] id_of_install(s, m, next[j].0) by {
                    assert(next[j].0 == prev[j].0);
                    assert(id_of_install(s, m - 1, prev[j].0));
                    let k = choose|k: int| 0 <= k < m - 1 && #[trigger] install_id(s, k) == prev[j].0;
                    assert(install_id(s, k) == next[j].0);
                }
                assert forall|i: int, j: int| 0 <= i < j < next.len() implies #[trigger] next[i].0 != #[trigger] next[j].0 by {
                    assert(next[i].0 == prev[i].0);
                    assert(next[j].0 == prev[j].0);
                    assert(prev[i].0 != prev[j].0);
                }
            },
            None => {
                let rec = (install_id(s, m - 1), n.0, n.3, n.2, n.4, ids_of(n.1));
                assert(next == prev.push(rec));
                assert forall|j: int| 0 <= j < next.len() implies #[trigger] id_of_install(s, m, next[j].0) by {
                    if j < prev.len() {
                        assert(next[j] == prev[j]);
                        assert(id_of_install(s, m - 1, prev[j].0));
                        let k = choose|k: int| 0 <= k < m - 1 && #[trigger] install_id(s, k) == prev[j].0;
                        assert(install_id(s, k) == next[j].0);
                    } else {
                        assert(install_id(s, m - 1) == next[j].0);
                    }
                }
                assert forall|i: int, j: int| 0 <= i < j < next.len() implies #[trigger] next[i].0 != #[trigger] next[j].0 by {
                    assert(next[i] == prev[i]);
                    if j < prev.len() {
                        assert(next[j] == prev[j]);
                        assert(prev[i].0 != prev[j].0);
                    } else {
                        assert(id_of_install(s, m - 1, prev[i].0));
                        let k = choose|k: int| 0 <= k < m - 1 && #[trigger] install_id(s, k) == prev[i].0;
                        assert(install_id(s, k) != install_id(s, m - 1));
                    }
                }
            },
        }
    }
}

/// The records of chosen installs carry distinct game ids where catalog ids
/// hold no `#` and every chosen install has an identity, distinct among the
/// chosen installs of one catalog id.
#[verifier::rlimit(40)]
pub proof fn law_record_ids_are_distinct(decisions: Seq<Decision>, r: Seq<GameRecord>)
    requires
        assigned(decisions, r),
        forall|k: int|
            0 <= k < chosen_of(decisions).len() ==> !(#[trigger] chosen_of(decisions)[k]).0.contains('#')
                && chosen_of(decisions)[k].1 is Some,
        forall|a: int, b: int|
            0 <= a < b < chosen_of(decisions).len() && (#[trigger] chosen_of(decisions)[a]).0 == (
            #[trigger] chosen_of(decisions)[b]).0 ==> chosen_of(decisions)[a].1 != chosen_of(decisions)[b].1,
    ensures
        forall|i: int, j: int|
            0 <= i < j < r.len() - unsupported_of(decisions).len() ==> #[trigger] r[i].game_id@ != #[trigger] r[j].game_id@,
{
    let c = chosen_of(decisions);
    let s = sort_installs_spec(c);
    let m = merged(s, s.len() as int);
    lemma_sort_installs_elems(c);
    lemma_sort_installs_multiset(c);
    assert(c.no_duplicates()) by {
        assert forall|a: int, b: int| 0 <= a < c.len() && 0 <= b < c.len() && a != b implies c[a] != c[b] by {
            if a < b {
                assert(c[a].0 == c[b].0 ==> c[a].1 != c[b].1);
            } else {
                assert(c[b].0 == c[a].0 ==> c[b].1 != c[a].1);
            }
        }
    }
    c.lemma_multiset_has_no_duplicates();
    s.lemma_multiset_has_no_duplicates_conv();
    assert forall|k: int| 0 <= k < s.len() implies !(#[trigger] s[k].0).contains('#') && s[k].1 is Some by {
        assert(s.contains(s[k]));
        let i = choose|i: int| 0 <= i < c.len() && c[i] == s[k];
        assert(!c[i].0.contains('#') && c[i].1 is Some);
    }
    assert forall|a: int, b: int| 0 <= a < b < s.len() && s[a].0 == s[b].0 implies #[trigger] s[a].1
        != #[trigger] s[b].1 by {
        assert(s.contains(s[a]));
        assert(s.contains(s[b]));
        let i = choose|i: int| 0 <= i < c.len() && c[i] == s[a];
        let j = choose|j: int| 0 <= j < c.len() && c[j] == s[b];
        assert(s[a] != s[b]);
        if i < j {
            assert(c[i].0 == c[j].0 ==> c[i].1 != c[j].1);
        } else {
            assert(c[j].0 == c[i].0 ==> c[j].1 != c[i].1);
        }
    }
    law_install_ids_are_distinct(s);
    lemma_merged_ids(s, s.len() as int);
    assert forall|i: int, j: int| 0 <= i < j < r.len() - unsupported_of(decisions).len() implies #[trigger] r[i].game_id@
        != #[trigger] r[j].game_id@ by {
        assert(record_is(r[i], m[i]));
        assert(record_is(r[j], m[j]));
        assert(m[i].0 != m[j].0);
    }
}

/// `a` comes no later than `b` by catalog id, then identity.
pub open spec fn key_le(a: InstallView, b: InstallView) -> bool {
    text_order(a.0, b.0) < 0 || (a.0 == b.0 && opt_text_order(a.1, b.1) <= 0)
}

proof fn lemma_opt_text_order(a: Option<Seq<char>>, b: Option<Seq<char>>)
    ensures
        opt_text_order(a, b) == -opt_text_order(b, a),
        (opt_text_order(a, b) == 0) == (a == b),
{
    if a is Some && b is Some {
        lemma_text_order(a->0, b->0);
    }
}

proof fn lemma_key_le_trans(a: InstallView, b: InstallView, c: InstallView)
    requires
        key_le(a, b),
        key_le(b, c),
    ensures
        key_le(a, c),
{
    lemma_text_order(a.0, b.0);
    lemma_text_order(b.0, c.0);
    lemma_text_order(a.0, c.0);
    if text_order(a.0, b.0) < 0 && text_order(b.0, c.0) < 0 {
        lemma_text_order_trans(a.0, b.0, c.0);
    }
    if a.0 == b.0 && b.0 == c.0 {
        lemma_opt_text_order(a.1, b.1);
        lemma_opt_text_order(b.1, c.1);
        lemma_opt_text_order(a.1, c.1);
        if a.1 is Some && b.1 is Some && c.1 is Some && text_order(a.1->0, b.1->0) < 0 && text_order(
            b.1->0,
            c.1->0,
        ) < 0 {
            lemma_text_order_trans(a.1->0, b.1->0, c.1->0);
        }
    }
}

/// In order by catalog id, then identity.
pub open spec fn key_sorted(s: Seq<InstallView>) -> bool {
    forall|i: int, j: int| 0 <= i < j < s.len() ==> key_le(#[trigger] s[i], #[trigger] s[j])
}

proof fn lemma_insert_install_sorted(t: Seq<InstallView>, x: InstallView)
    requires
        key_sorted(t),
    ensures
        key_sorted(insert_install(t, x)),
    decreases t.len(),
{
    if t.len() > 0 {
        let last = t.last();
        lemma_text_order(last.0, x.0);
        lemma_opt_text_order(last.1, x.1);
        if install_order(last, x) <= 0 {
            assert(key_le(last, x));
            let u = t.push(x);
            assert(insert_install(t, x) == u);
            assert forall|i: int, j: int| 0 <= i < j < u.len() implies key_le(#[trigger] u[i], #[trigger] u[j]) by {
                if j == t.len() {
                    if i < t.len() - 1 {
                        assert(key_le(t[i], last));
                        lemma_key_le_trans(t[i], last, x);
                    }
                } else {
                    assert(key_le(t[i], t[j]));
                }
            }
        } else {
            assert(key_le(x, last));
            let d = t.drop_last();
            assert(key_sorted(d)) by {
                assert forall|i: int, j: int| 0 <= i < j < d.len() implies key_le(#[trigger] d[i], #[trigger] d[j]) by {
                    assert(key_le(t[i], t[j]));
                }
            }
            lemma_insert_install_sorted(d, x);
            lemma_insert_install_elems(d, x);
            let v = insert_install(d, x);
            let u = v.push(last);
            assert(insert_install(t, x) == u);
            assert forall|i: int, j: int| 0 <= i < j < u.len() implies key_le(#[trigger] u[i], #[trigger] u[j]) by {
                if j == v.len() {
                    assert(v.contains(v[i]));
                    if v[i] != x {
                        assert(d.contains(v[i]));
                        let k = choose|k: int| 0 <= k < d.len() && d[k] == v[i];
                        assert(key_le(t[k], t[t.len() - 1]));
                    }
                } else {
                    assert(key_le(v[i], v[j]));
                }
            }
        }
    }
}

proof fn lemma_sort_installs_sorted(c: Seq<InstallView>)
    ensures
        key_sorted(sort_installs_spec(c)),
    decreases c.len(),
{
    if c.len() > 0 {
        lemma_sort_installs_sorted(c.drop_last());
        lemma_insert_install_sorted(sort_installs_spec(c.drop_last()), c.last());
    }
}

/// Installs are put in order by catalog id, then identity: the order holds
/// exactly the installs given, and the install that keeps a catalog id's
/// base id has the least identity among that catalog id's installs.
pub proof fn law_the_base_id_goes_to_the_least_identity(c: Seq<InstallView>)
    ensures
        ({
            let s = sort_installs_spec(c);
            &&& s.to_multiset() == c.to_multiset()
            &&& forall|k: int, j: int|
                0 <= k < s.len() && 0 <= j < s.len() && install_id(s, k) == s[k].0 && s[j].0 == s[k].0
                    ==> opt_text_order(#[trigger] s[k].1, #[trigger] s[j].1) <= 0
        }),
{
    let s = sort_installs_spec(c);
    lemma_sort_installs_multiset(c);
    lemma_sort_installs_sorted(c);
    law_install_ids(s);
    assert forall|k: int, j: int|
        0 <= k < s.len() && 0 <= j < s.len() && install_id(s, k) == s[k].0 && s[j].0 == s[k].0
            implies opt_text_order(#[trigger] s[k].1, #[trigger] s[j].1) <= 0 by {
        lemma_text_order(s[k].0, s[j].0);
        if j < k {
            assert(s[j].0 != s[k].0);
        } else if j > k {
            assert(key_le(s[k], s[j]));
        } else {
            lemma_opt_text_order(s[k].1, s[j].1);
        }
    }
}

/// The record `g` gathers the chosen install `c`: it names `c`'s save
/// directory, holds every one of `c`'s executables (up to path equality),
/// and is no unsupported record.
pub open spec fn record_gathers(g: GameRecord, c: InstallView) -> bool {
    &&& g.data_dir is Some
    &&& path_eq(g.data_dir->0@, c.3)
    &&& holds_paths(strs(g.executables@), c.2)
    &&& g.unsupported is None
}

/// One of the first `n` records gathers `c`.
pub open spec fn gathered_within(r: Seq<GameRecord>, n: int, c: InstallView) -> bool {
    exists|j: int| 0 <= j < n && #[trigger] record_gathers(r[j], c)
}

/// The records of chosen installs come first: each chosen install has one
/// that gathers it, and each of them names the directory of some chosen
/// install; the unsupported decisions follow, one record each, in their
/// order. With [`law_one_record_per_save_dir`], there are as many records of
/// chosen installs as distinct save directories.
#[verifier::rlimit(60)]
pub proof fn law_records_gather_their_installs(decisions: Seq<Decision>, r: Seq<GameRecord>)
    requires
        assigned(decisions, r),
    ensures
        ({
            let c = chosen_of(decisions);
            let u = unsupported_of(decisions);
            let n = r.len() - u.len();
            &&& 0 <= n
            &&& forall|k: int| 0 <= k < c.len() ==> #[trigger] gathered_within(r, n, c[k])
            &&& forall|j: int|
                #![trigger r[j]]
                0 <= j < n ==> r[j].data_dir is Some && dir_of_install(
                    c,
                    c.len() as int,
                    r[j].data_dir->0@,
                )
            &&& forall|k: int| 0 <= k < u.len() ==> #[trigger] unsupported_record_is(r[n + k], u[k])
        }),
{
    let c = chosen_of(decisions);
    let s = sort_installs_spec(c);
    let m = merged(s, s.len() as int);
    let u = unsupported_of(decisions);
    let n = r.len() - u.len();
    assert(n == m.len());
    lemma_sort_installs_elems(c);
    lemma_merged_gathers(s, s.len() as int);
    lemma_merged_dirs(s, s.len() as int);
    assert forall|k: int| 0 <= k < c.len() implies #[trigger] gathered_within(r, n, c[k]) by {
        assert(c.contains(c[k]));
        assert(s.contains(c[k]));
        let i = choose|i: int| 0 <= i < s.len() && s[i] == c[k];
        assert(has_gatherer(m, s[i]));
        let j = choose|j: int| 0 <= j < m.len() && #[trigger] gathers(m[j], s[i]);
        assert(record_is(r[j], m[j]));
        assert(record_gathers(r[j], c[k]));
    }
    assert forall|j: int| #![trigger r[j]] 0 <= j < n implies r[j].data_dir is Some && dir_of_install(
        c,
        c.len() as int,
        r[j].data_dir->0@,
    ) by {
        assert(record_is(r[j], m[j]));
        assert(dir_of_install(s, s.len() as int, m[j].2));
        let i = choose|i: int| 0 <= i < s.len() && #[trigger] s[i].3 == m[j].2;
        assert(s.contains(s[i]));
        assert(c.contains(s[i]));
        let k = choose|k: int| 0 <= k < c.len() && c[k] == s[i];
        assert(c[k].3 == r[j].data_dir->0@);
    }
    assert forall|k: int| 0 <= k < u.len() implies #[trigger] unsupported_record_is(r[n + k], u[k]) by {
        assert(unsupported_record_is(r[m.len() + k], u[k]));
    }
}

proof fn lemma_candidates_distinct(save: Seq<SaveCandidate>, install: Install, env: Environment, user: Seq<char>)
    ensures
        forall|i: int, j: int|
            0 <= i < j < candidates_spec(save, install, env, user).len() ==> !path_eq(
                #[trigger] candidates_spec(save, install, env, user)[i],
                #[trigger] candidates_spec(save, install, env, user)[j],
            ),
    decreases save.len(),
{
    if save.len() > 0 {
        lemma_candidates_distinct(save.drop_last(), install, env, user);
        let prev = candidates_spec(save.drop_last(), install, env, user);
        let c = save.last();
        if candidate_applies(c, install) {
            match template_spec(c.dir@, install, env, user) {
                None => {},
                Some(p) => if !has_path(prev, p) {
                    let next = prev.push(p);
                    assert(candidates_spec(save, install, env, user) == next);
                    assert forall|i: int, j: int| 0 <= i < j < next.len() implies !path_eq(
                        #[trigger] next[i],
                        #[trigger] next[j],
                    ) by {
                        assert(next[i] == prev[i]);
                        if j == prev.len() {
                            assert(next[j] == p);
                            assert(!path_eq(prev[i], p));
                        } else {
                            assert(next[j] == prev[j]);
                        }
                    }
                },
            }
        }
    }
}

/// Rule `k` of `save` applies to the install and resolves to `p`.
pub open spec fn gives(save: Seq<SaveCandidate>, install: Install, env: Environment, user: Seq<char>, k: int, p: Seq<char>) -> bool {
    &&& 0 <= k < save.len()
    &&& candidate_applies(save[k], install)
    &&& template_spec(save[k].dir@, install, env, user) == Some(p)
}

/// Some rule of `save` applies to the install and resolves to `p`.
pub open spec fn given(save: Seq<SaveCandidate>, install: Install, env: Environment, user: Seq<char>, p: Seq<char>) -> bool {
    exists|k: int| #[trigger] gives(save, install, env, user, k, p)
}

/// `a` is given by an earlier rule than `b`.
pub open spec fn given_before(save: Seq<SaveCandidate>, install: Install, env: Environment, user: Seq<char>, a: Seq<char>, b: Seq<char>) -> bool {
    exists|k1: int, k2: int|
        k1 < k2 && #[trigger] gives(save, install, env, user, k1, a) && #[trigger] gives(save, install, env, user, k2, b)
}

/// An install's candidates come from the rules that apply to it, in rule
/// order: each candidate is what an applicable rule resolves to, a later
/// candidate comes from a later rule, and every applicable rule that
/// resolves has its directory among the candidates.
pub proof fn law_candidates_follow_the_rules(save: Seq<SaveCandidate>, install: Install, env: Environment, user: Seq<char>)
    ensures
        ({
            let cands = candidates_spec(save, install, env, user);
            &&& forall|i: int| 0 <= i < cands.len() ==> #[trigger] given(save, install, env, user, cands[i])
            &&& forall|i: int, j: int|
                0 <= i < j < cands.len() ==> #[trigger] given_before(save, install, env, user, cands[i], cands[j])
            &&& forall|k: int, p: Seq<char>| #[trigger] gives(save, install, env, user, k, p) ==> has_path(cands, p)
        }),
    decreases save.len(),
{
    if save.len() > 0 {
        let d = save.drop_last();
        law_candidates_follow_the_rules(d, install, env, user);
        let prev = candidates_spec(d, install, env, user);
        let cands = candidates_spec(save, install, env, user);
        let last = save.len() - 1;
        assert forall|k: int, p: Seq<char>| #[trigger] gives(d, install, env, user, k, p) implies gives(
            save,
            install,
            env,
            user,
            k,
            p,
        ) by {
            assert(d[k] == save[k]);
        }
        let pushed = candidate_applies(save.last(), install) && template_spec(save.last().dir@, install, env, user)
            is Some && !has_path(prev, template_spec(save.last().dir@, install, env, user)->0);
        if pushed {
            assert(cands == prev.push(template_spec(save.last().dir@, install, env, user)->0));
        } else {
            assert(cands == prev);
        }
        assert forall|i: int| 0 <= i < cands.len() implies #[trigger] given(save, install, env, user, cands[i]) by {
            if i < prev.len() {
                assert(cands[i] == prev[i]);
                assert(given(d, install, env, user, prev[i]));
                let k = choose|k: int| #[trigger] gives(d, install, env, user, k, prev[i]);
                assert(gives(save, install, env, user, k, cands[i]));
            } else {
                assert(gives(save, install, env, user, last, cands[i]));
            }
        }
        assert forall|i: int, j: int| 0 <= i < j < cands.len() implies #[trigger] given_before(
            save,
            install,
            env,
            user,
            cands[i],
            cands[j],
        ) by {
            assert(cands[i] == prev[i]);
            if j < prev.len() {
                assert(cands[j] == prev[j]);
                assert(given_before(d, install, env, user, prev[i], prev[j]));
                let (k1, k2) = choose|k1: int, k2: int|
                    k1 < k2 && #[trigger] gives(d, install, env, user, k1, prev[i]) && #[trigger] gives(
                        d,
                        install,
                        env,
                        user,
                        k2,
                        prev[j],
                    );
                assert(gives(save, install, env, user, k1, cands[i]));
                assert(gives(save, install, env, user, k2, cands[j]));
            } else {
                assert(given(d, install, env, user, prev[i]));
                let k1 = choose|k: int| #[trigger] gives(d, install, env, user, k, prev[i]);
                assert(gives(save, install, env, user, k1, cands[i]));
                assert(gives(save, install, env, user, last, cands[j]));
            }
        }
        assert forall|k: int, p: Seq<char>| #[trigger] gives(save, install, env, user, k, p) implies has_path(cands, p) by {
            if k < last {
                assert(d[k] == save[k]);
                assert(gives(d, install, env, user, k, p));
                assert(has_path(prev, p));
                let w = choose|w: int| 0 <= w < prev.len() && #[trigger] path_eq(prev[w], p);
                assert(cands[w] == prev[w]);
                assert(path_eq(cands[w], p));
            } else if has_path(prev, p) {
                let w = choose|w: int| 0 <= w < prev.len() && #[trigger] path_eq(prev[w], p);
                assert(cands[w] == prev[w]);
                assert(path_eq(cands[w], p));
            } else {
                assert(cands[prev.len() as int] == p);
                assert(path_eq(cands[prev.len() as int], p));
            }
        }
    }
}

proof fn lemma_kept_single(c: Seq<Seq<char>>, flags: Seq<bool>, i: int, m: int)
    requires
        0 <= i < c.len(),
        i < flags.len(),
        flags[i],
        forall|j: int| 0 <= j < c.len() && j != i && j < flags.len() ==> !#[trigger] flags[j],
        0 <= m <= c.len(),
    ensures
        kept(c.take(m), flags) == (if m > i {
            seq![c[i]]
        } else {
            Seq::<Seq<char>>::empty()
        }),
    decreases m,
{
    if m > 0 {
        lemma_kept_single(c, flags, i, m - 1);
        assert(c.take(m).drop_last() == c.take(m - 1));
        assert(c.take(m).last() == c[m - 1]);
        if m - 1 == i {
            assert(Seq::<Seq<char>>::empty().push(c[i]) == seq![c[i]]);
        }
    }
}

/// Without a sticky pick that still exists, where exactly one candidate
/// exists as a folder, that candidate is chosen as the only existing one.
pub proof fn law_the_only_existing_candidate_is_chosen(
    game: Game,
    install: Install,
    env: Environment,
    observed: Observations,
    i: int,
)
    requires
        !(env.current_pick is Some && observed.pick_exists),
        0 <= i < obs_candidates(game.save@, install, env, observed).len(),
        i < observed.existing@.len(),
        observed.existing@[i],
        forall|j: int|
            0 <= j < obs_candidates(game.save@, install, env, observed).len() && j != i && j
                < observed.existing@.len() ==> !#[trigger] observed.existing@[j],
    ensures
        outcome_spec(game, install, env, observed) == Some(
            (obs_candidates(game.save@, install, env, observed)[i], Reason::OnlyExisting),
        ),
{
    let c = obs_candidates(game.save@, install, env, observed);
    lemma_kept_single(c, observed.existing@, i, c.len() as int);
    assert(c.take(c.len() as int) == c);
}

/// For an install that runs one build, and without a sticky pick that still
/// exists, the decision is unsupported exactly when no rule that applies to
/// the install resolves.
pub proof fn law_unsupported_exactly_when_no_rule_resolves(
    game: Game,
    install: Install,
    env: Environment,
    observed: Observations,
)
    requires
        !chooses_build(install),
        !(env.current_pick is Some && observed.pick_exists),
    ensures
        (outcome_spec(game, install, env, observed) is None) <==> (forall|k: int, p: Seq<char>|
            !#[trigger] gives(game.save@, install, env, observed.profile@, k, p)),
{
    let save = game.save@;
    let user = observed.profile@;
    let c = candidates_spec(save, install, env, user);
    law_candidates_follow_the_rules(save, install, env, user);
    if c.len() > 0 {
        assert(given(save, install, env, user, c[0]));
    } else {
        assert forall|k: int, p: Seq<char>| !#[trigger] gives(save, install, env, user, k, p) by {
            if gives(save, install, env, user, k, p) {
                assert(has_path(c, p));
            }
        }
    }
}

proof fn lemma_candidates_same_places(save: Seq<SaveCandidate>, install: Install, a: Environment, b: Environment, user: Seq<char>)
    requires
        same_places(a, b),
    ensures
        candidates_spec(save, install, a, user) == candidates_spec(save, install, b, user),
    decreases save.len(),
{
    if save.len() > 0 {
        lemma_candidates_same_places(save.drop_last(), install, a, b, user);
        lemma_template_same_places(save.last().dir@, install, a, b, user);
    }
}

proof fn lemma_obs_candidates_same_places(save: Seq<SaveCandidate>, install: Install, a: Environment, b: Environment, obs: Observations)
    requires
        same_places(a, b),
    ensures
        obs_candidates(save, install, a, obs) == obs_candidates(save, install, b, obs),
{
    let user = obs.profile@;
    lemma_candidates_same_places(save, install, a, b, user);
    lemma_candidates_same_places(save, build_install(install, Platform::Linux), a, b, user);
    lemma_candidates_same_places(save, build_install(install, Platform::Windows), a, b, user);
    if chooses_build(install) {
        let bs = builds_spec(install, obs.linux_present, obs.windows_present);
        if bs.len() == 1 {
            lemma_candidates_same_places(save, build_install(install, bs[0]), a, b, user);
        }
    }
}

proof fn lemma_ancestor_same_places(c: Seq<Seq<char>>, install: Install, a: Environment, b: Environment)
    requires
        same_places(a, b),
    ensures
        ancestor_spec(c, install, a) == ancestor_spec(c, install, b),
{
    reveal(ancestor_spec);
    assert forall|i: int|
        #![trigger safe_ancestor(c, i, install, a)]
        #![trigger safe_ancestor(c, i, install, b)]
        safe_ancestor(c, i, install, a) == safe_ancestor(c, i, install, b) by {
        if 0 <= i < c.len() {
            assert(protected_spec(c[i], install, a) == protected_spec(c[i], install, b));
        }
    }
    assert forall|i: int|
        #![trigger best_ancestor(c, i, install, a)]
        #![trigger best_ancestor(c, i, install, b)]
        best_ancestor(c, i, install, a) == best_ancestor(c, i, install, b) by {
        assert(safe_ancestor(c, i, install, a) == safe_ancestor(c, i, install, b));
        if best_ancestor(c, i, install, a) {
            assert forall|j: int| #[trigger] safe_ancestor(c, j, install, b) implies utf8_len(c[j]) <= utf8_len(c[i]) && (j
                < i ==> utf8_len(c[j]) < utf8_len(c[i])) by {
                assert(safe_ancestor(c, j, install, a));
            }
        }
        if best_ancestor(c, i, install, b) {
            assert forall|j: int| #[trigger] safe_ancestor(c, j, install, a) implies utf8_len(c[j]) <= utf8_len(c[i]) && (j
                < i ==> utf8_len(c[j]) < utf8_len(c[i])) by {
                assert(safe_ancestor(c, j, install, b));
            }
        }
    }
    if exists|i: int| #[trigger] best_ancestor(c, i, install, a) {
        let x = choose|i: int| #[trigger] best_ancestor(c, i, install, a);
        let y = choose|i: int| #[trigger] best_ancestor(c, i, install, b);
        assert(best_ancestor(c, x, install, b));
        assert(best_ancestor(c, y, install, a));
        assert(safe_ancestor(c, x, install, a));
        assert(safe_ancestor(c, y, install, a));
        if x != y {
            assert(utf8_len(c[x]) <= utf8_len(c[y]));
            assert(utf8_len(c[y]) <= utf8_len(c[x]));
        }
    } else {
        assert(!exists|i: int| #[trigger] best_ancestor(c, i, install, b)) by {
            if exists|i: int| #[trigger] best_ancestor(c, i, install, b) {
                let y = choose|i: int| #[trigger] best_ancestor(c, i, install, b);
                assert(best_ancestor(c, y, install, a));
            }
        }
    }
}

/// A sticky pick that no longer exists changes nothing: the decision is the
/// one made with no pick at all.
pub proof fn law_a_vanished_pick_changes_nothing(r: Decision, game: Game, install: Install, env: Environment, observed: Observations)
    requires
        !(env.current_pick is Some && observed.pick_exists),
    ensures
        decided(r, game, install, env, observed) == decided(
            r,
            game,
            install,
            (Environment { current_pick: None, ..env }),
            observed,
        ),
        outcome_spec(game, install, env, observed) == outcome_spec(
            game,
            install,
            (Environment { current_pick: None, ..env }),
            observed,
        ),
{
    let none = Environment { current_pick: None, ..env };
    assert(same_places(env, none));
    lemma_obs_candidates_same_places(game.save@, install, env, none, observed);
    let c = obs_candidates(game.save@, install, env, observed);
    lemma_ancestor_same_places(c, install, env, none);
}

/// A folder named as saves are: its last component is, ignoring ASCII case,
/// one of `save`, `saves`, `savegame`, `savegames`, `saved games` or
/// `save data`.
pub open spec fn save_named(p: Seq<char>) -> bool {
    match file_name(p) {
        Some(n) => {
            let l = ascii_lower_seq(n);
            l == "save"@ || l == "saves"@ || l == "savegame"@ || l == "savegames"@ || l == "saved games"@
                || l == "save data"@
        },
        None => false,
    }
}

proof fn lemma_lower_literal(t: Seq<char>)
    requires
        forall|i: int| 0 <= i < t.len() ==> !('A' <= #[trigger] t[i] && t[i] <= 'Z'),
    ensures
        ascii_lower_seq(t) == t,
{
    assert(ascii_lower_seq(t) =~= t);
}

proof fn lemma_save_named(p: Seq<char>)
    ensures
        exact_named(p) == save_named(p),
{
    reveal_strlit("save");
    reveal_strlit("saves");
    reveal_strlit("savegame");
    reveal_strlit("savegames");
    reveal_strlit("saved games");
    reveal_strlit("save data");
    lemma_lower_literal("save"@);
    lemma_lower_literal("saves"@);
    lemma_lower_literal("savegame"@);
    lemma_lower_literal("savegames"@);
    lemma_lower_literal("saved games"@);
    lemma_lower_literal("save data"@);
}

proof fn lemma_kept_none(c: Seq<Seq<char>>, flags: Seq<bool>)
    requires
        forall|i: int| 0 <= i < c.len() && i < flags.len() ==> !#[trigger] flags[i],
    ensures
        kept(c, flags).len() == 0,
    decreases c.len(),
{
    if c.len() > 0 {
        lemma_kept_none(c.drop_last(), flags);
        if c.len() - 1 < flags.len() {
            assert(!flags[c.len() - 1]);
        }
    }
}

proof fn lemma_first_exact(c: Seq<Seq<char>>, k: int)
    requires
        0 <= k < c.len(),
        exact_named(c[k]),
        forall|j: int| 0 <= j < k ==> !exact_named(#[trigger] c[j]),
    ensures
        exact_name_spec(c) == Some(k),
{
    reveal(exact_name_spec);
    let w = choose|w: int|
        0 <= w < c.len() && exact_named(c[w]) && forall|m: int| 0 <= m < w ==> !#[trigger] exact_named(c[m]);
    lemma_exact_name_index(c);
    if w > k {
        assert(!exact_named(c[k]));
    }
}

proof fn lemma_first_save_named(c: Seq<Seq<char>>, k: int)
    requires
        0 <= k < c.len(),
        save_named(c[k]),
        forall|j: int| 0 <= j < k ==> !save_named(#[trigger] c[j]),
    ensures
        exact_name_spec(c) == Some(k),
{
    lemma_save_named(c[k]);
    assert forall|j: int| 0 <= j < k implies !exact_named(#[trigger] c[j]) by {
        lemma_save_named(c[j]);
    }
    lemma_first_exact(c, k);
}

/// With none of its candidates on disk (and no sticky pick that still
/// exists), an install's save folder is the first candidate named as saves
/// are (see [`save_named`]), chosen for that name.
pub proof fn law_with_nothing_on_disk_the_first_save_named_candidate_is_chosen(
    game: Game,
    install: Install,
    env: Environment,
    observed: Observations,
    k: int,
)
    requires
        !(env.current_pick is Some && observed.pick_exists),
        0 <= k < obs_candidates(game.save@, install, env, observed).len(),
        save_named(obs_candidates(game.save@, install, env, observed)[k]),
        forall|j: int| 0 <= j < k ==> !save_named(#[trigger] obs_candidates(game.save@, install, env, observed)[j]),
        forall|i: int|
            0 <= i < obs_candidates(game.save@, install, env, observed).len() && i < observed.existing@.len()
                ==> !#[trigger] observed.existing@[i],
    ensures
        outcome_spec(game, install, env, observed) == Some(
            (obs_candidates(game.save@, install, env, observed)[k], Reason::ExactName),
        ),
{
    let c = obs_candidates(game.save@, install, env, observed);
    lemma_kept_none(c, observed.existing@);
    lemma_first_save_named(c, k);
}

/// With none of its candidates on disk (and no sticky pick that still
/// exists), and none of them named as saves are, the first candidate is
/// chosen.
pub proof fn law_with_nothing_on_disk_and_no_save_name_the_first_candidate_is_chosen(
    game: Game,
    install: Install,
    env: Environment,
    observed: Observations,
)
    requires
        !(env.current_pick is Some && observed.pick_exists),
        obs_candidates(game.save@, install, env, observed).len() > 0,
        forall|j: int|
            0 <= j < obs_candidates(game.save@, install, env, observed).len() ==> !save_named(
                #[trigger] obs_candidates(game.save@, install, env, observed)[j],
            ),
        forall|i: int|
            0 <= i < obs_candidates(game.save@, install, env, observed).len() && i < observed.existing@.len()
                ==> !#[trigger] observed.existing@[i],
    ensures
        outcome_spec(game, install, env, observed) == Some(
            (obs_candidates(game.save@, install, env, observed)[0], Reason::FirstCandidate),
        ),
{
    let c = obs_candidates(game.save@, install, env, observed);
    lemma_kept_none(c, observed.existing@);
    reveal(exact_name_spec);
    assert(!exists|k: int| 0 <= k < c.len() && #[trigger] exact_named(c[k])) by {
        if exists|k: int| 0 <= k < c.len() && #[trigger] exact_named(c[k]) {
            let k = choose|k: int| 0 <= k < c.len() && #[trigger] exact_named(c[k]);
            lemma_save_named(c[k]);
        }
    }
}

/// The candidates a decision lists name each directory once.
pub proof fn law_candidates_are_distinct(game: Game, install: Install, env: Environment, observed: Observations)
    ensures
        ({
            let c = obs_candidates(game.save@, install, env, observed);
            forall|i: int, j: int| 0 <= i < j < c.len() ==> !path_eq(#[trigger] c[i], #[trigger] c[j])
        }),
{
    let user = observed.profile@;
    lemma_candidates_distinct(game.save@, install, env, user);
    lemma_candidates_distinct(game.save@, build_install(install, Platform::Linux), env, user);
    lemma_candidates_distinct(game.save@, build_install(install, Platform::Windows), env, user);
    lemma_merge_distinct(
        candidates_spec(game.save@, build_install(install, Platform::Linux), env, user),
        candidates_spec(game.save@, build_install(install, Platform::Windows), env, user),
    );
}

/// Merging keeps every path once.
proof fn lemma_merge_distinct(a: Seq<Seq<char>>, b: Seq<Seq<char>>)
    requires
        forall|i: int, j: int| 0 <= i < j < a.len() ==> !path_eq(#[trigger] a[i], #[trigger] a[j]),
    ensures
        forall|i: int, j: int|
            0 <= i < j < merge_paths(a, b).len() ==> !path_eq(#[trigger] merge_paths(a, b)[i], #[trigger] merge_paths(a, b)[j]),
    decreases b.len(),
{
    if b.len() > 0 {
        lemma_merge_distinct(a, b.drop_last());
        let m = merge_paths(a, b.drop_last());
        let p = b.last();
        if !has_path(m, p) {
            let next = m.push(p);
            assert forall|i: int, j: int| 0 <= i < j < next.len() implies !path_eq(#[trigger] next[i], #[trigger] next[j]) by {
                assert(next[i] == m[i]);
                if j == m.len() {
                    assert(!path_eq(m[i], p));
                } else {
                    assert(next[j] == m[j]);
                }
            }
        }
    }
}

proof fn lemma_kept(c: Seq<Seq<char>>, flags: Seq<bool>)
    ensures
        kept(c, flags).len() <= c.len(),
        forall|k: int| 0 <= k < kept(c, flags).len() ==> #[trigger] c.contains(kept(c, flags)[k]),
    decreases c.len(),
{
    if c.len() > 0 {
        lemma_kept(c.drop_last(), flags);
        let prev = kept(c.drop_last(), flags);
        assert forall|k: int| 0 <= k < kept(c, flags).len() implies #[trigger] c.contains(kept(c, flags)[k]) by {
            if k < prev.len() {
                assert(c.drop_last().contains(prev[k]));
                let w = choose|w: int| 0 <= w < c.drop_last().len() && c.drop_last()[w] == prev[k];
                assert(c[w] == prev[k]);
            } else {
                assert(c[c.len() - 1] == c.last());
            }
        }
    }
}

proof fn lemma_exact_name_index(paths: Seq<Seq<char>>)
    ensures
        exact_name_spec(paths) matches Some(k) ==> 0 <= k < paths.len(),
{
    reveal(exact_name_spec);
    if exists|k: int| 0 <= k < paths.len() && #[trigger] exact_named(paths[k]) {
        let p = |k: int| exact_named(paths[k]);
        assert(exists|k: int| 0 <= k < paths.len() && #[trigger] p(k)) by {
            let k = choose|k: int| 0 <= k < paths.len() && #[trigger] exact_named(paths[k]);
            assert(p(k));
        }
        lemma_least(p, paths.len() as int);
        let k = choose|k: int| 0 <= k < paths.len() && #[trigger] p(k) && forall|j: int| 0 <= j < k ==> !#[trigger] p(j);
        assert(0 <= k < paths.len() && exact_named(paths[k]) && forall|m: int|
            0 <= m < k ==> !#[trigger] exact_named(paths[m])) by {
            assert forall|m: int| 0 <= m < k implies !#[trigger] exact_named(paths[m]) by {
                assert(!p(m));
            }
        }
    }
}

proof fn lemma_newest_index(acts: Seq<Option<u64>>, n: int)
    ensures
        newest_spec(acts, n) matches Some(k) ==> 0 <= k < n,
{
    reveal(newest_spec);
}

proof fn lemma_ancestor_index(c: Seq<Seq<char>>, install: Install, env: Environment)
    ensures
        ancestor_spec(c, install, env) matches Some(k) ==> 0 <= k < c.len(),
{
    reveal(ancestor_spec);
}

/// The persisted pick is kept while it still exists.
pub proof fn law_a_sticky_pick_is_kept_while_it_exists(game: Game, install: Install, env: Environment, observed: Observations)
    requires
        env.current_pick is Some,
        observed.pick_exists,
    ensures
        outcome_spec(game, install, env, observed) == Some((env.current_pick->0@, Reason::Sticky)),
{
}

/// Activity decides only for a candidate whose activity is newer than that
/// of every other existing candidate: a tie at the top lets the next rule
/// decide.
pub proof fn law_newest_activity_wins_only_alone(game: Game, install: Install, env: Environment, observed: Observations)
    ensures
        ({
            let c = obs_candidates(game.save@, install, env, observed);
            let ex = kept(c, observed.existing@);
            outcome_spec(game, install, env, observed) matches Some((dir, reason)) ==> (reason == Reason::NewestActivity
                ==> exists|k: int| #[trigger] strict_max(observed.activity@, ex.len() as int, k) && ex[k] == dir)
        }),
{
    reveal(newest_spec);
    let c = obs_candidates(game.save@, install, env, observed);
    let ex = kept(c, observed.existing@);
    if let Some(k) = newest_spec(observed.activity@, ex.len() as int) {
        assert(strict_max(observed.activity@, ex.len() as int, k));
    }
}

/// The unique newest activity wins: without a sticky pick and with several
/// existing candidates, the one whose activity is newer than every other's
/// is chosen, whatever ties lie below it.
pub proof fn law_the_unique_newest_activity_wins(game: Game, install: Install, env: Environment, observed: Observations, k: int)
    requires
        !(env.current_pick is Some && observed.pick_exists),
        kept(obs_candidates(game.save@, install, env, observed), observed.existing@).len() > 1,
        strict_max(
            observed.activity@,
            kept(obs_candidates(game.save@, install, env, observed), observed.existing@).len() as int,
            k,
        ),
    ensures
        outcome_spec(game, install, env, observed) == Some(
            (kept(obs_candidates(game.save@, install, env, observed), observed.existing@)[k], Reason::NewestActivity),
        ),
{
    reveal(newest_spec);
    let c = obs_candidates(game.save@, install, env, observed);
    let ex = kept(c, observed.existing@);
    lemma_kept(c, observed.existing@);
    let j = choose|i: int| #[trigger] strict_max(observed.activity@, ex.len() as int, i);
    if j != k {
        assert(act_at(observed.activity@, j)->0 < act_at(observed.activity@, k)->0);
        assert(act_at(observed.activity@, k)->0 < act_at(observed.activity@, j)->0);
    }
}

/// The resolver only ever picks one of the applicable candidates, unless it
/// keeps the sticky pick; and it gives up exactly when neither exists.
pub proof fn law_choice_is_a_candidate(game: Game, install: Install, env: Environment, observed: Observations)
    ensures
        ({
            let c = obs_candidates(game.save@, install, env, observed);
            match outcome_spec(game, install, env, observed) {
                Some((dir, reason)) => if reason == Reason::Sticky {
                    env.current_pick matches Some(p) && observed.pick_exists && dir == p@
                } else {
                    c.contains(dir)
                },
                None => c.len() == 0 && !(env.current_pick is Some && observed.pick_exists),
            }
        }),
{
    let c = obs_candidates(game.save@, install, env, observed);
    lemma_kept(c, observed.existing@);
    let ex = kept(c, observed.existing@);
    lemma_exact_name_index(c);
    lemma_exact_name_index(ex);
    lemma_newest_index(observed.activity@, ex.len() as int);
    lemma_ancestor_index(c, install, env);
    if !(env.current_pick is Some && observed.pick_exists) && c.len() > 0 {
        let (dir, reason) = choose_spec(c, observed.existing@, observed.activity@, install, env);
        if ex.len() == 0 {
            match exact_name_spec(c) {
                Some(k) => assert(c[k] == dir),
                None => assert(c[0] == dir),
            }
            assert(c.contains(dir));
        } else if ex.len() == 1 {
            assert(c.contains(ex[0]));
        } else {
            match newest_spec(observed.activity@, ex.len() as int) {
                Some(k) => {
                    assert(c.contains(ex[k]));
                },
                None => match exact_name_spec(ex) {
                    Some(k) => {
                        assert(c.contains(ex[k]));
                    },
                    None => match ancestor_spec(c, install, env) {
                        Some(k) => {
                            assert(c[k] == dir);
                            assert(c.contains(dir));
                        },
                        None => {
                            assert(c.contains(ex[0]));
                        },
                    },
                },
            }
        }
    }
}


// ---- Steam accounts --------------------------------------------------------

/// The 64-bit Steam id of account 0 in the public universe; every
/// individual account's 64-bit id is this plus its 32-bit account id.
pub const STEAM_ID64_BASE: u64 = 76561197960265728;

/// A Steam account, by its 32-bit account id (the `userdata` folder name).
#[derive(Debug, Clone, Copy, PartialEq, Eq, Structural)]
pub struct SteamAccount {
    pub account_id: u32,
}

/// The account a 64-bit Steam id names, if it names an individual account.
pub open spec fn account_of(id64: u64) -> Option<SteamAccount> {
    if STEAM_ID64_BASE <= id64 && id64 - STEAM_ID64_BASE <= u32::MAX {
        Some(SteamAccount { account_id: (id64 - STEAM_ID64_BASE) as u32 })
    } else {
        None
    }
}

/// The 64-bit Steam id of an account.
pub open spec fn id64_of(a: SteamAccount) -> int {
    STEAM_ID64_BASE + a.account_id
}

impl SteamAccount {
    pub fn from_id64(id64: u64) -> (r: Option<SteamAccount>)
        ensures
            r == account_of(id64),
    {
        if id64 >= STEAM_ID64_BASE && id64 - STEAM_ID64_BASE <= 0xffff_ffff {
            Some(SteamAccount { account_id: (id64 - STEAM_ID64_BASE) as u32 })
        } else {
            None
        }
    }

    pub fn id64(self) -> (r: u64)
        ensures
            r == id64_of(self),
    {
        STEAM_ID64_BASE + self.account_id as u64
    }
}

/// The two forms of a Steam id convert into each other: an account's
/// 64-bit id names it again, and an id that names an account is that
/// account's 64-bit id.
pub proof fn law_steam_ids_convert_both_ways(account: SteamAccount, id64: u64)
    ensures
        account_of(id64_of(account) as u64) == Some(account),
        account_of(id64) matches Some(a) ==> id64_of(a) == id64,
{
}

// ---- filters ---------------------------------------------------------------

/// Which files under a save target a rule takes.
#[derive(Debug, Clone, PartialEq, Eq)]
pub enum Filter {
    /// Everything.
    All,
    /// A relative path, segment by segment.
    Exact(String),
    /// A relative pattern, each segment a glob.
    Pattern(String),
}

/// Two names are the same, optionally ignoring case.
pub open spec fn same_name(a: Seq<char>, b: Seq<char>, case_insensitive: bool) -> bool {
    if case_insensitive {
        crate::glob::fold_spec(a) == crate::glob::fold_spec(b)
    } else {
        a == b
    }
}

/// Whether the filter takes the relative path given as its components:
/// the filter's segments lead the path's.
pub open spec fn covers_spec(f: Filter, rel: Seq<Seq<char>>, case_insensitive: bool) -> bool {
    match f {
        Filter::All => true,
        Filter::Exact(p) => {
            let ps = crate::glob::segments(p@);
            ps.len() <= rel.len() && forall|k: int| 0 <= k < ps.len() ==> #[trigger] same_name(ps[k], rel[k], case_insensitive)
        },
        Filter::Pattern(p) => {
            let ps = crate::glob::segments(p@);
            ps.len() <= rel.len() && forall|k: int| 0 <= k < ps.len() ==> #[trigger] crate::glob::seg_match(ps[k], rel[k], case_insensitive)
        },
    }
}

/// Segment `j` of the filter takes component `j` of the path.
pub open spec fn segment_takes(ps: Seq<Seq<char>>, rel: Seq<Seq<char>>, j: int, glob: bool, case_insensitive: bool) -> bool {
    if glob {
        crate::glob::seg_match(ps[j], rel[j], case_insensitive)
    } else {
        same_name(ps[j], rel[j], case_insensitive)
    }
}

/// The texts of a list of string slices.
pub open spec fn str_views(v: Seq<&str>) -> Seq<Seq<char>> {
    v.map_values(|s: &str| s@)
}

impl Filter {
    /// Whether the filter takes the relative path given as its components.
    pub fn covers(&self, relative: &[&str], case_insensitive: bool) -> (r: bool)
        ensures
            r == covers_spec(*self, str_views(relative@), case_insensitive),
    {
        let (text, glob) = match self {
            Filter::All => {
                return true;
            },
            Filter::Exact(p) => (p, false),
            Filter::Pattern(p) => (p, true),
        };
        let ps = crate::glob::split_segments(&chars_of(text.as_str()));
        if ps.len() > relative.len() {
            return false;
        }
        let ghost rel = str_views(relative@);
        let mut k: usize = 0;
        while k < ps.len()
            invariant
                k <= ps.len() <= relative.len(),
                rel == str_views(relative@),
                crate::glob::views(ps@) == crate::glob::segments(text@),
                glob == (*self is Pattern),
                match *self {
                    Filter::Exact(p) => p@ == text@,
                    Filter::Pattern(p) => p@ == text@,
                    Filter::All => false,
                },
                forall|j: int| 0 <= j < k ==> #[trigger] segment_takes(crate::glob::views(ps@), rel, j, glob, case_insensitive),
            decreases ps.len() - k,
        {
            let name = chars_of(relative[k]);
            assert(rel[k as int] == name@);
            assert(crate::glob::views(ps@)[k as int] == ps@[k as int]@);
            let ok = if glob {
                crate::glob::match_segment(string_of(&ps[k]).as_str(), relative[k], case_insensitive)
            } else if case_insensitive {
                crate::text::chars_eq(&crate::glob::fold(&ps[k]), &crate::glob::fold(&name))
            } else {
                crate::text::chars_eq(&ps[k], &name)
            };
            assert(ok == segment_takes(crate::glob::views(ps@), rel, k as int, glob, case_insensitive));
            if !ok {
                return false;
            }
            k = k + 1;
        }
        proof {
            let pv = crate::glob::views(ps@);
            if glob {
                assert forall|j: int| 0 <= j < pv.len() implies #[trigger] crate::glob::seg_match(pv[j], rel[j], case_insensitive) by {
                    assert(segment_takes(pv, rel, j, glob, case_insensitive));
                }
            } else {
                assert forall|j: int| 0 <= j < pv.len() implies #[trigger] same_name(pv[j], rel[j], case_insensitive) by {
                    assert(segment_takes(pv, rel, j, glob, case_insensitive));
                }
            }
        }
        true
    }
}

} // verus!
