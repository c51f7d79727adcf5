//! Bundle model shared by the builder and the resolver.
//!
//! `catalog.json` is the contract between the two units, so the model and
//! its validator live here: builder output and resolver input cannot drift.

use vstd::prelude::*;
use crate::text::{
    is_whitespace_spec, lemma_lead_ws, lead_ws,
    chars_of, eq_lit, find_char, first_index, has_char, is_blank, lemma_first_index, push_all,
    push_str, slashes, slice_chars, split_all, split_chars, char_views, string_of, to_slashes,
    trim_spec,
};

verus! {

/// Major schema version. A host refuses bundles with a different major version.
pub const SCHEMA: u32 = 1;

/// What `format!("{:?}", s)` gives for a text: the text quoted, with
/// escapes.
pub uninterp spec fn debug_str(s: Seq<char>) -> Seq<char>;

/// `format!("{:?}", s)`.
#[verifier::external_body]
pub(crate) fn debug_quoted(s: &str) -> (r: String)
    ensures
        r@ == debug_str(s@),
{
    format!("{s:?}")
}

pub(crate) fn debug_quoted_chars(v: &[char]) -> (r: Vec<char>)
    ensures
        r@ == debug_str(v@),
{
    let s = string_of(v);
    let q = debug_quoted(s.as_str());
    chars_of(q.as_str())
}

/// A store product identifier list. Serialized as a bare number for a single
/// id and as an array when extras exist.
#[derive(Clone, Debug, Default, PartialEq, Eq)]
pub struct IdList(pub Vec<u64>);

impl IdList {
    pub fn one(id: u64) -> (r: Self)
        ensures
            r.0@ == seq![id],
    {
        IdList(vec![id])
    }

    pub fn is_empty(&self) -> (r: bool)
        ensures
            r == (self.0@.len() == 0),
    {
        self.0.len() == 0
    }

    pub fn first(&self) -> (r: Option<u64>)
        ensures
            r == (if self.0@.len() == 0 {
                None
            } else {
                Some(self.0@[0])
            }),
    {
        if self.0.len() == 0 {
            None
        } else {
            Some(self.0[0])
        }
    }
}

#[derive(Clone, Copy, Debug, PartialEq, Eq, PartialOrd, Ord, Hash, Structural)]
pub enum Platform {
    Windows,
    Macos,
    Linux,
}

pub open spec fn platform_name(p: Platform) -> Seq<char> {
    match p {
        Platform::Windows => "windows"@,
        Platform::Macos => "macos"@,
        Platform::Linux => "linux"@,
    }
}

impl Platform {
    /// The lowercase name the bundle spells it with.
    pub fn as_str(self) -> (r: &'static str)
        ensures
            r@ == platform_name(self),
    {
        match self {
            Platform::Windows => "windows",
            Platform::Macos => "macos",
            Platform::Linux => "linux",
        }
    }
}

/// `"windows"`, `"macos"` (or `"mac"`), `"linux"`.
pub open spec fn parse_platform_spec(s: Seq<char>) -> Option<Platform> {
    if s == "windows"@ {
        Some(Platform::Windows)
    } else if s == "macos"@ || s == "mac"@ {
        Some(Platform::Macos)
    } else if s == "linux"@ {
        Some(Platform::Linux)
    } else {
        None
    }
}

#[derive(Clone, Copy, Debug, PartialEq, Eq, PartialOrd, Ord, Hash, Structural)]
pub enum Store {
    Steam,
    Gog,
    Epic,
    Standalone,
}

pub open spec fn store_name(s: Store) -> Seq<char> {
    match s {
        Store::Steam => "steam"@,
        Store::Gog => "gog"@,
        Store::Epic => "epic"@,
        Store::Standalone => "standalone"@,
    }
}

impl Store {
    /// The lowercase name the bundle spells it with.
    pub fn as_str(self) -> (r: &'static str)
        ensures
            r@ == store_name(self),
    {
        match self {
            Store::Steam => "steam",
            Store::Gog => "gog",
            Store::Epic => "epic",
            Store::Standalone => "standalone",
        }
    }
}

pub open spec fn parse_store_spec(s: Seq<char>) -> Option<Store> {
    if s == "steam"@ {
        Some(Store::Steam)
    } else if s == "gog"@ {
        Some(Store::Gog)
    } else if s == "epic"@ {
        Some(Store::Epic)
    } else if s == "standalone"@ {
        Some(Store::Standalone)
    } else {
        None
    }
}

/// A name that isn't a platform or store.
#[derive(Debug)]
pub struct ParseError(pub String);

impl ParseError {
    pub fn message(&self) -> (r: &str)
        ensures
            r@ == self.0@,
    {
        self.0.as_str()
    }
}

/// Parses a platform name.
pub fn parse_platform(s: &str) -> (r: Result<Platform, ParseError>)
    ensures
        r matches Ok(p) ==> parse_platform_spec(s@) == Some(p),
        r matches Err(e) ==> parse_platform_spec(s@) is None && e.0@ == "unknown platform "@
            + debug_str(s@),
{
    let v = chars_of(s);
    if eq_lit(&v, "windows") {
        Ok(Platform::Windows)
    } else if eq_lit(&v, "macos") || eq_lit(&v, "mac") {
        Ok(Platform::Macos)
    } else if eq_lit(&v, "linux") {
        Ok(Platform::Linux)
    } else {
        let mut m: Vec<char> = Vec::new();
        push_str(&mut m, "unknown platform ");
        let q = debug_quoted(s);
        push_str(&mut m, q.as_str());
        Err(ParseError(string_of(&m)))
    }
}

/// Parses a store name.
pub fn parse_store(s: &str) -> (r: Result<Store, ParseError>)
    ensures
        r matches Ok(p) ==> parse_store_spec(s@) == Some(p),
        r matches Err(e) ==> parse_store_spec(s@) is None && e.0@ == "unknown store "@ + debug_str(
            s@,
        ),
{
    let v = chars_of(s);
    if eq_lit(&v, "steam") {
        Ok(Store::Steam)
    } else if eq_lit(&v, "gog") {
        Ok(Store::Gog)
    } else if eq_lit(&v, "epic") {
        Ok(Store::Epic)
    } else if eq_lit(&v, "standalone") {
        Ok(Store::Standalone)
    } else {
        let mut m: Vec<char> = Vec::new();
        push_str(&mut m, "unknown store ");
        let q = debug_quoted(s);
        push_str(&mut m, q.as_str());
        Err(ParseError(string_of(&m)))
    }
}

/// Applicability of one save candidate. Absent fields mean "any".
#[derive(Clone, Copy, Debug, PartialEq, Eq, Structural)]
pub struct When {
    pub os: Option<Platform>,
    pub store: Option<Store>,
}

pub open spec fn when_applies(w: When, os: Platform, store: Store) -> bool {
    (w.os is None || w.os == Some(os)) && (w.store is None || w.store == Some(store))
}

impl When {
    pub fn is_any(&self) -> (r: bool)
        ensures
            r == (self.os is None && self.store is None),
    {
        self.os.is_none() && self.store.is_none()
    }

    /// True when this condition-set is compatible with `os`/`store`.
    pub fn applies(&self, os: Platform, store: Store) -> (r: bool)
        ensures
            r == when_applies(*self, os, store),
    {
        let os_ok = match self.os {
            None => true,
            Some(candidate) => candidate == os,
        };
        let store_ok = match self.store {
            None => true,
            Some(candidate) => candidate == store,
        };
        os_ok && store_ok
    }
}

#[derive(Clone, Debug, PartialEq, Eq)]
pub struct SaveCandidate {
    pub when: Option<When>,
    pub dir: String,
}

#[derive(Clone, Debug, Default, PartialEq, Eq)]
pub struct Detect {
    pub steam: Option<IdList>,
    pub gog: Option<IdList>,
}

pub open spec fn ids_empty(ids: Option<IdList>) -> bool {
    match ids {
        None => true,
        Some(l) => l.0@.len() == 0,
    }
}

impl Detect {
    pub fn is_empty(&self) -> (r: bool)
        ensures
            r == (ids_empty(self.steam) && ids_empty(self.gog)),
    {
        let steam_empty = match &self.steam {
            None => true,
            Some(ids) => ids.is_empty(),
        };
        let gog_empty = match &self.gog {
            None => true,
            Some(ids) => ids.is_empty(),
        };
        steam_empty && gog_empty
    }
}

/// Executables keyed by platform, in platform order, each platform once.
pub type PlatformFiles = Vec<(Platform, Vec<String>)>;

#[derive(Clone, Debug, PartialEq, Eq)]
pub struct Game {
    pub id: String,
    pub name: String,
    pub info: String,
    pub detect: Option<Detect>,
    pub executables: PlatformFiles,
    pub save: Vec<SaveCandidate>,
}

/// The Steam ids a game's detection lists, empty when none.
pub open spec fn steam_ids_of(g: Game) -> Seq<u64> {
    match g.detect {
        Some(d) => match d.steam {
            Some(ids) => ids.0@,
            None => Seq::empty(),
        },
        None => Seq::empty(),
    }
}

pub open spec fn gog_ids_of(g: Game) -> Seq<u64> {
    match g.detect {
        Some(d) => match d.gog {
            Some(ids) => ids.0@,
            None => Seq::empty(),
        },
        None => Seq::empty(),
    }
}

impl Game {
    pub fn steam_ids(&self) -> (r: &[u64])
        ensures
            r@ == steam_ids_of(*self),
    {
        match &self.detect {
            Some(detect) => match &detect.steam {
                Some(ids) => ids.0.as_slice(),
                None => &[],
            },
            None => &[],
        }
    }

    pub fn gog_ids(&self) -> (r: &[u64])
        ensures
            r@ == gog_ids_of(*self),
    {
        match &self.detect {
            Some(detect) => match &detect.gog {
                Some(ids) => ids.0.as_slice(),
                None => &[],
            },
            None => &[],
        }
    }
}

#[derive(Clone, Debug, PartialEq, Eq)]
pub struct Source {
    pub repo: String,
    pub revision: String,
}

#[derive(Clone, Debug, PartialEq, Eq)]
pub struct Bundle {
    pub schema: u32,
    pub source: Source,
    pub games: Vec<Game>,
}

#[derive(Debug)]
pub enum BundleError {
    Json(String),
    Schema { found: u32, supported: u32 },
    Invalid(String),
}

/// The readable message of a bundle error.
pub open spec fn bundle_error_message(e: BundleError) -> Seq<char> {
    match e {
        BundleError::Json(text) => "invalid bundle JSON: "@ + text@,
        BundleError::Schema { found, supported } => "unsupported bundle schema "@ + crate::text::decimal(
            found as nat,
        ) + "; this build understands schema "@ + crate::text::decimal(supported as nat),
        BundleError::Invalid(text) => "invalid bundle: "@ + text@,
    }
}

impl BundleError {
    /// The readable message.
    pub fn message(&self) -> (r: String)
        ensures
            r@ == bundle_error_message(*self),
    {
        let mut m: Vec<char> = Vec::new();
        match self {
            BundleError::Json(text) => {
                push_str(&mut m, "invalid bundle JSON: ");
                push_str(&mut m, text.as_str());
            },
            BundleError::Schema { found, supported } => {
                push_str(&mut m, "unsupported bundle schema ");
                let f = crate::text::decimal_of(*found as u64);
                push_all(&mut m, &f);
                push_str(&mut m, "; this build understands schema ");
                let s = crate::text::decimal_of(*supported as u64);
                push_all(&mut m, &s);
            },
            BundleError::Invalid(text) => {
                push_str(&mut m, "invalid bundle: ");
                push_str(&mut m, text.as_str());
            },
        }
        string_of(&m)
    }
}

// ---- placeholders ----------------------------------------------------------

/// Placeholders the resolver understands. Builder output may only use these.
pub open spec fn is_placeholder(s: Seq<char>) -> bool {
    s == "INSTALL_DIR"@ || s == "APPDATA"@ || s == "LOCALAPPDATA"@ || s == "LOCALLOW"@ || s
        == "DOCUMENTS"@ || s == "PUBLIC"@ || s == "PROGRAMDATA"@ || s == "PROGRAMFILES"@ || s
        == "WINDIR"@ || s == "HOME"@ || s == "XDG_DATA_HOME"@ || s == "XDG_CONFIG_HOME"@ || s
        == "STORE_USER_ID"@ || s == "STEAM_USERDATA"@
}

pub fn placeholder_known(s: &[char]) -> (r: bool)
    ensures
        r == is_placeholder(s@),
{
    eq_lit(s, "INSTALL_DIR") || eq_lit(s, "APPDATA") || eq_lit(s, "LOCALAPPDATA") || eq_lit(
        s,
        "LOCALLOW",
    ) || eq_lit(s, "DOCUMENTS") || eq_lit(s, "PUBLIC") || eq_lit(s, "PROGRAMDATA") || eq_lit(
        s,
        "PROGRAMFILES",
    ) || eq_lit(s, "WINDIR") || eq_lit(s, "HOME") || eq_lit(s, "XDG_DATA_HOME") || eq_lit(
        s,
        "XDG_CONFIG_HOME",
    ) || eq_lit(s, "STORE_USER_ID") || eq_lit(s, "STEAM_USERDATA")
}

// ---- path checks -----------------------------------------------------------

/// Host-independent absolute-path test: `/...`, `\\...` or a drive letter
/// followed by `:/` or `:\`.
pub open spec fn is_absolute_spec(s: Seq<char>) -> bool {
    (s.len() >= 1 && s[0] == '/') || (s.len() >= 2 && s[0] == '\\' && s[1] == '\\') || (s.len()
        >= 3 && (s[0] as u32) < 128 && s[1] == ':' && (s[2] == '/' || s[2] == '\\'))
}

pub fn is_absolute_path(v: &[char]) -> (r: bool)
    ensures
        r == is_absolute_spec(v@),
{
    (v.len() >= 1 && v[0] == '/') || (v.len() >= 2 && v[0] == '\\' && v[1] == '\\') || (v.len()
        >= 3 && (v[0] as u32) < 128 && v[1] == ':' && (v[2] == '/' || v[2] == '\\'))
}

pub open spec fn has_any(s: Seq<char>, a: char, b: char, c: char, d: char) -> bool {
    s.contains(a) || s.contains(b) || s.contains(c) || s.contains(d)
}

pub open spec fn any_dotdot(pieces: Seq<Seq<char>>) -> bool {
    exists|k: int| 0 <= k < pieces.len() && #[trigger] pieces[k] == ".."@
}

/// What is wrong with an executable path, if anything.
pub open spec fn relative_problem(path: Seq<char>) -> Option<Seq<char>> {
    let normalized = slashes(path);
    if trim_spec(path).len() == 0 {
        Some("path must not be empty"@)
    } else if (normalized.len() > 0 && normalized[0] == '/') || normalized.contains(':') {
        Some("path must be relative: "@ + debug_str(path))
    } else if any_dotdot(split_all(normalized, '/')) {
        Some("path must not traverse: "@ + debug_str(path))
    } else if has_any(normalized, '<', '>', '{', '}') {
        Some("path must be resolved, not a template: "@ + debug_str(path))
    } else {
        None
    }
}

fn any_dotdot_exec(pieces: &Vec<Vec<char>>) -> (r: bool)
    ensures
        r == any_dotdot(char_views(pieces@)),
{
    let ghost pv = char_views(pieces@);
    let mut i: usize = 0;
    while i < pieces.len()
        invariant
            i <= pieces.len(),
            pv == char_views(pieces@),
            forall|k: int| 0 <= k < i ==> #[trigger] pv[k] != ".."@,
        decreases pieces.len() - i,
    {
        assert(pv[i as int] == pieces@[i as int]@);
        if eq_lit(&pieces[i], "..") {
            return true;
        }
        i = i + 1;
    }
    false
}

fn has_any_exec(v: &[char], a: char, b: char, c: char, d: char) -> (r: bool)
    ensures
        r == has_any(v@, a, b, c, d),
{
    has_char(v, a) || has_char(v, b) || has_char(v, c) || has_char(v, d)
}

fn message_with(prefix: &str, subject: &[char]) -> (r: String)
    ensures
        r@ == prefix@ + debug_str(subject@),
{
    let mut m: Vec<char> = Vec::new();
    push_str(&mut m, prefix);
    let q = debug_quoted_chars(subject);
    push_all(&mut m, &q);
    string_of(&m)
}

fn validate_relative(path: &[char]) -> (r: Result<(), String>)
    ensures
        r matches Err(e) ==> relative_problem(path@) == Some(e@),
        r is Ok ==> relative_problem(path@) is None,
{
    if is_blank(path) {
        return Err(string_of(&chars_of("path must not be empty")));
    }
    let normalized = to_slashes(path);
    if (normalized.len() > 0 && normalized[0] == '/') || has_char(&normalized, ':') {
        return Err(message_with("path must be relative: ", path));
    }
    let pieces = split_chars(&normalized, '/');
    if any_dotdot_exec(&pieces) {
        return Err(message_with("path must not traverse: ", path));
    }
    if has_any_exec(&normalized, '<', '>', '{', '}') {
        return Err(message_with("path must be resolved, not a template: ", path));
    }
    Ok(())
}

/// What is wrong with the placeholders of one segment's remainder.
pub open spec fn placeholder_problem(rest: Seq<char>, dir: Seq<char>) -> Option<Seq<char>>
    decreases rest.len(),
{
    match first_index(rest, '{') {
        None => if rest.contains('{') || rest.contains('}') {
            Some("unbalanced placeholder in "@ + debug_str(dir))
        } else {
            None
        },
        Some(open) => if 0 <= open < rest.len() {
            match first_index(rest.skip(open), '}') {
                None => Some("unclosed placeholder in "@ + debug_str(dir)),
                Some(c) => if 0 < c < rest.len() - open {
                    let close = open + c;
                    let token = rest.subrange(open + 1, close);
                    if !is_placeholder(token) {
                        Some("unknown placeholder {"@ + token + "} in "@ + debug_str(dir))
                    } else {
                        placeholder_problem(rest.skip(close + 1), dir)
                    }
                } else {
                    None
                },
            }
        } else {
            None
        },
    }
}

/// The first problem among the segments, in order.
pub open spec fn segments_problem(pieces: Seq<Seq<char>>, dir: Seq<char>) -> Option<Seq<char>>
    decreases pieces.len(),
{
    if pieces.len() == 0 {
        None
    } else if pieces[0] == ".."@ {
        Some("dir must not traverse: "@ + debug_str(dir))
    } else {
        match placeholder_problem(pieces[0], dir) {
            Some(m) => Some(m),
            None => segments_problem(pieces.drop_first(), dir),
        }
    }
}

/// What is wrong with a save `dir` template, if anything: it must be a known
/// `{PLACEHOLDER}` root or a literal absolute path, followed by relative
/// segments.
pub open spec fn dir_problem(dir: Seq<char>) -> Option<Seq<char>> {
    let normalized = slashes(dir);
    if dir.contains('<') || dir.contains('>') {
        Some("dir must use {{...}} placeholders: "@ + debug_str(dir))
    } else if normalized.len() == 0 {
        Some("dir must not be empty"@)
    } else {
        match segments_problem(split_all(normalized, '/'), dir) {
            Some(m) => Some(m),
            None => if !(normalized[0] == '{') && !is_absolute_spec(normalized) {
                Some("dir must start with a placeholder root or be absolute: "@ + debug_str(dir))
            } else {
                None
            },
        }
    }
}

fn check_placeholders(seg: &[char], dir: &[char]) -> (r: Option<String>)
    ensures
        r matches Some(m) ==> placeholder_problem(seg@, dir@) == Some(m@),
        r is None ==> placeholder_problem(seg@, dir@) is None,
    decreases seg.len(),
{
    proof {
        lemma_first_index(seg@, '{');
    }
    match find_char(seg, '{') {
        None => {
            if has_char(seg, '{') || has_char(seg, '}') {
                return Some(message_with("unbalanced placeholder in ", dir));
            }
            None
        },
        Some(open) => {
            let tail = slice_chars(seg, open, seg.len());
            assert(tail@ == seg@.skip(open as int));
            proof {
                lemma_first_index(tail@, '}');
            }
            match find_char(&tail, '}') {
                None => Some(message_with("unclosed placeholder in ", dir)),
                Some(c) => {
                    assert(tail@[0] == '{');
                    let close = open + c;
                    let token = slice_chars(seg, open + 1, close);
                    if !placeholder_known(&token) {
                        let mut m: Vec<char> = Vec::new();
                        push_str(&mut m, "unknown placeholder {");
                        push_all(&mut m, &token);
                        push_str(&mut m, "} in ");
                        let q = debug_quoted_chars(dir);
                        push_all(&mut m, &q);
                        return Some(string_of(&m));
                    }
                    let rest = slice_chars(seg, close + 1, seg.len());
                    assert(rest@ == seg@.skip(close + 1));
                    check_placeholders(&rest, dir)
                },
            }
        },
    }
}

fn validate_dir(dir: &[char]) -> (r: Result<(), String>)
    ensures
        r matches Err(e) ==> dir_problem(dir@) == Some(e@),
        r is Ok ==> dir_problem(dir@) is None,
{
    if has_char(dir, '<') || has_char(dir, '>') {
        return Err(message_with("dir must use {{...}} placeholders: ", dir));
    }
    let normalized = to_slashes(dir);
    if normalized.len() == 0 {
        return Err(string_of(&chars_of("dir must not be empty")));
    }
    let pieces = split_chars(&normalized, '/');
    let ghost pv = char_views(pieces@);
    let mut i: usize = 0;
    assert(pv.skip(0) == pv);
    while i < pieces.len()
        invariant
            i <= pieces.len(),
            pv == char_views(pieces@),
            pv == split_all(normalized@, '/'),
            normalized@ == slashes(dir@),
            normalized@.len() > 0,
            !dir@.contains('<'),
            !dir@.contains('>'),
            segments_problem(pv, dir@) == segments_problem(pv.skip(i as int), dir@),
        decreases pieces.len() - i,
    {
        let ghost here = pv.skip(i as int);
        assert(here[0] == pieces@[i as int]@);
        assert(here.drop_first() == pv.skip(i + 1));
        if eq_lit(&pieces[i], "..") {
            return Err(message_with("dir must not traverse: ", dir));
        }
        match check_placeholders(&pieces[i], dir) {
            Some(m) => {
                return Err(m);
            },
            None => {},
        }
        i = i + 1;
    }
    assert(pv.skip(i as int) == Seq::<Seq<char>>::empty());
    let rooted = normalized[0] == '{';
    if !rooted && !is_absolute_path(&normalized) {
        return Err(message_with("dir must start with a placeholder root or be absolute: ", dir));
    }
    Ok(())
}

// ---- the validator ---------------------------------------------------------

/// The first problem among one platform's executables.
pub open spec fn exec_list_problem(id: Seq<char>, platform: Platform, paths: Seq<String>) -> Option<
    Seq<char>,
>
    decreases paths.len(),
{
    if paths.len() == 0 {
        None
    } else {
        match relative_problem(paths[0]@) {
            Some(e) => Some("game "@ + id + " "@ + platform_name(platform) + " executable: "@ + e),
            None => exec_list_problem(id, platform, paths.drop_first()),
        }
    }
}

pub open spec fn exec_problem(id: Seq<char>, entries: Seq<(Platform, Vec<String>)>) -> Option<
    Seq<char>,
>
    decreases entries.len(),
{
    if entries.len() == 0 {
        None
    } else {
        match exec_list_problem(id, entries[0].0, entries[0].1@) {
            Some(m) => Some(m),
            None => exec_problem(id, entries.drop_first()),
        }
    }
}

pub open spec fn save_problem(id: Seq<char>, save: Seq<SaveCandidate>) -> Option<Seq<char>>
    decreases save.len(),
{
    if save.len() == 0 {
        None
    } else {
        match dir_problem(save[0].dir@) {
            Some(e) => Some("game "@ + id + " save dir: "@ + e),
            None => save_problem(id, save.drop_first()),
        }
    }
}

/// Whether an earlier game already has the id.
pub open spec fn id_taken(earlier: Seq<Game>, id: Seq<char>) -> bool {
    exists|k: int| 0 <= k < earlier.len() && #[trigger] earlier[k].id@ == id
}

/// What is wrong with one game, given the games before it.
pub open spec fn game_problem(g: Game, earlier: Seq<Game>) -> Option<Seq<char>> {
    if trim_spec(g.id@).len() == 0 {
        Some("game id must not be empty"@)
    } else if trim_spec(g.name@).len() == 0 {
        Some("game "@ + g.id@ + " has an empty name"@)
    } else if id_taken(earlier, g.id@) {
        Some("duplicate game id "@ + g.id@)
    } else {
        match exec_problem(g.id@, g.executables@) {
            Some(m) => Some(m),
            None => save_problem(g.id@, g.save@),
        }
    }
}

/// The first problem among the games from `i` on.
pub open spec fn games_problem(games: Seq<Game>, i: int) -> Option<Seq<char>>
    decreases games.len() - i,
{
    if i < 0 || i >= games.len() {
        None
    } else {
        match game_problem(games[i], games.take(i)) {
            Some(m) => Some(m),
            None => games_problem(games, i + 1),
        }
    }
}

/// What is wrong with a bundle whose schema is right, if anything.
pub open spec fn bundle_problem(b: Bundle) -> Option<Seq<char>> {
    if trim_spec(b.source.repo@).len() == 0 {
        Some("source repo must not be empty"@)
    } else if trim_spec(b.source.revision@).len() == 0 {
        Some("source revision must not be empty"@)
    } else {
        games_problem(b.games@, 0)
    }
}

/// A bundle the resolver accepts.
pub open spec fn bundle_valid(b: Bundle) -> bool {
    b.schema == SCHEMA && bundle_problem(b) is None
}

fn check_executables(id: &String, entries: &PlatformFiles) -> (r: Option<String>)
    ensures
        r matches Some(m) ==> exec_problem(id@, entries@) == Some(m@),
        r is None ==> exec_problem(id@, entries@) is None,
{
    let mut i: usize = 0;
    assert(entries@.skip(0) == entries@);
    while i < entries.len()
        invariant
            i <= entries.len(),
            exec_problem(id@, entries@) == exec_problem(id@, entries@.skip(i as int)),
        decreases entries.len() - i,
    {
        let ghost here = entries@.skip(i as int);
        assert(here[0] == entries@[i as int]);
        assert(here.drop_first() == entries@.skip(i + 1));
        let platform = entries[i].0;
        let paths = &entries[i].1;
        let mut j: usize = 0;
        assert(paths@.skip(0) == paths@);
        while j < paths.len()
            invariant
                j <= paths.len(),
                i < entries.len(),
                platform == entries@[i as int].0,
                paths@ == entries@[i as int].1@,
                exec_problem(id@, entries@) == exec_problem(id@, entries@.skip(i as int)),
                entries@.skip(i as int)[0] == entries@[i as int],
                entries@.skip(i as int).drop_first() == entries@.skip(i + 1),
                exec_list_problem(id@, platform, paths@) == exec_list_problem(
                    id@,
                    platform,
                    paths@.skip(j as int),
                ),
            decreases paths.len() - j,
        {
            let ghost there = paths@.skip(j as int);
            assert(there[0] == paths@[j as int]);
            assert(there.drop_first() == paths@.skip(j + 1));
            let pv = chars_of(paths[j].as_str());
            match validate_relative(&pv) {
                Err(e) => {
                    let mut m: Vec<char> = Vec::new();
                    push_str(&mut m, "game ");
                    push_str(&mut m, id.as_str());
                    push_str(&mut m, " ");
                    push_str(&mut m, platform.as_str());
                    push_str(&mut m, " executable: ");
                    push_str(&mut m, e.as_str());
                    return Some(string_of(&m));
                },
                Ok(()) => {},
            }
            j = j + 1;
        }
        assert(paths@.skip(j as int) == Seq::<String>::empty());
        i = i + 1;
    }
    assert(entries@.skip(i as int) == Seq::<(Platform, Vec<String>)>::empty());
    None
}

fn check_saves(id: &String, save: &Vec<SaveCandidate>) -> (r: Option<String>)
    ensures
        r matches Some(m) ==> save_problem(id@, save@) == Some(m@),
        r is None ==> save_problem(id@, save@) is None,
{
    let mut i: usize = 0;
    assert(save@.skip(0) == save@);
    while i < save.len()
        invariant
            i <= save.len(),
            save_problem(id@, save@) == save_problem(id@, save@.skip(i as int)),
        decreases save.len() - i,
    {
        let ghost here = save@.skip(i as int);
        assert(here[0] == save@[i as int]);
        assert(here.drop_first() == save@.skip(i + 1));
        let dv = chars_of(save[i].dir.as_str());
        match validate_dir(&dv) {
            Err(e) => {
                let mut m: Vec<char> = Vec::new();
                push_str(&mut m, "game ");
                push_str(&mut m, id.as_str());
                push_str(&mut m, " save dir: ");
                push_str(&mut m, e.as_str());
                return Some(string_of(&m));
            },
            Ok(()) => {},
        }
        i = i + 1;
    }
    assert(save@.skip(i as int) == Seq::<SaveCandidate>::empty());
    None
}

fn id_taken_exec(games: &Vec<Game>, upto: usize, id: &Vec<char>) -> (r: bool)
    requires
        upto <= games.len(),
    ensures
        r == id_taken(games@.take(upto as int), id@),
{
    let ghost earlier = games@.take(upto as int);
    let mut k: usize = 0;
    while k < upto
        invariant
            k <= upto <= games.len(),
            earlier == games@.take(upto as int),
            forall|m: int| 0 <= m < k ==> #[trigger] earlier[m].id@ != id@,
        decreases upto - k,
    {
        let other = chars_of(games[k].id.as_str());
        assert(earlier[k as int] == games@[k as int]);
        if crate::text::chars_eq(&other, id) {
            return true;
        }
        k = k + 1;
    }
    false
}

fn check_game(games: &Vec<Game>, i: usize) -> (r: Option<String>)
    requires
        i < games.len(),
    ensures
        r matches Some(m) ==> game_problem(games@[i as int], games@.take(i as int)) == Some(m@),
        r is None ==> game_problem(games@[i as int], games@.take(i as int)) is None,
{
    let game = &games[i];
    let idv = chars_of(game.id.as_str());
    if is_blank(&idv) {
        return Some(string_of(&chars_of("game id must not be empty")));
    }
    let namev = chars_of(game.name.as_str());
    if is_blank(&namev) {
        let mut m: Vec<char> = Vec::new();
        push_str(&mut m, "game ");
        push_all(&mut m, &idv);
        push_str(&mut m, " has an empty name");
        return Some(string_of(&m));
    }
    if id_taken_exec(games, i, &idv) {
        let mut m: Vec<char> = Vec::new();
        push_str(&mut m, "duplicate game id ");
        push_all(&mut m, &idv);
        return Some(string_of(&m));
    }
    match check_executables(&game.id, &game.executables) {
        Some(m) => {
            return Some(m);
        },
        None => {},
    }
    check_saves(&game.id, &game.save)
}

impl Bundle {
    /// Checks everything a resolver relies on: the schema version, a named
    /// source, and per game a non-blank unique id and a name, relative
    /// executables and well-formed save templates. The first problem found
    /// is reported.
    pub fn validate(&self) -> (r: Result<(), BundleError>)
        ensures
            self.schema != SCHEMA ==> (r matches Err(BundleError::Schema { found, supported }) && found
                == self.schema && supported == SCHEMA),
            self.schema == SCHEMA ==> (r is Ok <==> bundle_problem(*self) is None),
            self.schema == SCHEMA ==> (r matches Err(e) ==> (e matches BundleError::Invalid(m)
                && bundle_problem(*self) == Some(m@))),
    {
        if self.schema != SCHEMA {
            return Err(BundleError::Schema { found: self.schema, supported: SCHEMA });
        }
        let repo = chars_of(self.source.repo.as_str());
        if is_blank(&repo) {
            return Err(BundleError::Invalid(string_of(&chars_of("source repo must not be empty"))));
        }
        let revision = chars_of(self.source.revision.as_str());
        if is_blank(&revision) {
            return Err(
                BundleError::Invalid(string_of(&chars_of("source revision must not be empty"))),
            );
        }
        let mut i: usize = 0;
        while i < self.games.len()
            invariant
                i <= self.games.len(),
                self.schema == SCHEMA,
                bundle_problem(*self) == games_problem(self.games@, i as int),
            decreases self.games.len() - i,
        {
            match check_game(&self.games, i) {
                Some(m) => {
                    return Err(BundleError::Invalid(m));
                },
                None => {},
            }
            i = i + 1;
        }
        Ok(())
    }

    /// The first game with the id.
    pub fn game(&self, id: &str) -> (r: Option<&Game>)
        ensures
            r matches Some(g) ==> exists|k: int|
                0 <= k < self.games@.len() && self.games@[k] == *g && g.id@ == id@ && forall|m: int|
                    0 <= m < k ==> #[trigger] self.games@[m].id@ != id@,
            r is None ==> forall|k: int|
                0 <= k < self.games@.len() ==> #[trigger] self.games@[k].id@ != id@,
    {
        let want = chars_of(id);
        let mut i: usize = 0;
        while i < self.games.len()
            invariant
                i <= self.games.len(),
                want@ == id@,
                forall|m: int| 0 <= m < i ==> #[trigger] self.games@[m].id@ != id@,
            decreases self.games.len() - i,
        {
            let have = chars_of(self.games[i].id.as_str());
            if crate::text::chars_eq(&have, &want) {
                return Some(&self.games[i]);
            }
            i = i + 1;
        }
        None
    }
}


proof fn lemma_exec_list_refused(id: Seq<char>, platform: Platform, paths: Seq<String>, k: int)
    requires
        0 <= k < paths.len(),
        relative_problem(paths[k]@) is Some,
    ensures
        exec_list_problem(id, platform, paths) is Some,
    decreases k,
{
    if k > 0 && relative_problem(paths[0]@) is None {
        assert(paths.drop_first()[k - 1] == paths[k]);
        lemma_exec_list_refused(id, platform, paths.drop_first(), k - 1);
    }
}

proof fn lemma_exec_refused(id: Seq<char>, entries: Seq<(Platform, Vec<String>)>, k: int)
    requires
        0 <= k < entries.len(),
        exec_list_problem(id, entries[k].0, entries[k].1@) is Some,
    ensures
        exec_problem(id, entries) is Some,
    decreases k,
{
    if k > 0 && exec_list_problem(id, entries[0].0, entries[0].1@) is None {
        assert(entries.drop_first()[k - 1] == entries[k]);
        lemma_exec_refused(id, entries.drop_first(), k - 1);
    }
}

proof fn lemma_games_refused(games: Seq<Game>, i: int, k: int)
    requires
        0 <= i <= k < games.len(),
        game_problem(games[k], games.take(k)) is Some,
    ensures
        games_problem(games, i) is Some,
    decreases k - i,
{
    if i < k && game_problem(games[i], games.take(i)) is None {
        lemma_games_refused(games, i + 1, k);
    }
}

/// Executables must be relative: a bundle of the current schema in which
/// some executable path, with backslashes read as slashes, starts with `/`
/// or holds a `:` is invalid, and [`Bundle::validate`] refuses it.
pub proof fn law_an_absolute_executable_is_refused(b: Bundle, g: int, e: int, k: int)
    requires
        b.schema == SCHEMA,
        0 <= g < b.games@.len(),
        0 <= e < b.games@[g].executables@.len(),
        0 <= k < b.games@[g].executables@[e].1@.len(),
        ({
            let p = slashes(b.games@[g].executables@[e].1@[k]@);
            (p.len() > 0 && p[0] == '/') || p.contains(':')
        }),
    ensures
        bundle_problem(b) is Some,
        !bundle_valid(b),
{
    let game = b.games@[g];
    let entry = game.executables@[e];
    assert(relative_problem(entry.1@[k]@) is Some);
    lemma_exec_list_refused(game.id@, entry.0, entry.1@, k);
    lemma_exec_refused(game.id@, game.executables@, e);
    assert(game_problem(game, b.games@.take(g)) is Some);
    lemma_games_refused(b.games@, 0, g);
}


/// Text that is only whitespace (or nothing).
pub open spec fn blank(t: Seq<char>) -> bool {
    forall|i: int| 0 <= i < t.len() ==> is_whitespace_spec(#[trigger] t[i])
}

proof fn lemma_blank_trims_to_nothing(t: Seq<char>)
    requires
        blank(t),
    ensures
        trim_spec(t).len() == 0,
{
    lemma_lead_ws(t);
    if lead_ws(t) < t.len() {
        assert(is_whitespace_spec(t[lead_ws(t) as int]));
    }
}

/// An executable path the validator refuses: blank; absolute or with a
/// drive (after backslashes are read as slashes: starting with `/` or
/// holding `:`); stepping up with a `..` piece; or still a template,
/// holding `<`, `>`, `{` or `}`.
pub open spec fn bad_executable(p: Seq<char>) -> bool {
    let n = slashes(p);
    ||| blank(p)
    ||| (n.len() > 0 && n[0] == '/') || n.contains(':')
    ||| (exists|k: int| 0 <= k < split_all(n, '/').len() && #[trigger] split_all(n, '/')[k] == ".."@)
    ||| n.contains('<') || n.contains('>') || n.contains('{') || n.contains('}')
}

/// A bundle of the current schema with a refused executable path anywhere
/// is invalid.
pub proof fn law_a_bad_executable_is_refused(b: Bundle, g: int, e: int, k: int)
    requires
        b.schema == SCHEMA,
        0 <= g < b.games@.len(),
        0 <= e < b.games@[g].executables@.len(),
        0 <= k < b.games@[g].executables@[e].1@.len(),
        bad_executable(b.games@[g].executables@[e].1@[k]@),
    ensures
        bundle_problem(b) is Some,
        !bundle_valid(b),
{
    let game = b.games@[g];
    let entry = game.executables@[e];
    let p = entry.1@[k]@;
    if blank(p) {
        lemma_blank_trims_to_nothing(p);
    }
    assert(relative_problem(p) is Some);
    lemma_exec_list_refused(game.id@, entry.0, entry.1@, k);
    lemma_exec_refused(game.id@, game.executables@, e);
    assert(game_problem(game, b.games@.take(g)) is Some);
    lemma_games_refused(b.games@, 0, g);
}

proof fn lemma_save_refused(id: Seq<char>, save: Seq<SaveCandidate>, k: int)
    requires
        0 <= k < save.len(),
        dir_problem(save[k].dir@) is Some,
    ensures
        save_problem(id, save) is Some,
    decreases k,
{
    if k > 0 && dir_problem(save[0].dir@) is None {
        assert(save.drop_first()[k - 1] == save[k]);
        lemma_save_refused(id, save.drop_first(), k - 1);
    }
}

/// A save template the validator refuses: holding a manifest form (`<` or
/// `>`), empty, or starting neither with a `{...}` root nor as an absolute
/// path.
pub open spec fn bad_save_dir(d: Seq<char>) -> bool {
    let n = slashes(d);
    d.contains('<') || d.contains('>') || n.len() == 0 || (n[0] != '{' && !is_absolute_spec(n))
}

/// A bundle of the current schema with a refused save template anywhere is
/// invalid.
pub proof fn law_a_bad_save_dir_is_refused(b: Bundle, g: int, k: int)
    requires
        b.schema == SCHEMA,
        0 <= g < b.games@.len(),
        0 <= k < b.games@[g].save@.len(),
        bad_save_dir(b.games@[g].save@[k].dir@),
    ensures
        bundle_problem(b) is Some,
        !bundle_valid(b),
{
    let game = b.games@[g];
    assert(dir_problem(game.save@[k].dir@) is Some);
    lemma_save_refused(game.id@, game.save@, k);
    assert(game_problem(game, b.games@.take(g)) is Some);
    lemma_games_refused(b.games@, 0, g);
}

/// Game ids are unique and present, and every game is named: a bundle of
/// the current schema with two games of one id, a blank id or a blank name
/// is invalid.
pub proof fn law_game_ids_are_unique_and_games_named(b: Bundle, i: int, j: int)
    requires
        b.schema == SCHEMA,
        0 <= i < b.games@.len(),
        0 <= j < b.games@.len(),
        (i < j && b.games@[i].id@ == b.games@[j].id@) || blank(b.games@[j].id@) || blank(b.games@[j].name@),
    ensures
        bundle_problem(b) is Some,
        !bundle_valid(b),
{
    let game = b.games@[j];
    if blank(game.id@) {
        lemma_blank_trims_to_nothing(game.id@);
    } else if blank(game.name@) {
        lemma_blank_trims_to_nothing(game.name@);
    } else {
        assert(b.games@.take(j)[i] == b.games@[i]);
        assert(id_taken(b.games@.take(j), game.id@));
    }
    assert(game_problem(game, b.games@.take(j)) is Some);
    lemma_games_refused(b.games@, 0, j);
}

/// A bundle must name its source: a blank repository or revision is
/// invalid.
pub proof fn law_a_nameless_source_is_refused(b: Bundle)
    requires
        blank(b.source.repo@) || blank(b.source.revision@),
    ensures
        bundle_problem(b) is Some,
        !bundle_valid(b),
{
    if blank(b.source.repo@) {
        lemma_blank_trims_to_nothing(b.source.repo@);
    } else {
        lemma_blank_trims_to_nothing(b.source.revision@);
    }
}

} // verus!
