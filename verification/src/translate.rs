//! Manifest → bundle translation rules. Pure and deterministic.

use vstd::prelude::*;
use crate::manifest::{conditions, Cond, Entry, FileEntry, LaunchItem, Whens};
use crate::model::{
    debug_quoted_chars, debug_str, parse_platform_spec, Detect, IdList, Platform, PlatformFiles,
    SaveCandidate, Store, When,
};
use crate::paths::{lemma_text_order, lemma_text_order_trans, text_compare, text_order};
use crate::placeholders::strs;
use crate::text::{
    ascii_lower_seq, backslash_to_slash, chars_of, contains_chars, contains_seq, eq_lit, find_char, first_index,
    has_char, last_index, lemma_first_index, lemma_last_index, push_all, push_str, replace_all,
    replace_spec, rfind_char, slashes, slice_chars, starts_with, starts_with_chars, string_of,
    to_ascii_lowercase, to_slashes, find_first, find_from, lemma_find_from, occurs_at,
};

verus! {

#[derive(Debug, Clone, Copy, PartialEq, Eq, Structural)]
pub enum DropReason {
    NoFiles,
    ConfigOnly,
    MicrosoftOnly,
    UnsupportedRoot,
    UnsupportedPlaceholder,
    UnsupportedStore,
    GalaxyStorage,
    BareRoot,
    Empty,
}

pub open spec fn describe_spec(r: DropReason) -> Seq<char> {
    match r {
        DropReason::NoFiles => "no files section"@,
        DropReason::ConfigOnly => "config-only entries"@,
        DropReason::MicrosoftOnly => "MS Store-only saves"@,
        DropReason::UnsupportedRoot => "unsupported <root> path form"@,
        DropReason::UnsupportedPlaceholder => "unsupported placeholder"@,
        DropReason::UnsupportedStore => "unsupported store condition"@,
        DropReason::GalaxyStorage => "GOG Galaxy-managed storage"@,
        DropReason::BareRoot => "path resolves to a bare root"@,
        DropReason::Empty => "path resolves to nothing"@,
    }
}

impl DropReason {
    /// The reason as the build report words it.
    pub fn describe(self) -> (r: &'static str)
        ensures
            r@ == describe_spec(self),
    {
        match self {
            DropReason::NoFiles => "no files section",
            DropReason::ConfigOnly => "config-only entries",
            DropReason::MicrosoftOnly => "MS Store-only saves",
            DropReason::UnsupportedRoot => "unsupported <root> path form",
            DropReason::UnsupportedPlaceholder => "unsupported placeholder",
            DropReason::UnsupportedStore => "unsupported store condition",
            DropReason::GalaxyStorage => "GOG Galaxy-managed storage",
            DropReason::BareRoot => "path resolves to a bare root",
            DropReason::Empty => "path resolves to nothing",
        }
    }
}

// ---- path pieces -----------------------------------------------------------

/// `trim_end_matches(['/', '\\'])`.
pub open spec fn trim_end_separators(s: Seq<char>) -> Seq<char>
    decreases s.len(),
{
    if s.len() > 0 && (s.last() == '/' || s.last() == '\\') {
        trim_end_separators(s.drop_last())
    } else {
        s
    }
}

/// `trim_end_matches('/')`.
pub open spec fn trim_end_slash(s: Seq<char>) -> Seq<char>
    decreases s.len(),
{
    if s.len() > 0 && s.last() == '/' {
        trim_end_slash(s.drop_last())
    } else {
        s
    }
}

fn trim_end_with(v: &[char], backslash_too: bool) -> (r: Vec<char>)
    ensures
        r@ == (if backslash_too {
            trim_end_separators(v@)
        } else {
            trim_end_slash(v@)
        }),
{
    let mut end: usize = v.len();
    assert(v@.take(v.len() as int) == v@);
    while end > 0 && (v[end - 1] == '/' || (backslash_too && v[end - 1] == '\\'))
        invariant
            end <= v.len(),
            (if backslash_too {
                trim_end_separators(v@)
            } else {
                trim_end_slash(v@)
            }) == (if backslash_too {
                trim_end_separators(v@.take(end as int))
            } else {
                trim_end_slash(v@.take(end as int))
            }),
        decreases end,
    {
        assert(v@.take(end as int).drop_last() == v@.take(end - 1));
        end = end - 1;
    }
    assert(v@.take(v.len() as int) == v@);
    slice_chars(v, 0, end)
}

/// Drops the first path segment, keeping the leading slash.
pub open spec fn strip_segment_spec(rest: Seq<char>) -> Seq<char> {
    match first_index(rest, '/') {
        Some(i) => rest.skip(i),
        None => Seq::empty(),
    }
}

/// Drops the first path segment, keeping the leading slash.
pub fn strip_segment(rest: &str) -> (r: String)
    ensures
        r@ == strip_segment_spec(rest@),
{
    let v = chars_of(rest);
    proof {
        lemma_first_index(v@, '/');
    }
    match find_char(&v, '/') {
        Some(i) => string_of(&slice_chars(&v, i, v.len())),
        None => string_of(&Vec::new()),
    }
}

/// `<root>/steamapps/common/<installDir>/rest` → `/rest`.
pub fn strip_install_dir_segment(rest: &str) -> (r: String)
    ensures
        r@ == strip_segment_spec(rest@),
{
    strip_segment(rest)
}

/// The first `<...>` form left in a path.
pub open spec fn unknown_placeholder_spec(s: Seq<char>) -> Option<Seq<char>> {
    match first_index(s, '<') {
        None => None,
        Some(start) => match first_index(s.skip(start), '>') {
            None => None,
            Some(off) => Some(s.subrange(start, start + off + 1)),
        },
    }
}

/// The first `<...>` form left in a path.
pub fn first_unknown_placeholder(path: &str) -> (r: Option<String>)
    ensures
        match r {
            Some(p) => unknown_placeholder_spec(path@) == Some(p@),
            None => unknown_placeholder_spec(path@) is None,
        },
{
    let v = chars_of(path);
    let start = match find_char(&v, '<') {
        Some(start) => start,
        None => {
            return None;
        },
    };
    proof {
        lemma_first_index(v@, '<');
    }
    let tail = slice_chars(&v, start, v.len());
    let off = match find_char(&tail, '>') {
        Some(off) => off,
        None => {
            return None;
        },
    };
    proof {
        lemma_first_index(tail@, '>');
    }
    Some(string_of(&slice_chars(&v, start, start + off + 1)))
}

/// Glob metacharacters.
pub open spec fn is_glob_meta(c: char) -> bool {
    c == '*' || c == '?' || c == '['
}

/// The position of the first glob metacharacter.
pub open spec fn first_meta(s: Seq<char>) -> Option<int>
    decreases s.len(),
{
    if s.len() == 0 {
        None
    } else if is_glob_meta(s[0]) {
        Some(0)
    } else {
        match first_meta(s.drop_first()) {
            Some(i) => Some(i + 1),
            None => None,
        }
    }
}

proof fn lemma_first_meta(s: Seq<char>)
    ensures
        match first_meta(s) {
            Some(i) => 0 <= i < s.len(),
            None => true,
        },
        forall|i: int| 0 <= i < s.len() && is_glob_meta(#[trigger] s[i]) ==> first_meta(s) is Some
            && first_meta(s)->0 <= i,
    decreases s.len(),
{
    if s.len() > 0 {
        lemma_first_meta(s.drop_first());
        assert forall|i: int| 0 <= i < s.len() && is_glob_meta(#[trigger] s[i]) implies first_meta(
            s,
        ) is Some && first_meta(s)->0 <= i by {
            if i > 0 && !is_glob_meta(s[0]) {
                assert(s.drop_first()[i - 1] == s[i]);
            }
        }
    }
}

/// Cut at the first glob metacharacter, then drop the trailing partial
/// segment.
pub open spec fn collapse_glob_spec(s: Seq<char>) -> Seq<char> {
    match first_meta(s) {
        None => s,
        Some(i) => {
            let before = s.take(i);
            match last_index(before, '/') {
                Some(j) => before.take(j),
                None => Seq::empty(),
            }
        },
    }
}

/// Cut at the first glob metacharacter, then drop the trailing partial
/// segment.
pub fn collapse_glob(path: &str) -> (r: String)
    ensures
        r@ == collapse_glob_spec(path@),
{
    let v = chars_of(path);
    let mut i: usize = 0;
    assert(v@.skip(0) == v@);
    while i < v.len() && !(v[i] == '*' || v[i] == '?' || v[i] == '[')
        invariant
            i <= v.len(),
            first_meta(v@) == (match first_meta(v@.skip(i as int)) {
                Some(k) => Some(k + i),
                None => None,
            }),
        decreases v.len() - i,
    {
        assert(v@.skip(i as int).drop_first() == v@.skip(i + 1));
        i = i + 1;
    }
    if i == v.len() {
        assert(v@.skip(i as int).len() == 0);
        return string_of(&v);
    }
    let before = slice_chars(&v, 0, i);
    match rfind_char(&before, '/') {
        Some(slash) => {
            proof {
                lemma_last_index(before@, '/');
            }
            string_of(&slice_chars(&before, 0, slash))
        },
        None => string_of(&Vec::new()),
    }
}

/// The last `/`-separated part of a path.
pub open spec fn last_part(s: Seq<char>) -> Seq<char> {
    match last_index(s, '/') {
        Some(j) => s.skip(j + 1),
        None => s,
    }
}

/// File-looking leaf paths resolve to their parent directory.
pub open spec fn to_directory_spec(s: Seq<char>) -> Seq<char> {
    let last = last_part(s);
    if last.contains('.') && last != "."@ && last != ".."@ {
        match last_index(s, '/') {
            Some(j) => s.take(j),
            None => Seq::empty(),
        }
    } else {
        s
    }
}

/// File-looking leaf paths resolve to their parent directory.
pub fn to_directory(path: &str) -> (r: String)
    ensures
        r@ == to_directory_spec(path@),
{
    let v = chars_of(path);
    let slash = rfind_char(&v, '/');
    proof {
        lemma_last_index(v@, '/');
    }
    let last = match slash {
        Some(j) => slice_chars(&v, j + 1, v.len()),
        None => slice_chars(&v, 0, v.len()),
    };
    assert(last@ == last_part(v@));
    if has_char(&last, '.') && !eq_lit(&last, ".") && !eq_lit(&last, "..") {
        match slash {
            Some(j) => string_of(&slice_chars(&v, 0, j)),
            None => string_of(&Vec::new()),
        }
    } else {
        string_of(&v)
    }
}

/// A placeholder standing alone: a whole root, never a save directory.
pub open spec fn is_bare_root_spec(dir: Seq<char>) -> bool {
    !dir.contains('/') && (dir == "{INSTALL_DIR}"@ || dir == "{HOME}"@ || dir == "{APPDATA}"@ || dir
        == "{LOCALAPPDATA}"@ || dir == "{LOCALLOW}"@ || dir == "{DOCUMENTS}"@ || dir == "{PUBLIC}"@
        || dir == "{PROGRAMDATA}"@ || dir == "{PROGRAMFILES}"@ || dir == "{WINDIR}"@ || dir
        == "{XDG_DATA_HOME}"@ || dir == "{XDG_CONFIG_HOME}"@ || dir == "{STEAM_USERDATA}"@)
}

/// A placeholder standing alone: a whole root, never a save directory.
pub fn is_bare_root(dir: &str) -> (r: bool)
    ensures
        r == is_bare_root_spec(dir@),
{
    let v = chars_of(dir);
    !has_char(&v, '/') && (eq_lit(&v, "{INSTALL_DIR}") || eq_lit(&v, "{HOME}") || eq_lit(
        &v,
        "{APPDATA}",
    ) || eq_lit(&v, "{LOCALAPPDATA}") || eq_lit(&v, "{LOCALLOW}") || eq_lit(&v, "{DOCUMENTS}")
        || eq_lit(&v, "{PUBLIC}") || eq_lit(&v, "{PROGRAMDATA}") || eq_lit(&v, "{PROGRAMFILES}")
        || eq_lit(&v, "{WINDIR}") || eq_lit(&v, "{XDG_DATA_HOME}") || eq_lit(&v, "{XDG_CONFIG_HOME}")
        || eq_lit(&v, "{STEAM_USERDATA}"))
}

/// The manifest's root forms, each replaced by the bundle placeholder.
pub open spec fn replace_roots(s: Seq<char>) -> Seq<char> {
    let s = replace_spec(s, "<home>"@, "{HOME}"@);
    let s = replace_spec(s, "<winAppData>"@, "{APPDATA}"@);
    let s = replace_spec(s, "<winLocalAppData>"@, "{LOCALAPPDATA}"@);
    let s = replace_spec(s, "<winLocalAppDataLow>"@, "{LOCALLOW}"@);
    let s = replace_spec(s, "<winDocuments>"@, "{DOCUMENTS}"@);
    let s = replace_spec(s, "<winProgramData>"@, "{PROGRAMDATA}"@);
    let s = replace_spec(s, "<winPublic>"@, "{PUBLIC}"@);
    let s = replace_spec(s, "<winDir>"@, "{WINDIR}"@);
    let s = replace_spec(s, "<xdgData>"@, "{XDG_DATA_HOME}"@);
    let s = replace_spec(s, "<xdgConfig>"@, "{XDG_CONFIG_HOME}"@);
    replace_spec(s, "<storeUserId>"@, "{STORE_USER_ID}"@)
}

fn replace_root_forms(v: &[char]) -> (r: Vec<char>)
    ensures
        r@ == replace_roots(v@),
{
    proof {
        reveal_strlit("<home>");
        reveal_strlit("<winAppData>");
        reveal_strlit("<winLocalAppData>");
        reveal_strlit("<winLocalAppDataLow>");
        reveal_strlit("<winDocuments>");
        reveal_strlit("<winProgramData>");
        reveal_strlit("<winPublic>");
        reveal_strlit("<winDir>");
        reveal_strlit("<xdgData>");
        reveal_strlit("<xdgConfig>");
        reveal_strlit("<storeUserId>");
    }
    let s = replace_all(v, "<home>", "{HOME}");
    let s = replace_all(&s, "<winAppData>", "{APPDATA}");
    let s = replace_all(&s, "<winLocalAppData>", "{LOCALAPPDATA}");
    let s = replace_all(&s, "<winLocalAppDataLow>", "{LOCALLOW}");
    let s = replace_all(&s, "<winDocuments>", "{DOCUMENTS}");
    let s = replace_all(&s, "<winProgramData>", "{PROGRAMDATA}");
    let s = replace_all(&s, "<winPublic>", "{PUBLIC}");
    let s = replace_all(&s, "<winDir>", "{WINDIR}");
    let s = replace_all(&s, "<xdgData>", "{XDG_DATA_HOME}");
    let s = replace_all(&s, "<xdgConfig>", "{XDG_CONFIG_HOME}");
    replace_all(&s, "<storeUserId>", "{STORE_USER_ID}")
}

/// The first rewriting step: the `<base>` and `<root>` forms, or the other
/// root forms replaced by their placeholders.
pub open spec fn rooted(trimmed: Seq<char>) -> Result<Seq<char>, DropReason> {
    let base = "<base>"@;
    let root = "<root>"@;
    let common = "/steamapps/common/"@;
    let userdata = "/userdata/"@;
    let user = "<storeUserId>/"@;
    if starts_with(trimmed, base) {
        let rest = trimmed.skip(base.len() as int);
        if rest.len() == 0 {
            Err(DropReason::BareRoot)
        } else {
            Ok("{INSTALL_DIR}"@ + rest)
        }
    } else if starts_with(trimmed, root) {
        let rest = trimmed.skip(root.len() as int);
        if starts_with(rest, common) {
            let rest = strip_segment_spec(rest.skip(common.len() as int));
            if rest.len() == 0 {
                Err(DropReason::BareRoot)
            } else {
                Ok("{INSTALL_DIR}"@ + rest)
            }
        } else if starts_with(rest, userdata) {
            let rest = rest.skip(userdata.len() as int);
            let rest = if starts_with(rest, user) {
                rest.skip(user.len() as int)
            } else {
                rest
            };
            if rest.len() == 0 {
                Err(DropReason::BareRoot)
            } else {
                Ok("{STEAM_USERDATA}/"@ + rest)
            }
        } else {
            Err(DropReason::UnsupportedRoot)
        }
    } else if contains_seq(trimmed, base) {
        Err(DropReason::UnsupportedRoot)
    } else {
        Ok(replace_roots(trimmed))
    }
}

/// How one manifest path becomes a bundle `dir` template, or why it is
/// dropped.
pub open spec fn normalize_spec(path: Seq<char>) -> Result<Seq<char>, DropReason> {
    match rooted(trim_end_separators(path)) {
        Err(reason) => Err(reason),
        Ok(replaced) => {
            let replaced = slashes(replaced);
            if contains_seq(replaced, "<base>"@) || contains_seq(replaced, "<root>"@) {
                Err(DropReason::UnsupportedRoot)
            } else if unknown_placeholder_spec(replaced) is Some {
                Err(DropReason::UnsupportedPlaceholder)
            } else {
                let dir = trim_end_slash(to_directory_spec(collapse_glob_spec(replaced)));
                if dir.len() == 0 || dir == "/"@ {
                    Err(DropReason::Empty)
                } else if is_bare_root_spec(dir) {
                    Err(DropReason::BareRoot)
                } else if contains_seq(ascii_lower_seq(dir), "gog.com/galaxy"@) {
                    Err(DropReason::GalaxyStorage)
                } else {
                    Ok(dir)
                }
            }
        },
    }
}

fn concat_lit(lit: &str, rest: &[char]) -> (r: Vec<char>)
    ensures
        r@ == lit@ + rest@,
{
    let mut out = chars_of(lit);
    push_all(&mut out, rest);
    out
}

fn rooted_exec(trimmed: &[char]) -> (r: Result<Vec<char>, DropReason>)
    ensures
        match r {
            Ok(v) => rooted(trimmed@) == Ok::<Seq<char>, DropReason>(v@),
            Err(e) => rooted(trimmed@) == Err::<Seq<char>, DropReason>(e),
        },
{
    let base = chars_of("<base>");
    let root = chars_of("<root>");
    if starts_with_chars(trimmed, &base) {
        let rest = slice_chars(trimmed, base.len(), trimmed.len());
        if rest.len() == 0 {
            return Err(DropReason::BareRoot);
        }
        return Ok(concat_lit("{INSTALL_DIR}", &rest));
    }
    if starts_with_chars(trimmed, &root) {
        let rest = slice_chars(trimmed, root.len(), trimmed.len());
        let common = chars_of("/steamapps/common/");
        let userdata = chars_of("/userdata/");
        if starts_with_chars(&rest, &common) {
            let after = slice_chars(&rest, common.len(), rest.len());
            let tail = strip_segment(string_of(&after).as_str());
            let tail = chars_of(tail.as_str());
            if tail.len() == 0 {
                return Err(DropReason::BareRoot);
            }
            return Ok(concat_lit("{INSTALL_DIR}", &tail));
        }
        if starts_with_chars(&rest, &userdata) {
            let after = slice_chars(&rest, userdata.len(), rest.len());
            let user = chars_of("<storeUserId>/");
            let after = if starts_with_chars(&after, &user) {
                slice_chars(&after, user.len(), after.len())
            } else {
                after
            };
            if after.len() == 0 {
                return Err(DropReason::BareRoot);
            }
            return Ok(concat_lit("{STEAM_USERDATA}/", &after));
        }
        return Err(DropReason::UnsupportedRoot);
    }
    if contains_chars(trimmed, &base) {
        return Err(DropReason::UnsupportedRoot);
    }
    Ok(replace_root_forms(trimmed))
}

fn lower_ascii(v: &[char]) -> (r: Vec<char>)
    ensures
        r@ == ascii_lower_seq(v@),
{
    let mut r: Vec<char> = Vec::new();
    let mut i: usize = 0;
    while i < v.len()
        invariant
            i <= v.len(),
            r@ == ascii_lower_seq(v@.take(i as int)),
        decreases v.len() - i,
    {
        r.push(to_ascii_lowercase(v[i]));
        i = i + 1;
        assert(r@ =~= ascii_lower_seq(v@.take(i as int)));
    }
    assert(v@.take(v.len() as int) == v@);
    r
}

/// Translates one manifest path into a bundle `dir` template.
pub fn normalize_path(path: &str) -> (r: Result<String, DropReason>)
    ensures
        match r {
            Ok(dir) => normalize_spec(path@) == Ok::<Seq<char>, DropReason>(dir@),
            Err(e) => normalize_spec(path@) == Err::<Seq<char>, DropReason>(e),
        },
{
    let raw = chars_of(path);
    let trimmed = trim_end_with(&raw, true);
    let replaced = match rooted_exec(&trimmed) {
        Ok(v) => v,
        Err(e) => {
            return Err(e);
        },
    };
    let replaced = to_slashes(&replaced);
    if contains_chars(&replaced, &chars_of("<base>")) || contains_chars(
        &replaced,
        &chars_of("<root>"),
    ) {
        return Err(DropReason::UnsupportedRoot);
    }
    let text = string_of(&replaced);
    if first_unknown_placeholder(text.as_str()).is_some() {
        return Err(DropReason::UnsupportedPlaceholder);
    }
    let collapsed = collapse_glob(text.as_str());
    let dir = to_directory(collapsed.as_str());
    let dir = trim_end_with(&chars_of(dir.as_str()), false);
    if dir.len() == 0 || eq_lit(&dir, "/") {
        return Err(DropReason::Empty);
    }
    let dir_text = string_of(&dir);
    if is_bare_root(dir_text.as_str()) {
        return Err(DropReason::BareRoot);
    }
    if contains_chars(&lower_ascii(&dir), &chars_of("gog.com/galaxy")) {
        return Err(DropReason::GalaxyStorage);
    }
    Ok(dir_text)
}

/// A separator at the end of a path changes nothing of what it normalizes to.
pub proof fn law_a_trailing_slash_changes_nothing(path: Seq<char>)
    ensures
        normalize_spec(path.push('/')) == normalize_spec(path),
{
    assert(path.push('/').drop_last() == path);
}

/// Trimming separators off the end of `a + b` trims `b`, or, where only
/// separators make up `b`, trims `a`.
proof fn lemma_trim_end_separators_concat(a: Seq<char>, b: Seq<char>)
    ensures
        trim_end_separators(a + b) == (if trim_end_separators(b).len() > 0 {
            a + trim_end_separators(b)
        } else {
            trim_end_separators(a)
        }),
    decreases b.len(),
{
    if b.len() == 0 {
        assert(a + b == a);
    } else if b.last() == '/' || b.last() == '\\' {
        assert((a + b).drop_last() == a + b.drop_last());
        lemma_trim_end_separators_concat(a, b.drop_last());
    }
}

/// Trimming separators keeps a prefix, and keeps every character up to the
/// last one that is not a separator.
proof fn lemma_trim_end_separators_keeps(s: Seq<char>)
    ensures
        trim_end_separators(s).len() <= s.len(),
        trim_end_separators(s) == s.take(trim_end_separators(s).len() as int),
        forall|i: int|
            0 <= i < s.len() && s[i] != '/' && s[i] != '\\' ==> i < #[trigger] trim_end_separators(s).len(),
    decreases s.len(),
{
    if s.len() > 0 && (s.last() == '/' || s.last() == '\\') {
        lemma_trim_end_separators_keeps(s.drop_last());
        let n = trim_end_separators(s).len() as int;
        assert(s.drop_last().take(n) == s.take(n));
        assert forall|i: int| 0 <= i < s.len() && s[i] != '/' && s[i] != '\\' implies i
            < #[trigger] trim_end_separators(s).len() by {
            assert(s.drop_last()[i] == s[i]);
        }
    } else {
        assert(s.take(s.len() as int) == s);
    }
}

/// The first `/` of `x + t`, where `x` has none and `t` starts with one.
proof fn lemma_first_slash_after(x: Seq<char>, t: Seq<char>)
    requires
        !x.contains('/'),
        t.len() > 0,
        t[0] == '/',
    ensures
        first_index(x + t, '/') == Some(x.len() as int),
{
    let s = x + t;
    lemma_first_index(s, '/');
    assert(s[x.len() as int] == '/');
    match first_index(s, '/') {
        Some(i) => {
            if i < x.len() {
                assert(x[i] == s[i]);
            } else if i > x.len() {
                assert(s.take(i)[x.len() as int] == '/');
            }
        },
        None => {},
    }
}

/// Paths whose first rewriting step agrees normalize alike.
proof fn lemma_same_rooted(a: Seq<char>, b: Seq<char>)
    requires
        rooted(trim_end_separators(a)) == rooted(trim_end_separators(b)),
    ensures
        normalize_spec(a) == normalize_spec(b),
{
}

/// The install-folder form with something left after the folder name.
#[verifier::rlimit(40)]
proof fn lemma_install_folder_with_rest(x: Seq<char>, t: Seq<char>)
    requires
        !x.contains('/'),
        t.len() > 0,
        t[0] == '/',
    ensures
        rooted("<root>/steamapps/common/"@ + x + t) == Ok::<Seq<char>, DropReason>("{INSTALL_DIR}"@ + t),
        rooted("<base>"@ + t) == Ok::<Seq<char>, DropReason>("{INSTALL_DIR}"@ + t),
{
    reveal_strlit("<root>/steamapps/common/");
    reveal_strlit("/steamapps/common/");
    reveal_strlit("<root>");
    reveal_strlit("<base>");
    let p = "<root>/steamapps/common/"@;
    let b = "<base>"@;
    let common = "/steamapps/common/"@;
    let left = p + x + t;
    assert(left.take(6) != b) by {
        assert(left.take(6)[1] == 'r');
    }
    assert(left.take(6) == "<root>"@);
    let r1 = left.skip(6);
    assert(r1 == common + x + t);
    assert(r1.take(18) == common);
    assert(r1.skip(18) == x + t);
    lemma_first_slash_after(x, t);
    assert((x + t).skip(x.len() as int) == t);
    assert(strip_segment_spec(r1.skip(18)) == t);
    let right = b + t;
    assert(right.take(6) == b);
    assert(right.skip(6) == t);
}

/// The install-folder form with nothing left after the folder name.
#[verifier::rlimit(40)]
proof fn lemma_install_folder_alone(xt: Seq<char>)
    requires
        !xt.contains('/'),
    ensures
        rooted("<root>/steamapps/common/"@ + xt) == Err::<Seq<char>, DropReason>(DropReason::BareRoot),
        rooted("<base>"@) == Err::<Seq<char>, DropReason>(DropReason::BareRoot),
{
    reveal_strlit("<root>/steamapps/common/");
    reveal_strlit("/steamapps/common/");
    reveal_strlit("<root>");
    reveal_strlit("<base>");
    let p = "<root>/steamapps/common/"@;
    let b = "<base>"@;
    let common = "/steamapps/common/"@;
    let left = p + xt;
    assert(left.take(6) != b) by {
        assert(left.take(6)[1] == 'r');
    }
    assert(left.take(6) == "<root>"@);
    let r1 = left.skip(6);
    assert(r1 == common + xt);
    assert(r1.take(18) == common);
    assert(r1.skip(18) == xt);
    lemma_first_index(xt, '/');
    assert(b.take(6) == b);
    assert(b.skip(6).len() == 0);
}

/// A path into a Steam library's install folder normalizes as the same path
/// written from the game's install folder: `<root>/steamapps/common/`, a
/// folder name `x` without `/`, then `rest` starting with `/`, gives what
/// `<base>` then `rest` gives; where `rest` is only separators, `x` must hold
/// something besides backslashes.
pub proof fn law_the_install_folder_reads_as_base(x: Seq<char>, rest: Seq<char>)
    requires
        !x.contains('/'),
        rest.len() > 0,
        rest[0] == '/',
        trim_end_separators(rest).len() > 0 || exists|i: int| 0 <= i < x.len() && x[i] != '\\',
    ensures
        normalize_spec("<root>/steamapps/common/"@ + x + rest) == normalize_spec("<base>"@ + rest),
{
    let p = "<root>/steamapps/common/"@;
    let b = "<base>"@;
    let t = trim_end_separators(rest);
    lemma_trim_end_separators_keeps(rest);
    lemma_trim_end_separators_concat(p + x, rest);
    lemma_trim_end_separators_concat(b, rest);
    if t.len() > 0 {
        assert(t[0] == rest[0]);
        lemma_install_folder_with_rest(x, t);
        assert(trim_end_separators(p + x + rest) == p + x + t);
    } else {
        let i = choose|i: int| 0 <= i < x.len() && x[i] != '\\';
        assert(x[i] != '/');
        lemma_trim_end_separators_keeps(x);
        lemma_trim_end_separators_concat(p, x);
        let xt = trim_end_separators(x);
        assert(i < xt.len());
        assert(!xt.contains('/')) by {
            if xt.contains('/') {
                let k = choose|k: int| 0 <= k < xt.len() && xt[k] == '/';
                assert(x[k] == xt[k]);
            }
        }
        lemma_install_folder_alone(xt);
        reveal_strlit("<base>");
        assert(b.last() == '>');
        assert(trim_end_separators(b) == b);
    }
    lemma_same_rooted(p + x + rest, b + rest);
}

/// Trimming trailing slashes keeps a prefix and leaves no slash at the end.
proof fn lemma_trim_end_slash(s: Seq<char>)
    ensures
        trim_end_slash(s).len() <= s.len(),
        trim_end_slash(s) == s.take(trim_end_slash(s).len() as int),
        trim_end_slash(s).len() > 0 ==> trim_end_slash(s).last() != '/',
    decreases s.len(),
{
    if s.len() > 0 && s.last() == '/' {
        lemma_trim_end_slash(s.drop_last());
        let n = trim_end_slash(s).len() as int;
        assert(s.drop_last().take(n) == s.take(n));
    } else {
        assert(s.take(s.len() as int) == s);
    }
}

/// The parent-directory step keeps a prefix.
proof fn lemma_to_directory_prefix(s: Seq<char>)
    ensures
        to_directory_spec(s).len() <= s.len(),
        to_directory_spec(s) == s.take(to_directory_spec(s).len() as int),
{
    lemma_last_index(s, '/');
    assert(s.take(s.len() as int) == s);
    assert(s.take(0) == Seq::<char>::empty());
}

/// Collapsing at the first glob metacharacter keeps a prefix free of them.
proof fn lemma_collapse_glob_plain(s: Seq<char>)
    ensures
        collapse_glob_spec(s).len() <= s.len(),
        collapse_glob_spec(s) == s.take(collapse_glob_spec(s).len() as int),
        forall|i: int|
            0 <= i < collapse_glob_spec(s).len() ==> !is_glob_meta(#[trigger] collapse_glob_spec(s)[i]),
{
    lemma_first_meta(s);
    let c = collapse_glob_spec(s);
    match first_meta(s) {
        None => {
            assert(s.take(s.len() as int) == s);
        },
        Some(m) => {
            let before = s.take(m);
            lemma_last_index(before, '/');
            match last_index(before, '/') {
                Some(j) => {
                    assert(before.take(j) == s.take(j));
                },
                None => {
                    assert(s.take(0) == Seq::<char>::empty());
                },
            }
            assert forall|i: int| 0 <= i < c.len() implies !is_glob_meta(#[trigger] c[i]) by {
                assert(c[i] == s[i]);
            }
        },
    }
}

/// A normalized path is a plain folder template: it is neither empty nor
/// `/`, has no trailing `/`, no backslash, no glob metacharacter and no
/// `<...>` form, is not a bare root, and does not lie in GOG Galaxy's storage.
#[verifier::rlimit(40)]
pub proof fn law_a_normalized_path_is_a_plain_folder(path: Seq<char>)
    ensures
        match normalize_spec(path) {
            Ok(d) => {
                &&& d.len() > 0
                &&& d != "/"@
                &&& d.last() != '/'
                &&& !d.contains('\\')
                &&& forall|i: int| 0 <= i < d.len() ==> !is_glob_meta(#[trigger] d[i])
                &&& forall|i: int, j: int|
                    #![trigger d[i], d[j]]
                    0 <= i < j < d.len() && d[i] == '<' ==> d[j] != '>'
                &&& !is_bare_root_spec(d)
                &&& !contains_seq(ascii_lower_seq(d), "gog.com/galaxy"@)
            },
            Err(_) => true,
        },
{
    match rooted(trim_end_separators(path)) {
        Err(_) => {},
        Ok(raw) => {
            let replaced = slashes(raw);
            if !(contains_seq(replaced, "<base>"@) || contains_seq(replaced, "<root>"@))
                && unknown_placeholder_spec(replaced) is None {
                let c = collapse_glob_spec(replaced);
                let t = to_directory_spec(c);
                let d = trim_end_slash(t);
                lemma_collapse_glob_plain(replaced);
                lemma_to_directory_prefix(c);
                lemma_trim_end_slash(t);
                assert forall|i: int| 0 <= i < d.len() implies d[i] == replaced[i] && d[i] == c[i] by {
                    assert(d[i] == t[i]);
                    assert(t[i] == c[i]);
                }
                assert forall|i: int| 0 <= i < d.len() implies d[i] != '\\' by {
                    assert(replaced[i] == backslash_to_slash(raw[i]));
                }
                assert forall|i: int| 0 <= i < d.len() implies !is_glob_meta(#[trigger] d[i]) by {
                    assert(d[i] == c[i]);
                }
                lemma_first_index(replaced, '<');
                assert forall|i: int, j: int|
                    #![trigger d[i], d[j]]
                    0 <= i < j < d.len() && d[i] == '<' implies d[j] != '>' by {
                    assert(replaced[i] == '<');
                    match first_index(replaced, '<') {
                        Some(start) => {
                            if i < start {
                                assert(replaced.take(start)[i] == '<');
                            }
                            let tail = replaced.skip(start);
                            lemma_first_index(tail, '>');
                            assert(tail[j - start] == replaced[j]);
                        },
                        None => {},
                    }
                }
            }
        },
    }
}


// ---- detection ids ---------------------------------------------------------

/// Strictly increasing.
pub open spec fn increasing(s: Seq<u64>) -> bool {
    forall|i: int, j: int| 0 <= i < j < s.len() ==> #[trigger] s[i] < #[trigger] s[j]
}

/// `ids` lists the distinct values of `src` in increasing order, and is
/// absent exactly when `src` is empty.
pub open spec fn id_list_of(src: Seq<u64>, ids: Option<IdList>) -> bool {
    match ids {
        None => src.len() == 0,
        Some(l) => src.len() > 0 && increasing(l.0@) && forall|x: u64|
            #[trigger] l.0@.contains(x) <==> src.contains(x),
    }
}

pub open spec fn steam_sources(e: Entry) -> Seq<u64> {
    (match e.steam {
        Some(f) => seq![f.id],
        None => Seq::empty(),
    }) + (match e.id {
        Some(x) => x.steam_extra@,
        None => Seq::empty(),
    })
}

pub open spec fn gog_sources(e: Entry) -> Seq<u64> {
    (match e.gog {
        Some(f) => seq![f.id],
        None => Seq::empty(),
    }) + (match e.id {
        Some(x) => x.gog_extra@,
        None => Seq::empty(),
    })
}

fn sorted_ids(src: &Vec<u64>) -> (r: Vec<u64>)
    ensures
        increasing(r@),
        forall|x: u64| #[trigger] r@.contains(x) <==> src@.contains(x),
        r@.len() == 0 <==> src@.len() == 0,
{
    let mut out: Vec<u64> = Vec::new();
    let mut i: usize = 0;
    while i < src.len()
        invariant
            i <= src.len(),
            increasing(out@),
            forall|x: u64| #[trigger] out@.contains(x) <==> src@.take(i as int).contains(x),
            out@.len() == 0 <==> i == 0,
        decreases src.len() - i,
    {
        let x = src[i];
        assert(src@.take(i + 1) == src@.take(i as int).push(x));
        assert forall|y: u64| #[trigger] src@.take(i + 1).contains(y) <==> src@.take(i as int).contains(y) || y == x by {
            let t = src@.take(i + 1);
            if t.contains(y) {
                let k = choose|k: int| 0 <= k < t.len() && t[k] == y;
                if k < i {
                    assert(src@.take(i as int)[k] == y);
                }
            }
            if src@.take(i as int).contains(y) {
                let k = choose|k: int| 0 <= k < i && src@.take(i as int)[k] == y;
                assert(t[k] == y);
            }
            if y == x {
                assert(t[i as int] == x);
            }
        }
        let mut p: usize = 0;
        while p < out.len() && out[p] < x
            invariant
                p <= out.len(),
                forall|k: int| 0 <= k < p ==> #[trigger] out@[k] < x,
            decreases out.len() - p,
        {
            p = p + 1;
        }
        if p < out.len() && out[p] == x {
            assert(out@.contains(x));
        } else {
            let ghost before = out@;
            out.insert(p, x);
            assert(out@ == before.take(p as int).push(x) + before.skip(p as int));
            assert forall|a: int, b: int| 0 <= a < b < out@.len() implies #[trigger] out@[a]
                < #[trigger] out@[b] by {
                if b < p {
                    assert(out@[a] == before[a] && out@[b] == before[b]);
                } else if b == p {
                    assert(out@[a] == before[a]);
                } else if a < p {
                    assert(out@[a] == before[a] && out@[b] == before[b - 1]);
                    assert(before[b - 1] >= x);
                    if before[b - 1] == x {
                        assert(before[p as int] <= before[b - 1]);
                    }
                } else if a == p {
                    assert(out@[b] == before[b - 1]);
                    assert(before[p as int] >= x);
                    if b - 1 > p {
                        assert(before[p as int] < before[b - 1]);
                    }
                } else {
                    assert(out@[a] == before[a - 1] && out@[b] == before[b - 1]);
                }
            }
            assert forall|y: u64| #[trigger] out@.contains(y) <==> before.contains(y) || y == x by {
                if out@.contains(y) {
                    let k = choose|k: int| 0 <= k < out@.len() && out@[k] == y;
                    if k < p {
                        assert(before[k] == y);
                    } else if k > p {
                        assert(before[k - 1] == y);
                    }
                }
                if before.contains(y) {
                    let k = choose|k: int| 0 <= k < before.len() && before[k] == y;
                    if k < p {
                        assert(out@[k] == y);
                    } else {
                        assert(out@[k + 1] == y);
                    }
                }
                if y == x {
                    assert(out@[p as int] == x);
                }
            }
        }
        i = i + 1;
    }
    assert(src@.take(src.len() as int) == src@);
    out
}

fn id_list(src: &Vec<u64>) -> (r: Option<IdList>)
    ensures
        id_list_of(src@, r),
{
    let ids = sorted_ids(src);
    if ids.len() == 0 {
        None
    } else {
        Some(IdList(ids))
    }
}

/// The store ids an entry names, its extras included, sorted and without
/// repeats.
pub fn detect(entry: &Entry) -> (r: Detect)
    ensures
        id_list_of(steam_sources(*entry), r.steam),
        id_list_of(gog_sources(*entry), r.gog),
        id_list_spec(steam_sources(*entry)) == match r.steam {
            Some(l) => Some(l.0@),
            None => None,
        },
        id_list_spec(gog_sources(*entry)) == match r.gog {
            Some(l) => Some(l.0@),
            None => None,
        },
{
    let mut steam: Vec<u64> = Vec::new();
    let mut gog: Vec<u64> = Vec::new();
    if let Some(field) = &entry.steam {
        steam.push(field.id);
    }
    if let Some(field) = &entry.gog {
        gog.push(field.id);
    }
    if let Some(extra) = &entry.id {
        let mut i: usize = 0;
        let ghost s0 = steam@;
        while i < extra.steam_extra.len()
            invariant
                i <= extra.steam_extra.len(),
                steam@ == s0 + extra.steam_extra@.take(i as int),
            decreases extra.steam_extra.len() - i,
        {
            steam.push(extra.steam_extra[i]);
            i = i + 1;
            assert(steam@ == s0 + extra.steam_extra@.take(i as int));
        }
        assert(extra.steam_extra@.take(i as int) == extra.steam_extra@);
        let mut j: usize = 0;
        let ghost g0 = gog@;
        while j < extra.gog_extra.len()
            invariant
                j <= extra.gog_extra.len(),
                gog@ == g0 + extra.gog_extra@.take(j as int),
            decreases extra.gog_extra.len() - j,
        {
            gog.push(extra.gog_extra[j]);
            j = j + 1;
            assert(gog@ == g0 + extra.gog_extra@.take(j as int));
        }
        assert(extra.gog_extra@.take(j as int) == extra.gog_extra@);
    }
    assert(steam@ == steam_sources(*entry));
    assert(gog@ == gog_sources(*entry));
    let r = Detect { steam: id_list(&steam), gog: id_list(&gog) };
    proof {
        lemma_id_list_exact(steam@, r.steam);
        lemma_id_list_exact(gog@, r.gog);
    }
    r
}

// ---- executables -----------------------------------------------------------

/// `parse_os`: the manifest's OS names.
pub open spec fn parse_os_spec(os: Seq<char>) -> Option<Platform> {
    parse_platform_spec(os)
}

fn parse_os(os: &str) -> (r: Option<Platform>)
    ensures
        r == parse_os_spec(os@),
{
    let v = chars_of(os);
    if eq_lit(&v, "windows") {
        Some(Platform::Windows)
    } else if eq_lit(&v, "mac") || eq_lit(&v, "macos") {
        Some(Platform::Macos)
    } else if eq_lit(&v, "linux") {
        Some(Platform::Linux)
    } else {
        None
    }
}

/// Whether a launch item's conditions admit the platform: no conditions
/// admit all, a condition without an OS admits all.
pub open spec fn launch_includes(conds: Seq<Cond>, p: Platform) -> bool {
    conds.len() == 0 || exists|k: int|
        0 <= k < conds.len() && match #[trigger] conds[k].os {
            None => true,
            Some(os) => parse_os_spec(os@) == Some(p),
        }
}

/// The platforms a launch item's conditions name, in platform order.
pub open spec fn launch_platforms_spec(conds: Seq<Cond>) -> Seq<Platform> {
    (if launch_includes(conds, Platform::Windows) {
        seq![Platform::Windows]
    } else {
        Seq::empty()
    }) + (if launch_includes(conds, Platform::Macos) {
        seq![Platform::Macos]
    } else {
        Seq::empty()
    }) + (if launch_includes(conds, Platform::Linux) {
        seq![Platform::Linux]
    } else {
        Seq::empty()
    })
}

fn launch_flags(conds: &[Cond]) -> (r: (bool, bool, bool))
    ensures
        r.0 == launch_includes(conds@, Platform::Windows),
        r.1 == launch_includes(conds@, Platform::Macos),
        r.2 == launch_includes(conds@, Platform::Linux),
{
    if conds.len() == 0 {
        return (true, true, true);
    }
    let mut w = false;
    let mut m = false;
    let mut l = false;
    let mut i: usize = 0;
    while i < conds.len()
        invariant
            i <= conds.len(),
            conds.len() > 0,
            w == exists|k: int|
                0 <= k < i && match #[trigger] conds@[k].os {
                    None => true,
                    Some(os) => parse_os_spec(os@) == Some(Platform::Windows),
                },
            m == exists|k: int|
                0 <= k < i && match #[trigger] conds@[k].os {
                    None => true,
                    Some(os) => parse_os_spec(os@) == Some(Platform::Macos),
                },
            l == exists|k: int|
                0 <= k < i && match #[trigger] conds@[k].os {
                    None => true,
                    Some(os) => parse_os_spec(os@) == Some(Platform::Linux),
                },
        decreases conds.len() - i,
    {
        match &conds[i].os {
            None => {
                w = true;
                m = true;
                l = true;
            },
            Some(os) => match parse_os(os.as_str()) {
                Some(Platform::Windows) => {
                    w = true;
                },
                Some(Platform::Macos) => {
                    m = true;
                },
                Some(Platform::Linux) => {
                    l = true;
                },
                None => {},
            },
        }
        i = i + 1;
    }
    (w, m, l)
}

/// The platforms a launch item's conditions name, in platform order.
pub fn launch_platforms(conds: &[Cond]) -> (r: Vec<Platform>)
    ensures
        r@ == launch_platforms_spec(conds@),
{
    let (w, m, l) = launch_flags(conds);
    let mut r: Vec<Platform> = Vec::new();
    if w {
        r.push(Platform::Windows);
    }
    if m {
        r.push(Platform::Macos);
    }
    if l {
        r.push(Platform::Linux);
    }
    assert(r@ =~= launch_platforms_spec(conds@));
    r
}

/// The install-relative part of a launch path: what follows `<base>/`.
pub open spec fn launch_relative(path: Seq<char>) -> Option<Seq<char>> {
    if starts_with(path, "<base>/"@) {
        Some(path.skip("<base>/"@.len() as int))
    } else {
        None
    }
}

/// Some launch entry runs `rel` on the platform.
pub open spec fn launches(launch: Seq<(String, Vec<LaunchItem>)>, p: Platform, rel: Seq<char>) -> bool {
    rel.len() > 0 && exists|i: int, j: int|
        0 <= i < launch.len() && launch_relative(#[trigger] launch[i].0@) == Some(rel) && 0 <= j
            < launch[i].1@.len() && launch_includes(conditions(#[trigger] launch[i].1@[j].when), p)
}

/// Strictly increasing texts.
pub open spec fn increasing_texts(s: Seq<Seq<char>>) -> bool {
    forall|i: int, j: int| 0 <= i < j < s.len() ==> text_order(#[trigger] s[i], #[trigger] s[j]) < 0
}

/// The texts of a set in increasing order.
pub open spec fn ordered_texts(set: Set<Seq<char>>) -> Seq<Seq<char>> {
    choose|s: Seq<Seq<char>>| #[trigger] increasing_texts(s) && forall|x: Seq<char>| #[trigger] s.contains(x) <==> set.contains(x)
}

/// An increasing list of texts is the set's ordered list.
pub proof fn lemma_ordered_texts(s: Seq<Seq<char>>, set: Set<Seq<char>>)
    requires
        increasing_texts(s),
        forall|x: Seq<char>| #[trigger] s.contains(x) <==> set.contains(x),
    ensures
        s == ordered_texts(set),
{
    let c = ordered_texts(set);
    assert(increasing_texts(c) && forall|x: Seq<char>| #[trigger] c.contains(x) <==> set.contains(x));
    let lt = |a: Seq<char>, b: Seq<char>| text_order(a, b) < 0;
    assert forall|a: Seq<char>, b: Seq<char>| #[trigger] lt(a, b) implies !lt(b, a) by {
        crate::paths::lemma_text_order(a, b);
    }
    assert forall|a: Seq<char>, b: Seq<char>| s.contains(a) && s.contains(b) && a != b implies #[trigger] lt(a, b) || lt(b, a) by {
        crate::paths::lemma_text_order(a, b);
    }
    assert(crate::paths::sorted_by(s, lt));
    assert(crate::paths::sorted_by(c, lt));
    crate::paths::lemma_sorted_unique(s, c, lt);
}

/// The numbers of a set in increasing order.
pub open spec fn ordered_ids(set: Set<u64>) -> Seq<u64> {
    choose|s: Seq<u64>| #[trigger] increasing(s) && forall|x: u64| #[trigger] s.contains(x) <==> set.contains(x)
}

/// An increasing list of numbers is the set's ordered list.
pub proof fn lemma_ordered_ids(s: Seq<u64>, set: Set<u64>)
    requires
        increasing(s),
        forall|x: u64| #[trigger] s.contains(x) <==> set.contains(x),
    ensures
        s == ordered_ids(set),
{
    let c = ordered_ids(set);
    assert(increasing(c) && forall|x: u64| #[trigger] c.contains(x) <==> set.contains(x));
    let lt = |a: u64, b: u64| a < b;
    assert(crate::paths::sorted_by(s, lt));
    assert(crate::paths::sorted_by(c, lt));
    crate::paths::lemma_sorted_unique(s, c, lt);
}

/// The detection ids of a source list: absent when there are none, else
/// the distinct ids in increasing order.
pub open spec fn id_list_spec(src: Seq<u64>) -> Option<Seq<u64>> {
    if src.len() == 0 {
        None
    } else {
        Some(ordered_ids(src.to_set()))
    }
}

/// What [`id_list_of`] relates is exactly [`id_list_spec`].
pub proof fn lemma_id_list_exact(src: Seq<u64>, ids: Option<IdList>)
    requires
        id_list_of(src, ids),
    ensures
        match ids {
            Some(l) => id_list_spec(src) == Some(l.0@),
            None => id_list_spec(src) is None,
        },
{
    if let Some(l) = ids {
        assert forall|x: u64| #[trigger] l.0@.contains(x) <==> src.to_set().contains(x) by {
        }
        lemma_ordered_ids(l.0@, src.to_set());
    }
}

/// The launch entries, as [`executables`] buckets them per platform.
pub open spec fn launch_of(e: Entry) -> Seq<(String, Vec<LaunchItem>)> {
    match e.launch {
        Some(l) => l@,
        None => Seq::empty(),
    }
}

pub open spec fn platform_rank_spec(p: Platform) -> int {
    match p {
        Platform::Windows => 0,
        Platform::Macos => 1,
        Platform::Linux => 2,
    }
}

/// `files` lists, per platform in platform order, the install-relative
/// executables the launch entries run on it, sorted and distinct; platforms
/// with none are absent.
pub open spec fn buckets_of(files: Seq<(Platform, Vec<String>)>, launch: Seq<(String, Vec<LaunchItem>)>) -> bool {
    &&& forall|a: int, b: int|
        0 <= a < b < files.len() ==> platform_rank_spec(#[trigger] files[a].0) < platform_rank_spec(
            #[trigger] files[b].0,
        )
    &&& forall|k: int|
        0 <= k < files.len() ==> increasing_texts(strs(#[trigger] files[k].1@)) && strs(
            files[k].1@,
        ).len() > 0
    &&& forall|k: int, rel: Seq<char>|
        0 <= k < files.len() ==> (#[trigger] strs(files[k].1@).contains(rel) <==> launches(
            launch,
            files[k].0,
            rel,
        ))
    &&& forall|p: Platform, rel: Seq<char>|
        #[trigger] launches(launch, p, rel) ==> exists|k: int| 0 <= k < files.len() && #[trigger] files[k].0 == p
}

/// The warning for each launch path outside the install folder, in order.
pub open spec fn launch_warnings(launch: Seq<(String, Vec<LaunchItem>)>) -> Seq<Seq<char>>
    decreases launch.len(),
{
    if launch.len() == 0 {
        Seq::empty()
    } else {
        let prev = launch_warnings(launch.drop_last());
        if launch_relative(launch.last().0@) is None {
            prev.push("launch path "@ + debug_str(launch.last().0@) + " does not start with <base>/; ignored"@)
        } else {
            prev
        }
    }
}

/// Inserts `x` into a strictly increasing list of texts unless present.
pub(crate) fn insert_text(set: &mut Vec<String>, x: &[char])
    requires
        increasing_texts(strs(old(set)@)),
    ensures
        increasing_texts(strs(final(set)@)),
        forall|y: Seq<char>| #[trigger] strs(final(set)@).contains(y) <==> strs(old(set)@).contains(y) || y == x@,
{
    let ghost before = strs(set@);
    let mut p: usize = 0;
    while p < set.len() && text_compare(&chars_of(set[p].as_str()), x) < 0
        invariant
            p <= set.len(),
            set@ == old(set)@,
            before == strs(set@),
            forall|k: int| 0 <= k < p ==> text_order(#[trigger] before[k], x@) < 0,
        decreases set.len() - p,
    {
        p = p + 1;
    }
    if p < set.len() && text_compare(&chars_of(set[p].as_str()), x) == 0 {
        proof {
            lemma_text_order(before[p as int], x@);
            assert(before[p as int] == x@);
            assert(before.contains(x@));
        }
        return;
    }
    proof {
        if p < set.len() {
            lemma_text_order(before[p as int], x@);
            assert(text_order(x@, before[p as int]) < 0);
        }
    }
    set.insert(p, string_of(x));
    let ghost after = strs(set@);
    assert(after =~= before.take(p as int).push(x@) + before.skip(p as int));
    assert forall|a: int, b: int| 0 <= a < b < after.len() implies text_order(#[trigger] after[a], #[trigger] after[b]) < 0 by {
        if b < p {
            assert(after[a] == before[a] && after[b] == before[b]);
        } else if b == p {
            assert(after[a] == before[a]);
        } else if a < p {
            assert(after[a] == before[a] && after[b] == before[b - 1]);
            if b - 1 > p {
                assert(text_order(before[p as int], before[b - 1]) < 0);
                lemma_text_order_trans(x@, before[p as int], before[b - 1]);
            }
            lemma_text_order_trans(before[a], x@, before[b - 1]);
        } else if a == p {
            assert(after[b] == before[b - 1]);
            if b - 1 > p {
                assert(text_order(before[p as int], before[b - 1]) < 0);
                lemma_text_order_trans(x@, before[p as int], before[b - 1]);
            }
        } else {
            assert(after[a] == before[a - 1] && after[b] == before[b - 1]);
        }
    }
    assert forall|y: Seq<char>| #[trigger] after.contains(y) <==> before.contains(y) || y == x@ by {
        if after.contains(y) {
            let k = choose|k: int| 0 <= k < after.len() && after[k] == y;
            if k < p {
                assert(before[k] == y);
            } else if k > p {
                assert(before[k - 1] == y);
            }
        }
        if before.contains(y) {
            let k = choose|k: int| 0 <= k < before.len() && before[k] == y;
            if k < p {
                assert(after[k] == y);
            } else {
                assert(after[k + 1] == y);
            }
        }
        if y == x@ {
            assert(after[p as int] == x@);
        }
    }
}


/// `launches` over the first `i` entries and the first `j` items of entry
/// `i`.
pub open spec fn launches_upto(
    launch: Seq<(String, Vec<LaunchItem>)>,
    i: int,
    j: int,
    p: Platform,
    rel: Seq<char>,
) -> bool {
    launches(launch.take(i), p, rel) || (rel.len() > 0 && launch_relative(launch[i].0@) == Some(rel)
        && exists|k: int|
        0 <= k < j && launch_includes(conditions(#[trigger] launch[i].1@[k].when), p))
}

proof fn lemma_launches_step(launch: Seq<(String, Vec<LaunchItem>)>, i: int, p: Platform, rel: Seq<char>)
    requires
        0 <= i < launch.len(),
    ensures
        launches(launch.take(i + 1), p, rel) == launches_upto(launch, i, launch[i].1@.len() as int, p, rel),
{
    let t = launch.take(i + 1);
    if launches(t, p, rel) {
        let (a, b) = choose|a: int, b: int|
            0 <= a < t.len() && launch_relative(#[trigger] t[a].0@) == Some(rel) && 0 <= b
                < t[a].1@.len() && launch_includes(conditions(#[trigger] t[a].1@[b].when), p);
        if a < i {
            assert(launch.take(i)[a] == t[a]);
            assert(launches(launch.take(i), p, rel));
        } else {
            assert(t[a] == launch[i]);
        }
    }
    if launches(launch.take(i), p, rel) {
        let (a, b) = choose|a: int, b: int|
            0 <= a < launch.take(i).len() && launch_relative(#[trigger] launch.take(i)[a].0@) == Some(rel) && 0 <= b
                < launch.take(i)[a].1@.len() && launch_includes(conditions(#[trigger] launch.take(i)[a].1@[b].when), p);
        assert(t[a] == launch.take(i)[a]);
    }
    if rel.len() > 0 && launch_relative(launch[i].0@) == Some(rel) && exists|k: int|
        0 <= k < launch[i].1@.len() && launch_includes(conditions(#[trigger] launch[i].1@[k].when), p) {
        let k = choose|k: int| 0 <= k < launch[i].1@.len() && launch_includes(conditions(#[trigger] launch[i].1@[k].when), p);
        assert(t[i] == launch[i]);
        assert(launch_relative(t[i].0@) == Some(rel) && launch_includes(conditions(t[i].1@[k].when), p));
    }
}

/// `launch` → `executables`, bucketed per OS, with a warning for each launch
/// path outside the install folder. `bit` and `store` are ignored.
pub fn executables(entry: &Entry) -> (r: (PlatformFiles, Vec<String>))
    ensures
        buckets_of(r.0@, launch_of(*entry)),
        strs(r.1@) == launch_warnings(launch_of(*entry)),
{
    let empty: Vec<(String, Vec<LaunchItem>)> = Vec::new();
    let launch = match &entry.launch {
        Some(l) => l,
        None => &empty,
    };
    let ghost ln = launch@;
    assert(ln == launch_of(*entry));
    let mut win: Vec<String> = Vec::new();
    let mut mac: Vec<String> = Vec::new();
    let mut lin: Vec<String> = Vec::new();
    let mut warnings: Vec<String> = Vec::new();
    let base = chars_of("<base>/");
    let mut i: usize = 0;
    while i < launch.len()
        invariant
            i <= launch.len(),
            ln == launch@,
            base@ == "<base>/"@,
            increasing_texts(strs(win@)),
            increasing_texts(strs(mac@)),
            increasing_texts(strs(lin@)),
            forall|rel: Seq<char>| #[trigger] strs(win@).contains(rel) <==> launches(ln.take(i as int), Platform::Windows, rel),
            forall|rel: Seq<char>| #[trigger] strs(mac@).contains(rel) <==> launches(ln.take(i as int), Platform::Macos, rel),
            forall|rel: Seq<char>| #[trigger] strs(lin@).contains(rel) <==> launches(ln.take(i as int), Platform::Linux, rel),
            strs(warnings@) == launch_warnings(ln.take(i as int)),
        decreases launch.len() - i,
    {
        let path = chars_of(launch[i].0.as_str());
        let ghost t = ln.take(i + 1);
        assert(t.drop_last() == ln.take(i as int));
        assert(t.last() == ln[i as int]);
        proof {
            lemma_launches_step(ln, i as int, Platform::Windows, Seq::empty());
        }
        if !starts_with_chars(&path, &base) {
            let mut m = chars_of("launch path ");
            let q = debug_quoted_chars(&path);
            push_all(&mut m, &q);
            push_str(&mut m, " does not start with <base>/; ignored");
            let ghost before = warnings@;
            warnings.push(string_of(&m));
            assert(strs(warnings@) =~= strs(before).push(m@));
            proof {
                assert forall|p: Platform, rel: Seq<char>| launches(t, p, rel) == launches(ln.take(i as int), p, rel) by {
                    lemma_launches_step(ln, i as int, p, rel);
                }
            }
        } else {
            let rel = slice_chars(&path, base.len(), path.len());
            assert(launch_relative(ln[i as int].0@) == Some(rel@));
            if rel.len() == 0 {
                proof {
                    assert forall|p: Platform, r: Seq<char>| launches(t, p, r) == launches(ln.take(i as int), p, r) by {
                        lemma_launches_step(ln, i as int, p, r);
                    }
                }
            } else {
                let items = &launch[i].1;
                let mut j: usize = 0;
                while j < items.len()
                    invariant
                        i < launch.len(),
                        ln == launch@,
                        items@ == ln[i as int].1@,
                        j <= items.len(),
                        rel@.len() > 0,
                        launch_relative(ln[i as int].0@) == Some(rel@),
                        increasing_texts(strs(win@)),
                        increasing_texts(strs(mac@)),
                        increasing_texts(strs(lin@)),
                        forall|r: Seq<char>| #[trigger] strs(win@).contains(r) <==> launches_upto(ln, i as int, j as int, Platform::Windows, r),
                        forall|r: Seq<char>| #[trigger] strs(mac@).contains(r) <==> launches_upto(ln, i as int, j as int, Platform::Macos, r),
                        forall|r: Seq<char>| #[trigger] strs(lin@).contains(r) <==> launches_upto(ln, i as int, j as int, Platform::Linux, r),
                    decreases items.len() - j,
                {
                    let conds = Whens::slice_or_default(&items[j].when);
                    let (w, m, l) = launch_flags(conds);
                    if w {
                        insert_text(&mut win, &rel);
                    }
                    if m {
                        insert_text(&mut mac, &rel);
                    }
                    if l {
                        insert_text(&mut lin, &rel);
                    }
                    proof {
                        assert forall|p: Platform, r: Seq<char>| launches_upto(ln, i as int, j + 1, p, r) == (launches_upto(ln, i as int, j as int, p, r) || (r == rel@ && launch_includes(conditions(items@[j as int].when), p))) by {
                            if launches_upto(ln, i as int, j + 1, p, r) && !launches(ln.take(i as int), p, r) {
                                let k = choose|k: int| 0 <= k < j + 1 && launch_includes(conditions(#[trigger] ln[i as int].1@[k].when), p);
                                if k < j {
                                    assert(launches_upto(ln, i as int, j as int, p, r));
                                }
                            }
                            if launches_upto(ln, i as int, j as int, p, r) && !launches(ln.take(i as int), p, r) {
                                let k = choose|k: int| 0 <= k < j && launch_includes(conditions(#[trigger] ln[i as int].1@[k].when), p);
                                assert(0 <= k < j + 1 && launch_includes(conditions(ln[i as int].1@[k].when), p));
                            }
                            if r == rel@ && launch_includes(conditions(items@[j as int].when), p) {
                                assert(0 <= j < j + 1 && launch_includes(conditions(ln[i as int].1@[j as int].when), p));
                            }
                        }
                    }
                    j = j + 1;
                }
                proof {
                    assert forall|p: Platform, r: Seq<char>| launches(t, p, r) == launches_upto(ln, i as int, items@.len() as int, p, r) by {
                        lemma_launches_step(ln, i as int, p, r);
                    }
                }
            }
        }
        i = i + 1;
    }
    assert(ln.take(launch.len() as int) == ln);
    let ghost wn = win@.len() > 0;
    let ghost mn = mac@.len() > 0;
    let ghost lnn = lin@.len() > 0;
    let ghost kw: int = 0;
    let ghost km: int = if wn { 1 } else { 0 };
    let ghost kl: int = km + if mn { 1int } else { 0int };
    let ghost wv = win@;
    let ghost mv = mac@;
    let ghost lv = lin@;
    let mut files: Vec<(Platform, Vec<String>)> = Vec::new();
    if win.len() > 0 {
        files.push((Platform::Windows, win));
    }
    assert(wn ==> (files@[kw].0 == Platform::Windows && files@[kw].1@ == wv));
    assert(files@.len() == km);
    if mac.len() > 0 {
        files.push((Platform::Macos, mac));
    }
    assert(wn ==> (files@[kw].0 == Platform::Windows && files@[kw].1@ == wv));
    assert(mn ==> (files@[km].0 == Platform::Macos && files@[km].1@ == mv));
    assert(files@.len() == kl);
    if lin.len() > 0 {
        files.push((Platform::Linux, lin));
    }
    assert(wn ==> (files@[kw].0 == Platform::Windows && files@[kw].1@ == wv));
    assert(mn ==> (files@[km].0 == Platform::Macos && files@[km].1@ == mv));
    assert(lnn ==> (files@[kl].0 == Platform::Linux && files@[kl].1@ == lv));
    proof {
        assert forall|p: Platform, rel: Seq<char>| #[trigger] launches(ln, p, rel) implies exists|k: int| 0 <= k < files@.len() && #[trigger] files@[k].0 == p by {
            match p {
                Platform::Windows => {
                    assert(strs(wv).contains(rel));
                    assert(files@[kw].0 == p);
                },
                Platform::Macos => {
                    assert(strs(mv).contains(rel));
                    assert(files@[km].0 == p);
                },
                Platform::Linux => {
                    assert(strs(lv).contains(rel));
                    assert(files@[kl].0 == p);
                },
            }
        }
    }
    (files, warnings)
}


// ---- save candidates -------------------------------------------------------

/// A save candidate as the rules see it: its condition and its directory.
pub type CandView = (Option<When>, Seq<char>);

pub open spec fn cview(c: SaveCandidate) -> CandView {
    (c.when, c.dir@)
}

pub open spec fn cviews(s: Seq<SaveCandidate>) -> Seq<CandView> {
    s.map_values(|c: SaveCandidate| cview(c))
}

/// The stores a save condition may name.
pub open spec fn store_of(s: Seq<char>) -> Option<Store> {
    if s == "steam"@ {
        Some(Store::Steam)
    } else if s == "gog"@ {
        Some(Store::Gog)
    } else if s == "epic"@ {
        Some(Store::Epic)
    } else if s == "standalone"@ {
        Some(Store::Standalone)
    } else {
        None
    }
}

/// The condition of a candidate: absent when it names neither OS nor store.
pub open spec fn when_of(os: Option<Platform>, store: Option<Store>) -> Option<When> {
    if os is Some || store is Some {
        Some(When { os, store })
    } else {
        None
    }
}

/// What one condition of a file gives: a candidate, or the reason it is
/// dropped.
pub open spec fn cond_outcome(path: Seq<char>, c: Cond) -> Result<CandView, DropReason> {
    let store: Result<Option<Store>, DropReason> = match c.store {
        None => Ok(None),
        Some(s) => if s@ == "microsoft"@ {
            Err(DropReason::MicrosoftOnly)
        } else {
            match store_of(s@) {
                Some(st) => Ok(Some(st)),
                None => Err(DropReason::UnsupportedStore),
            }
        },
    };
    match store {
        Err(e) => Err(e),
        Ok(store) => {
            let os: Result<Option<Platform>, DropReason> = match c.os {
                None => Ok(None),
                Some(o) => match parse_os_spec(o@) {
                    Some(p) => Ok(Some(p)),
                    None => Err(DropReason::UnsupportedPlaceholder),
                },
            };
            match os {
                Err(e) => Err(e),
                Ok(os) => match normalize_spec(path) {
                    Ok(dir) => Ok((when_of(os, store), dir)),
                    Err(e) => Err(e),
                },
            }
        },
    }
}

/// The candidates and drops of a file's conditions, in order.
pub open spec fn conds_outcome(path: Seq<char>, conds: Seq<Cond>) -> (Seq<CandView>, Seq<DropReason>)
    decreases conds.len(),
{
    if conds.len() == 0 {
        (Seq::empty(), Seq::empty())
    } else {
        let (c, d) = conds_outcome(path, conds.drop_last());
        match cond_outcome(path, conds.last()) {
            Ok(v) => (c.push(v), d),
            Err(e) => (c, d.push(e)),
        }
    }
}

pub open spec fn is_microsoft(c: Cond) -> bool {
    c.store matches Some(s) && s@ == "microsoft"@
}

/// The condition list a file is read with: its own, or one empty condition.
pub open spec fn file_conditions(f: FileEntry) -> Seq<Cond> {
    if conditions(f.when).len() == 0 {
        seq![Cond { os: None, store: None, bit: None }]
    } else {
        conditions(f.when)
    }
}

/// What one manifest file gives: untagged or save-tagged files become a
/// candidate per condition; config-only and Microsoft-only ones are dropped.
pub open spec fn file_outcome(path: Seq<char>, f: FileEntry) -> (Seq<CandView>, Seq<DropReason>) {
    if f.tags@.len() > 0 && !(exists|k: int| 0 <= k < f.tags@.len() && #[trigger] f.tags@[k]@ == "save"@) {
        (Seq::empty(), seq![DropReason::ConfigOnly])
    } else if forall|k: int| 0 <= k < file_conditions(f).len() ==> #[trigger] is_microsoft(file_conditions(f)[k]) {
        (Seq::empty(), seq![DropReason::MicrosoftOnly])
    } else {
        conds_outcome(path, file_conditions(f))
    }
}

/// The candidates and drops of every file, in order.
pub open spec fn files_outcome(files: Seq<(String, FileEntry)>) -> (Seq<CandView>, Seq<DropReason>)
    decreases files.len(),
{
    if files.len() == 0 {
        (Seq::empty(), Seq::empty())
    } else {
        let (c, d) = files_outcome(files.drop_last());
        let (c2, d2) = file_outcome(files.last().0@, files.last().1);
        (c + c2, d + d2)
    }
}

/// Two conditions never contradict each other: where both name an OS (a
/// store) it is the same one.
pub open spec fn compatible_spec(a: Option<When>, b: Option<When>) -> bool {
    let a = match a {
        Some(w) => w,
        None => When { os: None, store: None },
    };
    let b = match b {
        Some(w) => w,
        None => When { os: None, store: None },
    };
    (a.os is None || b.os is None || a.os == b.os) && (a.store is None || b.store is None || a.store
        == b.store)
}

/// Two compatible conditions joined: each field from the first that names
/// it.
pub open spec fn combine_spec(a: Option<When>, b: Option<When>) -> Option<When> {
    let a = match a {
        Some(w) => w,
        None => When { os: None, store: None },
    };
    let b = match b {
        Some(w) => w,
        None => When { os: None, store: None },
    };
    when_of(
        if a.os is Some {
            a.os
        } else {
            b.os
        },
        if a.store is Some {
            a.store
        } else {
            b.store
        },
    )
}

pub fn compatible(a: Option<When>, b: Option<When>) -> (r: bool)
    ensures
        r == compatible_spec(a, b),
{
    let a = match a {
        Some(w) => w,
        None => When { os: None, store: None },
    };
    let b = match b {
        Some(w) => w,
        None => When { os: None, store: None },
    };
    let os_ok = match (a.os, b.os) {
        (Some(x), Some(y)) => x == y,
        _ => true,
    };
    let store_ok = match (a.store, b.store) {
        (Some(x), Some(y)) => x == y,
        _ => true,
    };
    os_ok && store_ok
}

pub fn combine(a: Option<When>, b: Option<When>) -> (r: Option<When>)
    ensures
        r == combine_spec(a, b),
{
    let a = match a {
        Some(w) => w,
        None => When { os: None, store: None },
    };
    let b = match b {
        Some(w) => w,
        None => When { os: None, store: None },
    };
    let when = When {
        os: if a.os.is_some() {
            a.os
        } else {
            b.os
        },
        store: if a.store.is_some() {
            a.store
        } else {
            b.store
        },
    };
    if when.is_any() {
        None
    } else {
        Some(when)
    }
}

/// The first merged candidate with the same directory and a compatible
/// condition.
pub open spec fn mergeable(prev: Seq<CandView>, x: CandView, k: int) -> bool {
    0 <= k < prev.len() && prev[k].1 == x.1 && compatible_spec(prev[k].0, x.0) && forall|j: int|
        0 <= j < k ==> !(#[trigger] prev[j].1 == x.1 && compatible_spec(prev[j].0, x.0))
}

/// Candidates that name the same directory with compatible conditions
/// merged into the first of them.
pub open spec fn merge_cands(c: Seq<CandView>) -> Seq<CandView>
    decreases c.len(),
{
    if c.len() == 0 {
        Seq::empty()
    } else {
        let prev = merge_cands(c.drop_last());
        let x = c.last();
        if exists|k: int| #[trigger] mergeable(prev, x, k) {
            let k = choose|k: int| #[trigger] mergeable(prev, x, k);
            prev.update(k, (combine_spec(prev[k].0, x.0), prev[k].1))
        } else {
            prev.push(x)
        }
    }
}

pub open spec fn platform_key(p: Option<Platform>) -> int {
    match p {
        Some(Platform::Windows) => 0,
        Some(Platform::Macos) => 1,
        Some(Platform::Linux) => 2,
        None => 3,
    }
}

pub open spec fn store_key(s: Option<Store>) -> int {
    match s {
        Some(Store::Steam) => 0,
        Some(Store::Gog) => 1,
        Some(Store::Epic) => 2,
        Some(Store::Standalone) => 3,
        None => 4,
    }
}

/// The sort key of a condition: OS rank (absent last), then store rank.
pub open spec fn key_spec(w: Option<When>) -> (u8, u8, u8, u8) {
    let w = match w {
        Some(w) => w,
        None => When { os: None, store: None },
    };
    (platform_key(w.os) as u8, store_key(w.store) as u8, 0, 0)
}

pub fn platform_rank(platform: Platform) -> (r: u8)
    ensures
        r as int == platform_key(Some(platform)),
{
    match platform {
        Platform::Windows => 0,
        Platform::Macos => 1,
        Platform::Linux => 2,
    }
}

pub fn store_rank(store: Store) -> (r: u8)
    ensures
        r as int == store_key(Some(store)),
{
    match store {
        Store::Steam => 0,
        Store::Gog => 1,
        Store::Epic => 2,
        Store::Standalone => 3,
    }
}

pub fn key(when: Option<When>) -> (r: (u8, u8, u8, u8))
    ensures
        r == key_spec(when),
{
    let when = match when {
        Some(w) => w,
        None => When { os: None, store: None },
    };
    let os: u8 = match when.os {
        Some(p) => platform_rank(p),
        None => 3,
    };
    let store: u8 = match when.store {
        Some(s) => store_rank(s),
        None => 4,
    };
    (os, store, 0, 0)
}

/// Candidates order by directory, then by condition key.
pub open spec fn cand_order(a: CandView, b: CandView) -> int {
    if text_order(a.1, b.1) != 0 {
        text_order(a.1, b.1)
    } else if key_spec(a.0).0 != key_spec(b.0).0 {
        if key_spec(a.0).0 < key_spec(b.0).0 {
            -1
        } else {
            1
        }
    } else if key_spec(a.0).1 != key_spec(b.0).1 {
        if key_spec(a.0).1 < key_spec(b.0).1 {
            -1
        } else {
            1
        }
    } else {
        0
    }
}

pub open spec fn insert_cand(s: Seq<CandView>, x: CandView) -> Seq<CandView>
    decreases s.len(),
{
    if s.len() == 0 {
        seq![x]
    } else if cand_order(s.last(), x) <= 0 {
        s.push(x)
    } else {
        insert_cand(s.drop_last(), x).push(s.last())
    }
}

/// The stable sort of candidates by [`cand_order`].
pub open spec fn sort_cands(s: Seq<CandView>) -> Seq<CandView>
    decreases s.len(),
{
    if s.len() == 0 {
        Seq::empty()
    } else {
        insert_cand(sort_cands(s.drop_last()), s.last())
    }
}

/// Candidates merged, then sorted.
pub open spec fn dedup_spec(c: Seq<CandView>) -> Seq<CandView> {
    sort_cands(merge_cands(c))
}

proof fn lemma_insert_cand(s: Seq<CandView>, x: CandView, p: int)
    requires
        0 <= p <= s.len(),
        p == 0 || cand_order(s[p - 1], x) <= 0,
        forall|j: int| p <= j < s.len() ==> cand_order(#[trigger] s[j], x) > 0,
    ensures
        insert_cand(s, x) == s.take(p).push(x) + s.skip(p),
    decreases s.len(),
{
    if s.len() == 0 {
        assert(s.take(p).push(x) + s.skip(p) =~= seq![x]);
    } else if cand_order(s.last(), x) <= 0 {
        assert(p == s.len());
        assert(s.take(p).push(x) + s.skip(p) =~= s.push(x));
    } else {
        let t = s.drop_last();
        lemma_insert_cand(t, x, p);
        assert(t.take(p).push(x) + t.skip(p) + seq![s.last()] =~= s.take(p).push(x) + s.skip(p));
    }
}

fn cand_compare(a: &SaveCandidate, b: &SaveCandidate) -> (r: i8)
    ensures
        r as int == cand_order(cview(*a), cview(*b)),
{
    let t = text_compare(&chars_of(a.dir.as_str()), &chars_of(b.dir.as_str()));
    if t != 0 {
        return t;
    }
    let ka = key(a.when);
    let kb = key(b.when);
    if ka.0 != kb.0 {
        if ka.0 < kb.0 {
            -1
        } else {
            1
        }
    } else if ka.1 != kb.1 {
        if ka.1 < kb.1 {
            -1
        } else {
            1
        }
    } else {
        0
    }
}

fn merge_candidates(candidates: Vec<SaveCandidate>) -> (r: Vec<SaveCandidate>)
    ensures
        cviews(r@) == merge_cands(cviews(candidates@)),
{
    let ghost orig = candidates@;
    let mut rest = candidates;
    let mut merged: Vec<SaveCandidate> = Vec::new();
    let mut i: usize = 0;
    assert(orig.len() == rest.len());
    while rest.len() > 0
        invariant
            i <= orig.len() <= usize::MAX,
            rest@ == orig.skip(i as int),
            cviews(merged@) == merge_cands(cviews(orig.take(i as int))),
        decreases rest.len(),
    {
        let x = rest.remove(0);
        assert(x == orig[i as int]);
        let ghost prev = cviews(merged@);
        let ghost xv = cview(x);
        proof {
            let w = cviews(orig.take(i + 1));
            assert(w.drop_last() =~= cviews(orig.take(i as int)));
            assert(w.last() == xv);
            assert(orig.skip(i as int).drop_first() == orig.skip(i + 1));
        }
        let xd = chars_of(x.dir.as_str());
        let mut k: usize = 0;
        let mut found = false;
        while k < merged.len() && !found
            invariant
                k <= merged.len(),
                prev == cviews(merged@),
                xv == cview(x),
                xd@ == x.dir@,
                found ==> k < merged.len() && prev[k as int].1 == xv.1 && compatible_spec(prev[k as int].0, xv.0),
                forall|j: int| 0 <= j < k ==> !(#[trigger] prev[j].1 == xv.1 && compatible_spec(prev[j].0, xv.0)),
            decreases merged.len() - k + (if found { 0int } else { 1int }),
        {
            if crate::text::chars_eq(&chars_of(merged[k].dir.as_str()), &xd) && compatible(merged[k].when, x.when) {
                found = true;
            } else {
                k = k + 1;
            }
        }
        if found {
            assert(mergeable(prev, xv, k as int));
            proof {
                let c = choose|c: int| #[trigger] mergeable(prev, xv, c);
                if c < k {
                    assert(!(prev[c].1 == xv.1 && compatible_spec(prev[c].0, xv.0)));
                } else if c > k {
                    assert(!(prev[k as int].1 == xv.1 && compatible_spec(prev[k as int].0, xv.0)));
                }
            }
            let updated = SaveCandidate { when: combine(merged[k].when, x.when), dir: merged[k].dir.clone() };
            merged[k] = updated;
            assert(cviews(merged@) =~= prev.update(k as int, (combine_spec(prev[k as int].0, xv.0), prev[k as int].1)));
        } else {
            proof {
                if exists|c: int| #[trigger] mergeable(prev, xv, c) {
                    let c = choose|c: int| #[trigger] mergeable(prev, xv, c);
                    assert(!(prev[c].1 == xv.1 && compatible_spec(prev[c].0, xv.0)));
                }
            }
            merged.push(x);
            assert(cviews(merged@) =~= prev.push(xv));
        }
        i = i + 1;
    }
    assert(orig.take(orig.len() as int) == orig);
    merged
}

fn sort_candidates(v: Vec<SaveCandidate>) -> (r: Vec<SaveCandidate>)
    ensures
        cviews(r@) == sort_cands(cviews(v@)),
{
    let ghost orig = v@;
    let mut rest = v;
    let mut sorted: Vec<SaveCandidate> = Vec::new();
    let mut i: usize = 0;
    assert(orig.len() == rest.len());
    while rest.len() > 0
        invariant
            i <= orig.len() <= usize::MAX,
            rest@ == orig.skip(i as int),
            cviews(sorted@) == sort_cands(cviews(orig.take(i as int))),
        decreases rest.len(),
    {
        let x = rest.remove(0);
        assert(x == orig[i as int]);
        let mut p: usize = sorted.len();
        while p > 0 && cand_compare(&sorted[p - 1], &x) > 0
            invariant
                p <= sorted.len(),
                forall|j: int| p <= j < sorted.len() ==> cand_order(#[trigger] cviews(sorted@)[j], cview(x)) > 0,
            decreases p,
        {
            p = p - 1;
        }
        let ghost before = sorted@;
        proof {
            lemma_insert_cand(cviews(before), cview(x), p as int);
            let w = cviews(orig.take(i + 1));
            assert(w.drop_last() =~= cviews(orig.take(i as int)));
            assert(w.last() == cview(x));
            assert(orig.skip(i as int).drop_first() == orig.skip(i + 1));
        }
        sorted.insert(p, x);
        assert(cviews(sorted@) =~= cviews(before).take(p as int).push(cview(x)) + cviews(before).skip(p as int));
        i = i + 1;
    }
    assert(orig.take(orig.len() as int) == orig);
    sorted
}

/// Merge candidates that normalize to the same directory when compatible.
/// The `<base>`/`<root>` spellings of one directory collapse to one
/// candidate; conflicting OS/store conditions stay separate.
pub fn deduplicate(candidates: Vec<SaveCandidate>) -> (r: Vec<SaveCandidate>)
    ensures
        cviews(r@) == dedup_spec(cviews(candidates@)),
{
    let merged = merge_candidates(candidates);
    sort_candidates(merged)
}


fn store_from(s: &str) -> (r: Option<Store>)
    ensures
        r == store_of(s@),
{
    let v = chars_of(s);
    if eq_lit(&v, "steam") {
        Some(Store::Steam)
    } else if eq_lit(&v, "gog") {
        Some(Store::Gog)
    } else if eq_lit(&v, "epic") {
        Some(Store::Epic)
    } else if eq_lit(&v, "standalone") {
        Some(Store::Standalone)
    } else {
        None
    }
}

fn cond_result(path: &str, c: &Cond) -> (r: Result<SaveCandidate, DropReason>)
    ensures
        match r {
            Ok(v) => cond_outcome(path@, *c) == Ok::<CandView, DropReason>(cview(v)),
            Err(e) => cond_outcome(path@, *c) == Err::<CandView, DropReason>(e),
        },
{
    let store = match &c.store {
        None => None,
        Some(s) => {
            if eq_lit(&chars_of(s.as_str()), "microsoft") {
                return Err(DropReason::MicrosoftOnly);
            }
            match store_from(s.as_str()) {
                Some(st) => Some(st),
                None => {
                    return Err(DropReason::UnsupportedStore);
                },
            }
        },
    };
    let os = match &c.os {
        None => None,
        Some(o) => match parse_os(o.as_str()) {
            Some(p) => Some(p),
            None => {
                return Err(DropReason::UnsupportedPlaceholder);
            },
        },
    };
    match normalize_path(path) {
        Ok(dir) => {
            let when = if os.is_some() || store.is_some() {
                Some(When { os, store })
            } else {
                None
            };
            Ok(SaveCandidate { when, dir })
        },
        Err(e) => Err(e),
    }
}

fn is_microsoft_cond(c: &Cond) -> (r: bool)
    ensures
        r == is_microsoft(*c),
{
    match &c.store {
        Some(s) => eq_lit(&chars_of(s.as_str()), "microsoft"),
        None => false,
    }
}

fn file_result(path: &str, file: &FileEntry) -> (r: (Vec<SaveCandidate>, Vec<DropReason>))
    ensures
        (cviews(r.0@), r.1@) == file_outcome(path@, *file),
{
    let mut candidates: Vec<SaveCandidate> = Vec::new();
    let mut drops: Vec<DropReason> = Vec::new();
    if file.tags.len() > 0 {
        let mut has_save = false;
        let mut t: usize = 0;
        while t < file.tags.len()
            invariant
                t <= file.tags.len(),
                has_save == exists|k: int| 0 <= k < t && #[trigger] file.tags@[k]@ == "save"@,
            decreases file.tags.len() - t,
        {
            if eq_lit(&chars_of(file.tags[t].as_str()), "save") {
                has_save = true;
            }
            t = t + 1;
        }
        if !has_save {
            drops.push(DropReason::ConfigOnly);
            assert(cviews(candidates@) =~= Seq::<CandView>::empty());
            assert(drops@ =~= seq![DropReason::ConfigOnly]);
            return (candidates, drops);
        }
    }
    let given = Whens::slice_or_default(&file.when);
    let fallback: Vec<Cond> = vec![Cond { os: None, store: None, bit: None }];
    let conds: &[Cond] = if given.len() == 0 {
        fallback.as_slice()
    } else {
        given
    };
    assert(conds@ == file_conditions(*file));
    let mut all_ms = true;
    let mut k: usize = 0;
    while k < conds.len()
        invariant
            k <= conds.len(),
            all_ms == forall|j: int| 0 <= j < k ==> #[trigger] is_microsoft(conds@[j]),
        decreases conds.len() - k,
    {
        if !is_microsoft_cond(&conds[k]) {
            all_ms = false;
        }
        k = k + 1;
    }
    if all_ms {
        drops.push(DropReason::MicrosoftOnly);
        assert(cviews(candidates@) =~= Seq::<CandView>::empty());
        assert(drops@ =~= seq![DropReason::MicrosoftOnly]);
        return (candidates, drops);
    }
    let mut i: usize = 0;
    assert(cviews(candidates@) =~= Seq::<CandView>::empty());
    while i < conds.len()
        invariant
            i <= conds.len(),
            (cviews(candidates@), drops@) == conds_outcome(path@, conds@.take(i as int)),
        decreases conds.len() - i,
    {
        assert(conds@.take(i + 1).drop_last() == conds@.take(i as int));
        assert(conds@.take(i + 1).last() == conds@[i as int]);
        match cond_result(path, &conds[i]) {
            Ok(c) => {
                let ghost before = candidates@;
                candidates.push(c);
                assert(cviews(candidates@) =~= cviews(before).push(cview(c)));
            },
            Err(e) => {
                drops.push(e);
            },
        }
        i = i + 1;
    }
    assert(conds@.take(conds.len() as int) == conds@);
    (candidates, drops)
}

/// What an entry's `files` give: candidates merged and sorted, with the
/// reasons for what was dropped.
pub open spec fn save_spec(e: Entry) -> (Seq<CandView>, Seq<DropReason>) {
    match e.files {
        None => (Seq::empty(), seq![DropReason::NoFiles]),
        Some(files) => {
            let (c, d) = files_outcome(files@);
            (dedup_spec(c), d)
        },
    }
}

/// `files` → save candidates, with dropped reasons for the report.
pub fn save(entry: &Entry) -> (r: (Vec<SaveCandidate>, Vec<DropReason>))
    ensures
        (cviews(r.0@), r.1@) == save_spec(*entry),
{
    let mut candidates: Vec<SaveCandidate> = Vec::new();
    let mut drops: Vec<DropReason> = Vec::new();
    let files = match &entry.files {
        None => {
            drops.push(DropReason::NoFiles);
            assert(cviews(candidates@) =~= Seq::<CandView>::empty());
            assert(drops@ =~= seq![DropReason::NoFiles]);
            return (candidates, drops);
        },
        Some(files) => files,
    };
    let mut i: usize = 0;
    assert(cviews(candidates@) =~= Seq::<CandView>::empty());
    while i < files.len()
        invariant
            i <= files.len(),
            (cviews(candidates@), drops@) == files_outcome(files@.take(i as int)),
        decreases files.len() - i,
    {
        assert(files@.take(i + 1).drop_last() == files@.take(i as int));
        assert(files@.take(i + 1).last() == files@[i as int]);
        let (mut c, mut d) = file_result(files[i].0.as_str(), &files[i].1);
        let ghost c0 = candidates@;
        let ghost c1 = c@;
        candidates.append(&mut c);
        drops.append(&mut d);
        assert(cviews(candidates@) =~= cviews(c0) + cviews(c1));
        i = i + 1;
    }
    assert(files@.take(files.len() as int) == files@);
    (deduplicate(candidates), drops)
}


// ---- the manifest's root forms -------------------------------------------------

/// A manifest root form: `<` at the front, `>` at the end, neither between.
pub open spec fn root_form(f: Seq<char>) -> bool {
    &&& f.len() >= 2
    &&& f[0] == '<'
    &&& f[f.len() - 1] == '>'
    &&& forall|i: int| 0 < i < f.len() - 1 ==> #[trigger] f[i] != '<' && f[i] != '>'
}

/// Text without `<` or `>`.
pub open spec fn unbracketed(x: Seq<char>) -> bool {
    forall|i: int| 0 <= i < x.len() ==> #[trigger] x[i] != '<' && x[i] != '>'
}

proof fn lemma_replace_absent(s: Seq<char>, f: Seq<char>, t: Seq<char>)
    requires
        forall|j: int| !#[trigger] occurs_at(s, f, j),
    ensures
        replace_spec(s, f, t) == s,
{
    lemma_find_from(s, f, 0);
}

proof fn lemma_no_open(s: Seq<char>, f: Seq<char>)
    requires
        unbracketed(s),
        f.len() > 0,
        f[0] == '<',
    ensures
        forall|j: int| !#[trigger] occurs_at(s, f, j),
{
    assert forall|j: int| !#[trigger] occurs_at(s, f, j) by {
        if occurs_at(s, f, j) {
            assert(s.subrange(j, j + f.len())[0] == s[j]);
        }
    }
}

/// Behind a root form, `/` and text without brackets, the only `<` is the
/// first character, so another root form never occurs.
proof fn lemma_other_form_absent(r: Seq<char>, f: Seq<char>, x: Seq<char>)
    requires
        root_form(r),
        root_form(f),
        r != f,
        unbracketed(x),
    ensures
        forall|j: int| !#[trigger] occurs_at(r + "/"@ + x, f, j),
{
    reveal_strlit("/");
    let s = r + "/"@ + x;
    assert forall|j: int| !#[trigger] occurs_at(s, f, j) by {
        if occurs_at(s, f, j) {
            let w = s.subrange(j, j + f.len());
            assert(w[0] == s[j]);
            if j > 0 {
                if j < r.len() {
                    assert(s[j] == r[j]);
                } else if j == r.len() {
                } else {
                    assert(s[j] == x[j - r.len() - 1]);
                }
            }
            assert(j == 0);
            if f.len() < r.len() {
                assert(w[f.len() - 1] == r[f.len() - 1]);
            } else if f.len() == r.len() {
                assert(w =~= r);
            } else {
                assert(w[r.len() - 1] == r[r.len() - 1]);
            }
        }
    }
}

/// Replacing the root form in front gives its placeholder in front.
proof fn lemma_replace_front(r: Seq<char>, t: Seq<char>, x: Seq<char>)
    requires
        root_form(r),
        unbracketed(x),
    ensures
        replace_spec(r + "/"@ + x, r, t) == t + "/"@ + x,
{
    reveal_strlit("/");
    let s = r + "/"@ + x;
    assert(s.subrange(0, r.len() as int) =~= r);
    assert(occurs_at(s, r, 0));
    lemma_find_from(s, r, 0);
    let rest = s.skip(r.len() as int);
    assert(rest =~= "/"@ + x);
    assert(unbracketed(rest)) by {
        assert forall|i: int| 0 <= i < rest.len() implies #[trigger] rest[i] != '<' && rest[i] != '>' by {
            if i > 0 {
                assert(rest[i] == x[i - 1]);
            }
        }
    }
    lemma_no_open(rest, r);
    lemma_replace_absent(rest, r, t);
    assert(s.take(0) =~= Seq::<char>::empty());
    assert(Seq::<char>::empty() + t + rest =~= t + "/"@ + x);
}

/// One replacement of the chain, on a path that still has its root form in
/// front or already has the placeholder.
proof fn lemma_root_step(s: Seq<char>, r: Seq<char>, tr: Seq<char>, x: Seq<char>, f: Seq<char>, t: Seq<char>)
    requires
        root_form(r),
        root_form(f),
        unbracketed(x),
        unbracketed(tr),
        f == r ==> t == tr,
        s == r + "/"@ + x || s == tr + "/"@ + x,
    ensures
        s == tr + "/"@ + x ==> replace_spec(s, f, t) == s,
        s == r + "/"@ + x && f == r ==> replace_spec(s, f, t) == tr + "/"@ + x,
        s == r + "/"@ + x && f != r ==> replace_spec(s, f, t) == s,
{
    reveal_strlit("/");
    if s == tr + "/"@ + x {
        assert(unbracketed(s)) by {
            assert forall|i: int| 0 <= i < s.len() implies #[trigger] s[i] != '<' && s[i] != '>' by {
                if i < tr.len() {
                    assert(s[i] == tr[i]);
                } else if i > tr.len() {
                    assert(s[i] == x[i - tr.len() - 1]);
                }
            }
        }
        lemma_no_open(s, f);
        lemma_replace_absent(s, f, t);
    }
    if s == r + "/"@ + x {
        if f == r {
            lemma_replace_front(r, t, x);
        } else {
            lemma_other_form_absent(r, f, x);
            lemma_replace_absent(s, f, t);
        }
    }
}

/// The manifest's root forms, each with the placeholder it stands for.
pub open spec fn manifest_roots() -> Seq<(Seq<char>, Seq<char>)> {
    seq![
        ("<home>"@, "{HOME}"@),
        ("<winAppData>"@, "{APPDATA}"@),
        ("<winLocalAppData>"@, "{LOCALAPPDATA}"@),
        ("<winLocalAppDataLow>"@, "{LOCALLOW}"@),
        ("<winDocuments>"@, "{DOCUMENTS}"@),
        ("<winProgramData>"@, "{PROGRAMDATA}"@),
        ("<winPublic>"@, "{PUBLIC}"@),
        ("<winDir>"@, "{WINDIR}"@),
        ("<xdgData>"@, "{XDG_DATA_HOME}"@),
        ("<xdgConfig>"@, "{XDG_CONFIG_HOME}"@),
        ("<storeUserId>"@, "{STORE_USER_ID}"@),
    ]
}

proof fn lemma_root_literals()
    ensures
        forall|k: int| 0 <= k < manifest_roots().len() ==> root_form(#[trigger] manifest_roots()[k].0) && unbracketed(manifest_roots()[k].1),
        root_form("<base>"@),
        root_form("<root>"@),
{
    reveal_strlit("<home>");
    reveal_strlit("{HOME}");
    reveal_strlit("<winAppData>");
    reveal_strlit("{APPDATA}");
    reveal_strlit("<winLocalAppData>");
    reveal_strlit("{LOCALAPPDATA}");
    reveal_strlit("<winLocalAppDataLow>");
    reveal_strlit("{LOCALLOW}");
    reveal_strlit("<winDocuments>");
    reveal_strlit("{DOCUMENTS}");
    reveal_strlit("<winProgramData>");
    reveal_strlit("{PROGRAMDATA}");
    reveal_strlit("<winPublic>");
    reveal_strlit("{PUBLIC}");
    reveal_strlit("<winDir>");
    reveal_strlit("{WINDIR}");
    reveal_strlit("<xdgData>");
    reveal_strlit("{XDG_DATA_HOME}");
    reveal_strlit("<xdgConfig>");
    reveal_strlit("{XDG_CONFIG_HOME}");
    reveal_strlit("<storeUserId>");
    reveal_strlit("{STORE_USER_ID}");
    reveal_strlit("<base>");
    reveal_strlit("<root>");
    assert(root_form("<home>"@));
    assert(unbracketed("{HOME}"@));
    assert(root_form("<winAppData>"@));
    assert(unbracketed("{APPDATA}"@));
    assert(root_form("<winLocalAppData>"@));
    assert(unbracketed("{LOCALAPPDATA}"@));
    assert(root_form("<winLocalAppDataLow>"@));
    assert(unbracketed("{LOCALLOW}"@));
    assert(root_form("<winDocuments>"@));
    assert(unbracketed("{DOCUMENTS}"@));
    assert(root_form("<winProgramData>"@));
    assert(unbracketed("{PROGRAMDATA}"@));
    assert(root_form("<winPublic>"@));
    assert(unbracketed("{PUBLIC}"@));
    assert(root_form("<winDir>"@));
    assert(unbracketed("{WINDIR}"@));
    assert(root_form("<xdgData>"@));
    assert(unbracketed("{XDG_DATA_HOME}"@));
    assert(root_form("<xdgConfig>"@));
    assert(unbracketed("{XDG_CONFIG_HOME}"@));
    assert(root_form("<storeUserId>"@));
    assert(unbracketed("{STORE_USER_ID}"@));
    assert(root_form("<base>"@));
    assert(root_form("<root>"@));
}

proof fn lemma_roots_chain(r: Seq<char>, tr: Seq<char>, x: Seq<char>)
    requires
        unbracketed(x),
        r == "<home>"@ || r == "<winAppData>"@ || r == "<winLocalAppData>"@ || r == "<winLocalAppDataLow>"@ || r == "<winDocuments>"@ || r == "<winProgramData>"@ || r == "<winPublic>"@ || r == "<winDir>"@ || r == "<xdgData>"@ || r == "<xdgConfig>"@ || r == "<storeUserId>"@,
        r == "<home>"@ ==> tr == "{HOME}"@,
        r == "<winAppData>"@ ==> tr == "{APPDATA}"@,
        r == "<winLocalAppData>"@ ==> tr == "{LOCALAPPDATA}"@,
        r == "<winLocalAppDataLow>"@ ==> tr == "{LOCALLOW}"@,
        r == "<winDocuments>"@ ==> tr == "{DOCUMENTS}"@,
        r == "<winProgramData>"@ ==> tr == "{PROGRAMDATA}"@,
        r == "<winPublic>"@ ==> tr == "{PUBLIC}"@,
        r == "<winDir>"@ ==> tr == "{WINDIR}"@,
        r == "<xdgData>"@ ==> tr == "{XDG_DATA_HOME}"@,
        r == "<xdgConfig>"@ ==> tr == "{XDG_CONFIG_HOME}"@,
        r == "<storeUserId>"@ ==> tr == "{STORE_USER_ID}"@,
    ensures
        replace_roots(r + "/"@ + x) == tr + "/"@ + x,
{
    lemma_root_literals();
    reveal_strlit("<home>");
    reveal_strlit("{HOME}");
    reveal_strlit("<winAppData>");
    reveal_strlit("{APPDATA}");
    reveal_strlit("<winLocalAppData>");
    reveal_strlit("{LOCALAPPDATA}");
    reveal_strlit("<winLocalAppDataLow>");
    reveal_strlit("{LOCALLOW}");
    reveal_strlit("<winDocuments>");
    reveal_strlit("{DOCUMENTS}");
    reveal_strlit("<winProgramData>");
    reveal_strlit("{PROGRAMDATA}");
    reveal_strlit("<winPublic>");
    reveal_strlit("{PUBLIC}");
    reveal_strlit("<winDir>");
    reveal_strlit("{WINDIR}");
    reveal_strlit("<xdgData>");
    reveal_strlit("{XDG_DATA_HOME}");
    reveal_strlit("<xdgConfig>");
    reveal_strlit("{XDG_CONFIG_HOME}");
    reveal_strlit("<storeUserId>");
    reveal_strlit("{STORE_USER_ID}");
    assert(root_form(r) && unbracketed(tr));
    let s0 = r + "/"@ + x;
    lemma_root_step(s0, r, tr, x, "<home>"@, "{HOME}"@);
    let s1 = replace_spec(s0, "<home>"@, "{HOME}"@);
    lemma_root_step(s1, r, tr, x, "<winAppData>"@, "{APPDATA}"@);
    let s2 = replace_spec(s1, "<winAppData>"@, "{APPDATA}"@);
    lemma_root_step(s2, r, tr, x, "<winLocalAppData>"@, "{LOCALAPPDATA}"@);
    let s3 = replace_spec(s2, "<winLocalAppData>"@, "{LOCALAPPDATA}"@);
    lemma_root_step(s3, r, tr, x, "<winLocalAppDataLow>"@, "{LOCALLOW}"@);
    let s4 = replace_spec(s3, "<winLocalAppDataLow>"@, "{LOCALLOW}"@);
    lemma_root_step(s4, r, tr, x, "<winDocuments>"@, "{DOCUMENTS}"@);
    let s5 = replace_spec(s4, "<winDocuments>"@, "{DOCUMENTS}"@);
    lemma_root_step(s5, r, tr, x, "<winProgramData>"@, "{PROGRAMDATA}"@);
    let s6 = replace_spec(s5, "<winProgramData>"@, "{PROGRAMDATA}"@);
    lemma_root_step(s6, r, tr, x, "<winPublic>"@, "{PUBLIC}"@);
    let s7 = replace_spec(s6, "<winPublic>"@, "{PUBLIC}"@);
    lemma_root_step(s7, r, tr, x, "<winDir>"@, "{WINDIR}"@);
    let s8 = replace_spec(s7, "<winDir>"@, "{WINDIR}"@);
    lemma_root_step(s8, r, tr, x, "<xdgData>"@, "{XDG_DATA_HOME}"@);
    let s9 = replace_spec(s8, "<xdgData>"@, "{XDG_DATA_HOME}"@);
    lemma_root_step(s9, r, tr, x, "<xdgConfig>"@, "{XDG_CONFIG_HOME}"@);
    let s10 = replace_spec(s9, "<xdgConfig>"@, "{XDG_CONFIG_HOME}"@);
    lemma_root_step(s10, r, tr, x, "<storeUserId>"@, "{STORE_USER_ID}"@);
    let s11 = replace_spec(s10, "<storeUserId>"@, "{STORE_USER_ID}"@);
    assert(s11 == tr + "/"@ + x);
}

/// A character a plain relative folder name may hold: no bracket, glob
/// character, dot or backslash.
pub open spec fn plain_char(c: char) -> bool {
    c != '<' && c != '>' && c != '*' && c != '?' && c != '[' && c != '.' && c != '\\'
}

proof fn lemma_first_meta_none(s: Seq<char>)
    requires
        forall|i: int| 0 <= i < s.len() ==> !is_glob_meta(#[trigger] s[i]),
    ensures
        first_meta(s) is None,
    decreases s.len(),
{
    if s.len() > 0 {
        assert forall|i: int| 0 <= i < s.drop_first().len() implies !is_glob_meta(#[trigger] s.drop_first()[i]) by {
            assert(s.drop_first()[i] == s[i + 1]);
        }
        lemma_first_meta_none(s.drop_first());
    }
}

/// A placeholder, `/` and a plain folder pass the later steps untouched.
proof fn lemma_plain_tail(t: Seq<char>, x: Seq<char>)
    requires
        t.len() > 0,
        forall|i: int| 0 <= i < t.len() ==> plain_char(#[trigger] t[i]) && t[i] != '/',
        x.len() > 0,
        x[x.len() - 1] != '/',
        forall|i: int| 0 <= i < x.len() ==> plain_char(#[trigger] x[i]),
    ensures
        ({
            let s = t + "/"@ + x;
            &&& slashes(s) == s
            &&& !contains_seq(s, "<base>"@)
            &&& !contains_seq(s, "<root>"@)
            &&& unknown_placeholder_spec(s) is None
            &&& collapse_glob_spec(s) == s
            &&& to_directory_spec(s) == s
            &&& trim_end_slash(s) == s
            &&& s.len() > 0
            &&& s != "/"@
            &&& !is_bare_root_spec(s)
            &&& !contains_seq(ascii_lower_seq(s), "gog.com/galaxy"@)
        }),
{
    reveal_strlit("/");
    reveal_strlit("<base>");
    reveal_strlit("<root>");
    reveal_strlit("gog.com/galaxy");
    let s = t + "/"@ + x;
    assert forall|i: int| 0 <= i < s.len() implies plain_char(#[trigger] s[i]) by {
        if i < t.len() {
            assert(s[i] == t[i]);
        } else if i > t.len() {
            assert(s[i] == x[i - t.len() - 1]);
        }
    }
    assert(s[t.len() as int] == '/');
    assert(slashes(s) =~= s);
    assert(unbracketed(s));
    lemma_no_open(s, "<base>"@);
    lemma_no_open(s, "<root>"@);
    lemma_first_index(s, '<');
    lemma_first_meta_none(s);
    let last = last_part(s);
    lemma_last_index(s, '/');
    assert(!last.contains('.')) by {
        if last.contains('.') {
            let i = choose|i: int| 0 <= i < last.len() && last[i] == '.';
            match last_index(s, '/') {
                Some(j) => assert(last[i] == s[j + 1 + i]),
                None => assert(last[i] == s[i]),
            }
        }
    }
    assert(s.last() == x.last());
    assert(s.len() >= 2);
    assert(s.contains('/'));
    let lower = ascii_lower_seq(s);
    assert forall|j: int| !#[trigger] occurs_at(lower, "gog.com/galaxy"@, j) by {
        if occurs_at(lower, "gog.com/galaxy"@, j) {
            assert(lower.subrange(j, j + 14)[3] == lower[j + 3]);
            assert(lower[j + 3] == '.');
            assert(plain_char(s[j + 3]));
        }
    }
}

proof fn lemma_root_case(r: Seq<char>, tr: Seq<char>, x: Seq<char>)
    requires
        manifest_roots().contains((r, tr)),
        x.len() > 0,
        x[x.len() - 1] != '/',
        forall|i: int| 0 <= i < x.len() ==> plain_char(#[trigger] x[i]),
        forall|i: int| 0 <= i < tr.len() ==> plain_char(#[trigger] tr[i]) && tr[i] != '/',
        tr.len() > 0,
        r != "<base>"@,
        r != "<root>"@,
        r == "<home>"@ || r == "<winAppData>"@ || r == "<winLocalAppData>"@ || r == "<winLocalAppDataLow>"@ || r == "<winDocuments>"@ || r == "<winProgramData>"@ || r == "<winPublic>"@ || r == "<winDir>"@ || r == "<xdgData>"@ || r == "<xdgConfig>"@ || r == "<storeUserId>"@,
        r == "<home>"@ ==> tr == "{HOME}"@,
        r == "<winAppData>"@ ==> tr == "{APPDATA}"@,
        r == "<winLocalAppData>"@ ==> tr == "{LOCALAPPDATA}"@,
        r == "<winLocalAppDataLow>"@ ==> tr == "{LOCALLOW}"@,
        r == "<winDocuments>"@ ==> tr == "{DOCUMENTS}"@,
        r == "<winProgramData>"@ ==> tr == "{PROGRAMDATA}"@,
        r == "<winPublic>"@ ==> tr == "{PUBLIC}"@,
        r == "<winDir>"@ ==> tr == "{WINDIR}"@,
        r == "<xdgData>"@ ==> tr == "{XDG_DATA_HOME}"@,
        r == "<xdgConfig>"@ ==> tr == "{XDG_CONFIG_HOME}"@,
        r == "<storeUserId>"@ ==> tr == "{STORE_USER_ID}"@,
    ensures
        normalize_spec(r + "/"@ + x) == Ok::<Seq<char>, DropReason>(tr + "/"@ + x),
{
    reveal_strlit("/");
    lemma_root_literals();
    let k = choose|k: int| 0 <= k < manifest_roots().len() && manifest_roots()[k] == (r, tr);
    assert(manifest_roots()[k].0 == r);
    assert(root_form(manifest_roots()[k].0));
    assert(root_form(r));
    let path = r + "/"@ + x;
    assert(unbracketed(x));
    assert(path.last() == x.last());
    assert(trim_end_separators(path) == path);
    lemma_other_form_absent(r, "<base>"@, x);
    lemma_other_form_absent(r, "<root>"@, x);
    assert(!occurs_at(path, "<base>"@, 0));
    assert(!occurs_at(path, "<root>"@, 0));
    assert(!starts_with(path, "<base>"@));
    assert(!starts_with(path, "<root>"@));
    assert(!contains_seq(path, "<base>"@));
    lemma_roots_chain(r, tr, x);
    assert(rooted(path) == Ok::<Seq<char>, DropReason>(tr + "/"@ + x));
    lemma_plain_tail(tr, x);
}

/// Each manifest root form becomes its own placeholder: for a plain
/// relative folder `x` (no bracket, glob character, dot or backslash, not
/// ending in `/`), the root form, `/` and `x` normalize to the root's
/// placeholder, `/` and `x`.
pub proof fn law_each_manifest_root_becomes_its_placeholder(k: int, x: Seq<char>)
    requires
        0 <= k < manifest_roots().len(),
        x.len() > 0,
        x[x.len() - 1] != '/',
        forall|i: int| 0 <= i < x.len() ==> plain_char(#[trigger] x[i]),
    ensures
        normalize_spec(manifest_roots()[k].0 + "/"@ + x) == Ok::<Seq<char>, DropReason>(
            manifest_roots()[k].1 + "/"@ + x,
        ),
{
    reveal_strlit("<home>");
    reveal_strlit("{HOME}");
    reveal_strlit("<winAppData>");
    reveal_strlit("{APPDATA}");
    reveal_strlit("<winLocalAppData>");
    reveal_strlit("{LOCALAPPDATA}");
    reveal_strlit("<winLocalAppDataLow>");
    reveal_strlit("{LOCALLOW}");
    reveal_strlit("<winDocuments>");
    reveal_strlit("{DOCUMENTS}");
    reveal_strlit("<winProgramData>");
    reveal_strlit("{PROGRAMDATA}");
    reveal_strlit("<winPublic>");
    reveal_strlit("{PUBLIC}");
    reveal_strlit("<winDir>");
    reveal_strlit("{WINDIR}");
    reveal_strlit("<xdgData>");
    reveal_strlit("{XDG_DATA_HOME}");
    reveal_strlit("<xdgConfig>");
    reveal_strlit("{XDG_CONFIG_HOME}");
    reveal_strlit("<storeUserId>");
    reveal_strlit("{STORE_USER_ID}");
    reveal_strlit("<base>");
    reveal_strlit("<root>");
    assert("<home>"@[1] != "<base>"@[1]);
    assert("<home>"@[1] != "<root>"@[1]);
    assert("<winPublic>"@[1] != "<xdgConfig>"@[1]);
    assert("<base>"@[1] != "<root>"@[1]);
    assert(manifest_roots().contains(manifest_roots()[k]));
    if k == 0 {
        lemma_root_case("<home>"@, "{HOME}"@, x);
    } else if k == 1 {
        lemma_root_case("<winAppData>"@, "{APPDATA}"@, x);
    } else if k == 2 {
        lemma_root_case("<winLocalAppData>"@, "{LOCALAPPDATA}"@, x);
    } else if k == 3 {
        lemma_root_case("<winLocalAppDataLow>"@, "{LOCALLOW}"@, x);
    } else if k == 4 {
        lemma_root_case("<winDocuments>"@, "{DOCUMENTS}"@, x);
    } else if k == 5 {
        lemma_root_case("<winProgramData>"@, "{PROGRAMDATA}"@, x);
    } else if k == 6 {
        lemma_root_case("<winPublic>"@, "{PUBLIC}"@, x);
    } else if k == 7 {
        lemma_root_case("<winDir>"@, "{WINDIR}"@, x);
    } else if k == 8 {
        lemma_root_case("<xdgData>"@, "{XDG_DATA_HOME}"@, x);
    } else if k == 9 {
        lemma_root_case("<xdgConfig>"@, "{XDG_CONFIG_HOME}"@, x);
    } else if k == 10 {
        lemma_root_case("<storeUserId>"@, "{STORE_USER_ID}"@, x);
    }
}

/// `<base>` is the install folder: `<base>`, `/` and a plain relative
/// folder `x` normalize to `{INSTALL_DIR}`, `/` and `x`.
pub proof fn law_the_base_becomes_the_install_dir(x: Seq<char>)
    requires
        x.len() > 0,
        x[x.len() - 1] != '/',
        forall|i: int| 0 <= i < x.len() ==> plain_char(#[trigger] x[i]),
    ensures
        normalize_spec("<base>/"@ + x) == Ok::<Seq<char>, DropReason>("{INSTALL_DIR}/"@ + x),
{
    reveal_strlit("<base>/");
    reveal_strlit("<base>");
    reveal_strlit("{INSTALL_DIR}/");
    reveal_strlit("{INSTALL_DIR}");
    reveal_strlit("/");
    let path = "<base>/"@ + x;
    assert(path.last() == x.last());
    assert(trim_end_separators(path) == path);
    assert(path.take(6) =~= "<base>"@);
    assert(path.skip(6) =~= "/"@ + x);
    assert("{INSTALL_DIR}"@ + ("/"@ + x) =~= "{INSTALL_DIR}"@ + "/"@ + x);
    assert("{INSTALL_DIR}/"@ + x =~= "{INSTALL_DIR}"@ + "/"@ + x);
    lemma_plain_tail("{INSTALL_DIR}"@, x);
}

/// A Steam user's `userdata` folder, with or without the user id form,
/// becomes `{STEAM_USERDATA}`: `<root>/userdata/` (then `<storeUserId>/`
/// or not) and a plain relative folder `x` normalize to
/// `{STEAM_USERDATA}/` and `x`.
pub proof fn law_steam_userdata_becomes_its_placeholder(x: Seq<char>, with_user: bool)
    requires
        x.len() > 0,
        x[x.len() - 1] != '/',
        forall|i: int| 0 <= i < x.len() ==> plain_char(#[trigger] x[i]),
    ensures
        normalize_spec((if with_user { "<root>/userdata/<storeUserId>/"@ } else { "<root>/userdata/"@ }) + x)
            == Ok::<Seq<char>, DropReason>("{STEAM_USERDATA}/"@ + x),
{
    reveal_strlit("<root>/userdata/<storeUserId>/");
    reveal_strlit("<root>/userdata/");
    reveal_strlit("<root>");
    reveal_strlit("<base>");
    reveal_strlit("/steamapps/common/");
    reveal_strlit("/userdata/");
    reveal_strlit("<storeUserId>/");
    reveal_strlit("{STEAM_USERDATA}/");
    reveal_strlit("{STEAM_USERDATA}");
    reveal_strlit("/");
    let pre = if with_user { "<root>/userdata/<storeUserId>/"@ } else { "<root>/userdata/"@ };
    let path = pre + x;
    assert(path.last() == x.last());
    assert(trim_end_separators(path) == path);
    assert(path.take(6) =~= "<root>"@);
    assert(path.take(6)[1] != "<base>"@[1]);
    let rest = path.skip(6);
    assert(rest.take(10) =~= "/userdata/"@);
    assert(rest[1] != "/steamapps/common/"@[1]);
    let r2 = rest.skip(10);
    if with_user {
        assert(r2.take(14) =~= "<storeUserId>/"@);
        assert(r2.skip(14) =~= x);
    } else {
        assert(r2 =~= x);
        if starts_with(r2, "<storeUserId>/"@) {
            assert(r2.take(14)[0] == "<storeUserId>/"@[0]);
            assert(r2[0] == x[0]);
            assert(plain_char(x[0]));
        }
    }
    assert("{STEAM_USERDATA}/"@ + x =~= "{STEAM_USERDATA}"@ + "/"@ + x);
    lemma_plain_tail("{STEAM_USERDATA}"@, x);
}

} // verus!
