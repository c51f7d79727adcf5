//! The broad-folder rule on path templates.
//!
//! A Load makes everything a target matches identical to the checkpoint, so
//! a target may never take a whole folder other programs share, or a wildcard
//! directly inside one. An exact name inside such a folder is fine. The host
//! applies the same rule to real paths; this is the builder's and resolver's
//! copy of it, working on templates before anything is resolved.

use vstd::prelude::*;
use crate::glob::{lemma_segments_plain, has_wildcard_chars, has_wildcard_spec, segments, split_segments, views};
use crate::text::{
    lemma_first_index, lemma_split_piece, first_index,
    backslash_to_slash, char_views, chars_of, eq_lit, is_whitespace_spec, join_chars, join_with, lead_ws, lemma_lead_ws, lemma_trail_ws,
    slashes, split_all, split_chars, to_slashes, trail_ws, trim_chars, trim_spec,
};

verus! {

/// What `str::to_lowercase` returns for a text.
pub uninterp spec fn str_lowercase(s: Seq<char>) -> Seq<char>;

/// `str::to_lowercase`.
#[verifier::external_body]
pub(crate) fn lowercase(s: &str) -> (r: String)
    ensures
        r@ == str_lowercase(s@),
{
    s.to_lowercase()
}

/// Shared folders, spelled as lowercase templates. Every bare placeholder is
/// broad too (see [`is_broad_folder_template`]).
pub open spec fn is_shared(s: Seq<char>) -> bool {
    s == "{home}/library"@ || s == "{home}/library/application support"@ || s
        == "{home}/library/group containers"@ || s == "{home}/library/containers"@ || s
        == "{home}/library/preferences"@ || s == "{home}/library/caches"@ || s
        == "{home}/library/saved application state"@ || s == "{home}/appdata"@ || s
        == "{home}/appdata/roaming"@ || s == "{home}/appdata/local"@ || s
        == "{home}/appdata/locallow"@ || s == "{home}/appdata/local/programs"@ || s
        == "{localappdata}/programs"@ || s == "{home}/documents"@ || s
        == "{home}/documents/my games"@ || s == "{documents}/my games"@ || s
        == "{home}/my games"@ || s == "{home}/saved games"@ || s == "{home}/desktop"@ || s
        == "{home}/downloads"@ || s == "{home}/.config"@ || s == "{home}/.local"@ || s
        == "{home}/.local/share"@ || s == "{home}/.steam"@ || s == "{home}/.var"@ || s
        == "{home}/.var/app"@ || s == "{xdg_config_home}/unity3d"@ || s
        == "{home}/.config/unity3d"@ || s == "{appdata}/godot"@ || s
        == "{appdata}/godot/app_userdata"@ || s == "{xdg_data_home}/godot"@ || s
        == "{xdg_data_home}/godot/app_userdata"@ || s == "{steam_userdata}"@
}

fn shared(s: &[char]) -> (r: bool)
    ensures
        r == is_shared(s@),
{
    eq_lit(s, "{home}/library") || eq_lit(s, "{home}/library/application support") || eq_lit(
        s,
        "{home}/library/group containers",
    ) || eq_lit(s, "{home}/library/containers") || eq_lit(s, "{home}/library/preferences")
        || eq_lit(s, "{home}/library/caches") || eq_lit(s, "{home}/library/saved application state")
        || eq_lit(s, "{home}/appdata") || eq_lit(s, "{home}/appdata/roaming") || eq_lit(
        s,
        "{home}/appdata/local",
    ) || eq_lit(s, "{home}/appdata/locallow") || eq_lit(s, "{home}/appdata/local/programs")
        || eq_lit(s, "{localappdata}/programs") || eq_lit(s, "{home}/documents") || eq_lit(
        s,
        "{home}/documents/my games",
    ) || eq_lit(s, "{documents}/my games") || eq_lit(s, "{home}/my games") || eq_lit(
        s,
        "{home}/saved games",
    ) || eq_lit(s, "{home}/desktop") || eq_lit(s, "{home}/downloads") || eq_lit(
        s,
        "{home}/.config",
    ) || eq_lit(s, "{home}/.local") || eq_lit(s, "{home}/.local/share") || eq_lit(
        s,
        "{home}/.steam",
    ) || eq_lit(s, "{home}/.var") || eq_lit(s, "{home}/.var/app") || eq_lit(
        s,
        "{xdg_config_home}/unity3d",
    ) || eq_lit(s, "{home}/.config/unity3d") || eq_lit(s, "{appdata}/godot") || eq_lit(
        s,
        "{appdata}/godot/app_userdata",
    ) || eq_lit(s, "{xdg_data_home}/godot") || eq_lit(s, "{xdg_data_home}/godot/app_userdata")
        || eq_lit(s, "{steam_userdata}")
}

/// Trailing slashes removed, keeping at least one character.
pub open spec fn strip_trailing_slashes(s: Seq<char>) -> Seq<char>
    decreases s.len(),
{
    if s.len() > 1 && s.last() == '/' {
        strip_trailing_slashes(s.drop_last())
    } else {
        s
    }
}

/// Every run of slashes made a single slash.
pub open spec fn collapse_slashes(s: Seq<char>) -> Seq<char>
    decreases s.len(),
{
    if s.len() <= 1 {
        s
    } else if s.last() == '/' && s[s.len() - 2] == '/' {
        collapse_slashes(s.drop_last())
    } else {
        collapse_slashes(s.drop_last()).push(s.last())
    }
}

/// Trimmed, with forward slashes, lowercase, without trailing or doubled
/// slashes.
pub open spec fn normalize_spec(template: Seq<char>) -> Seq<char> {
    collapse_slashes(strip_trailing_slashes(str_lowercase(slashes(trim_spec(template)))))
}

fn normalize(template: &[char]) -> (r: Vec<char>)
    ensures
        r@ == normalize_spec(template@),
{
    let trimmed = trim_chars(template);
    let forward = to_slashes(&trimmed);
    let forward_text = crate::text::string_of(&forward);
    let lower_text = lowercase(forward_text.as_str());
    let mut text = chars_of(lower_text.as_str());
    while text.len() > 1 && text[text.len() - 1] == '/'
        invariant
            strip_trailing_slashes(text@) == strip_trailing_slashes(str_lowercase(slashes(trim_spec(template@)))),
        decreases text.len(),
    {
        text.pop();
    }
    let mut out: Vec<char> = Vec::new();
    let mut i: usize = 0;
    while i < text.len()
        invariant
            i <= text.len(),
            out@ == collapse_slashes(text@.take(i as int)),
        decreases text.len() - i,
    {
        let c = text[i];
        let ghost t1 = text@.take(i + 1);
        assert(t1.drop_last() == text@.take(i as int));
        if !(c == '/' && i > 0 && text[i - 1] == '/') {
            out.push(c);
        }
        proof {
            if i > 0 {
                assert(t1[t1.len() - 2] == text@[i - 1]);
            }
        }
        i = i + 1;
    }
    assert(text@.take(text.len() as int) == text@);
    out
}

/// Whether a normalized template names a broad folder.
pub open spec fn broad_folder_normalized(n: Seq<char>) -> bool {
    let segs = segments(n);
    n.len() == 0 || n == seq!['/'] || (segs.len() == 1 && segs[0].len() > 0 && segs[0][0] == '{')
        || (n.len() > 0 && n[0] == '/' && segs.len() <= 1) || is_shared(n)
}

/// Whether a template names a broad folder itself.
pub open spec fn is_broad_folder_spec(template: Seq<char>) -> bool {
    broad_folder_normalized(normalize_spec(template))
}

fn broad_folder_chars(template: &[char]) -> (r: bool)
    ensures
        r == is_broad_folder_spec(template@),
{
    let normalized = normalize(template);
    if normalized.len() == 0 || (normalized.len() == 1 && normalized[0] == '/') {
        proof {
            if normalized.len() == 1 {
                assert(normalized@ == seq!['/']);
            }
        }
        return true;
    }
    assert(normalized@ != seq!['/']);
    let segs = split_segments(&normalized);
    if segs.len() == 1 && segs[0].len() > 0 && segs[0][0] == '{' {
        assert(views(segs@)[0] == segs@[0]@);
        return true;
    }
    proof {
        if segments(normalized@).len() == 1 {
            assert(views(segs@)[0] == segs@[0]@);
        }
    }
    if normalized[0] == '/' && segs.len() <= 1 {
        return true;
    }
    shared(&normalized)
}

/// Whether a template names a broad folder itself.
pub fn is_broad_folder_template(template: &str) -> (r: bool)
    ensures
        r == is_broad_folder_spec(template@),
{
    let v = chars_of(template);
    broad_folder_chars(&v)
}

/// The index of the first piece with a wildcard, if any.
pub open spec fn first_wildcard(pieces: Seq<Seq<char>>) -> Option<int>
    decreases pieces.len(),
{
    if pieces.len() == 0 {
        None
    } else if has_wildcard_spec(pieces[0]) {
        Some(0)
    } else {
        match first_wildcard(pieces.drop_first()) {
            Some(i) => Some(i + 1),
            None => None,
        }
    }
}

proof fn lemma_first_wildcard(pieces: Seq<Seq<char>>)
    ensures
        match first_wildcard(pieces) {
            Some(i) => 0 <= i < pieces.len() && has_wildcard_spec(pieces[i]) && forall|k: int|
                0 <= k < i ==> !has_wildcard_spec(#[trigger] pieces[k]),
            None => forall|k: int| 0 <= k < pieces.len() ==> !has_wildcard_spec(#[trigger] pieces[k]),
        },
    decreases pieces.len(),
{
    if pieces.len() > 0 {
        lemma_first_wildcard(pieces.drop_first());
        assert forall|k: int| 1 <= k < pieces.len() implies pieces[k] == pieces.drop_first()[k - 1] by {
        }
    }
}

/// Whether a save template would take a broad folder whole, or a wildcard
/// directly inside one.
pub open spec fn is_broad_spec(template: Seq<char>) -> bool {
    let normalized = normalize_spec(template);
    let pieces = split_all(normalized, '/');
    match first_wildcard(pieces) {
        None => is_broad_folder_spec(normalized),
        Some(k) => k == 0 || is_broad_folder_spec(join_with(pieces.take(k), '/')),
    }
}

pub fn is_broad_template(template: &str) -> (r: bool)
    ensures
        r == is_broad_spec(template@),
{
    let v = chars_of(template);
    let normalized = normalize(&v);
    let pieces = split_chars(&normalized, '/');
    let ghost pv = char_views(pieces@);
    proof {
        lemma_first_wildcard(pv);
    }
    let mut i: usize = 0;
    while i < pieces.len()
        invariant
            i <= pieces.len(),
            pv == char_views(pieces@),
            pv == split_all(normalized@, '/'),
            normalized@ == normalize_spec(v@),
            v@ == template@,
            forall|k: int| 0 <= k < i ==> !has_wildcard_spec(#[trigger] pv[k]),
        decreases pieces.len() - i,
    {
        assert(pv[i as int] == pieces@[i as int]@);
        if has_wildcard_chars(&pieces[i]) {
            proof {
                lemma_first_wildcard(pv);
                match first_wildcard(pv) {
                    Some(k) => {
                        if k < i {
                            assert(has_wildcard_spec(pv[k]));
                        } else if k > i {
                            assert(!has_wildcard_spec(pv[i as int]));
                        }
                        assert(k == i);
                    },
                    None => {
                        assert(!has_wildcard_spec(pv[i as int]));
                    },
                }
            }
            if i == 0 {
                return true;
            }
            let root = join_chars(&pieces, i, '/');
            return broad_folder_chars(&root);
        }
        i = i + 1;
    }
    proof {
        match first_wildcard(pv) {
            Some(k) => {
                assert(!has_wildcard_spec(pv[k]));
            },
            None => {},
        }
    }
    broad_folder_chars(&normalized)
}

// ---- laws ------------------------------------------------------------------

proof fn lemma_slash_keeps_whitespace(c: char)
    ensures
        is_whitespace_spec(backslash_to_slash(c)) == is_whitespace_spec(c),
{
    if c == '\\' {
        assert(('\\' as u32) == 92);
        assert(('/' as u32) == 47);
    }
}

proof fn lemma_lead_ws_slashes(s: Seq<char>)
    ensures
        lead_ws(slashes(s)) == lead_ws(s),
    decreases s.len(),
{
    if s.len() > 0 {
        lemma_slash_keeps_whitespace(s[0]);
        assert(slashes(s).drop_first() == slashes(s.drop_first()));
        lemma_lead_ws_slashes(s.drop_first());
    }
}

proof fn lemma_trail_ws_slashes(s: Seq<char>)
    ensures
        trail_ws(slashes(s)) == trail_ws(s),
    decreases s.len(),
{
    if s.len() > 0 {
        lemma_slash_keeps_whitespace(s.last());
        assert(slashes(s).drop_last() == slashes(s.drop_last()));
        lemma_trail_ws_slashes(s.drop_last());
    }
}

proof fn lemma_normalize_slashes(t: Seq<char>)
    ensures
        normalize_spec(slashes(t)) == normalize_spec(t),
{
    lemma_lead_ws_slashes(t);
    lemma_lead_ws(t);
    let front = t.skip(lead_ws(t) as int);
    assert(slashes(t).skip(lead_ws(t) as int) =~= slashes(front));
    lemma_trail_ws_slashes(front);
    lemma_trail_ws(front);
    let n = front.len() - trail_ws(front);
    assert(slashes(front).take(n) =~= slashes(front.take(n)));
    assert(trim_spec(slashes(t)) == slashes(trim_spec(t)));
    assert(slashes(slashes(trim_spec(t))) =~= slashes(trim_spec(t)));
}

/// Backslashes read as slashes: writing a template's separators either way
/// leaves both broad answers unchanged.
pub proof fn law_backslashes_read_as_slashes(template: Seq<char>)
    ensures
        is_broad_spec(slashes(template)) == is_broad_spec(template),
        is_broad_folder_spec(slashes(template)) == is_broad_folder_spec(template),
{
    lemma_normalize_slashes(template);
}


// ---- the shared folders --------------------------------------------------------

/// The folders other programs share, as lowercase templates.
pub open spec fn shared_folders() -> Seq<Seq<char>> {
    seq![
        "{home}/library"@,
        "{home}/library/application support"@,
        "{home}/library/group containers"@,
        "{home}/library/containers"@,
        "{home}/library/preferences"@,
        "{home}/library/caches"@,
        "{home}/library/saved application state"@,
        "{home}/appdata"@,
        "{home}/appdata/roaming"@,
        "{home}/appdata/local"@,
        "{home}/appdata/locallow"@,
        "{home}/appdata/local/programs"@,
        "{localappdata}/programs"@,
        "{home}/documents"@,
        "{home}/documents/my games"@,
        "{documents}/my games"@,
        "{home}/my games"@,
        "{home}/saved games"@,
        "{home}/desktop"@,
        "{home}/downloads"@,
        "{home}/.config"@,
        "{home}/.local"@,
        "{home}/.local/share"@,
        "{home}/.steam"@,
        "{home}/.var"@,
        "{home}/.var/app"@,
        "{xdg_config_home}/unity3d"@,
        "{home}/.config/unity3d"@,
        "{appdata}/godot"@,
        "{appdata}/godot/app_userdata"@,
        "{xdg_data_home}/godot"@,
        "{xdg_data_home}/godot/app_userdata"@,
        "{steam_userdata}"@,
    ]
}

/// A shared folder is broad: a template that normalizes to one of the
/// shared folders names a broad folder.
pub proof fn law_a_shared_folder_is_broad(t: Seq<char>, k: int)
    requires
        0 <= k < shared_folders().len(),
        normalize_spec(t) == shared_folders()[k],
    ensures
        is_broad_folder_spec(t),
{
    if k == 0 {
        assert(is_shared("{home}/library"@));
    } else if k == 1 {
        assert(is_shared("{home}/library/application support"@));
    } else if k == 2 {
        assert(is_shared("{home}/library/group containers"@));
    } else if k == 3 {
        assert(is_shared("{home}/library/containers"@));
    } else if k == 4 {
        assert(is_shared("{home}/library/preferences"@));
    } else if k == 5 {
        assert(is_shared("{home}/library/caches"@));
    } else if k == 6 {
        assert(is_shared("{home}/library/saved application state"@));
    } else if k == 7 {
        assert(is_shared("{home}/appdata"@));
    } else if k == 8 {
        assert(is_shared("{home}/appdata/roaming"@));
    } else if k == 9 {
        assert(is_shared("{home}/appdata/local"@));
    } else if k == 10 {
        assert(is_shared("{home}/appdata/locallow"@));
    } else if k == 11 {
        assert(is_shared("{home}/appdata/local/programs"@));
    } else if k == 12 {
        assert(is_shared("{localappdata}/programs"@));
    } else if k == 13 {
        assert(is_shared("{home}/documents"@));
    } else if k == 14 {
        assert(is_shared("{home}/documents/my games"@));
    } else if k == 15 {
        assert(is_shared("{documents}/my games"@));
    } else if k == 16 {
        assert(is_shared("{home}/my games"@));
    } else if k == 17 {
        assert(is_shared("{home}/saved games"@));
    } else if k == 18 {
        assert(is_shared("{home}/desktop"@));
    } else if k == 19 {
        assert(is_shared("{home}/downloads"@));
    } else if k == 20 {
        assert(is_shared("{home}/.config"@));
    } else if k == 21 {
        assert(is_shared("{home}/.local"@));
    } else if k == 22 {
        assert(is_shared("{home}/.local/share"@));
    } else if k == 23 {
        assert(is_shared("{home}/.steam"@));
    } else if k == 24 {
        assert(is_shared("{home}/.var"@));
    } else if k == 25 {
        assert(is_shared("{home}/.var/app"@));
    } else if k == 26 {
        assert(is_shared("{xdg_config_home}/unity3d"@));
    } else if k == 27 {
        assert(is_shared("{home}/.config/unity3d"@));
    } else if k == 28 {
        assert(is_shared("{appdata}/godot"@));
    } else if k == 29 {
        assert(is_shared("{appdata}/godot/app_userdata"@));
    } else if k == 30 {
        assert(is_shared("{xdg_data_home}/godot"@));
    } else if k == 31 {
        assert(is_shared("{xdg_data_home}/godot/app_userdata"@));
    } else if k == 32 {
        assert(is_shared("{steam_userdata}"@));
    }
}

proof fn lemma_split_at_least_one(a: Seq<char>)
    ensures
        split_all(a, '/').len() >= 1,
    decreases a.len(),
{
    match first_index(a, '/') {
        Some(i) => if 0 <= i < a.len() {
            lemma_split_at_least_one(a.skip(i + 1));
        },
        None => {},
    }
}

proof fn lemma_split_append(a: Seq<char>, w: Seq<char>)
    requires
        !w.contains('/'),
    ensures
        split_all(a + seq!['/'] + w, '/') == split_all(a, '/') + seq![w],
    decreases a.len(),
{
    lemma_first_index(a, '/');
    match first_index(a, '/') {
        Some(i) => {
            let head = a.take(i);
            let tail = a.skip(i + 1);
            assert(!head.contains('/'));
            assert(a == head + seq!['/'] + tail);
            assert(a + seq!['/'] + w == head + seq!['/'] + (tail + seq!['/'] + w));
            lemma_split_piece(head, tail + seq!['/'] + w, '/');
            lemma_split_append(tail, w);
            assert(split_all(a, '/') == seq![head] + split_all(tail, '/'));
            assert(seq![head] + (split_all(tail, '/') + seq![w]) == (seq![head] + split_all(tail, '/')) + seq![w]);
        },
        None => {
            lemma_split_piece(a, w, '/');
            lemma_first_index(w, '/');
            assert(split_all(w, '/') == seq![w]);
        },
    }
}

proof fn lemma_split_chars(a: Seq<char>)
    ensures
        forall|k: int, c: char|
            0 <= k < split_all(a, '/').len() && #[trigger] split_all(a, '/')[k].contains(c) ==> a.contains(c),
    decreases a.len(),
{
    lemma_first_index(a, '/');
    match first_index(a, '/') {
        Some(i) => {
            let tail = a.skip(i + 1);
            lemma_split_chars(tail);
            let p = split_all(a, '/');
            assert(p == seq![a.take(i)] + split_all(tail, '/'));
            assert forall|k: int, c: char| 0 <= k < p.len() && #[trigger] p[k].contains(c) implies a.contains(c) by {
                if k == 0 {
                    let j = choose|j: int| 0 <= j < p[0].len() && p[0][j] == c;
                    assert(a[j] == c);
                } else {
                    assert(p[k] == split_all(tail, '/')[k - 1]);
                    assert(tail.contains(c));
                    let j = choose|j: int| 0 <= j < tail.len() && tail[j] == c;
                    assert(a[i + 1 + j] == c);
                }
            }
        },
        None => {},
    }
}

proof fn lemma_join_front(h: Seq<char>, rest: Seq<Seq<char>>)
    requires
        rest.len() > 0,
    ensures
        join_with(seq![h] + rest, '/') == h.push('/') + join_with(rest, '/'),
    decreases rest.len(),
{
    let all = seq![h] + rest;
    assert(all.len() >= 2);
    assert(all.drop_last() == seq![h] + rest.drop_last());
    assert(all.last() == rest.last());
    assert(join_with(all, '/') == join_with(all.drop_last(), '/').push('/') + all.last());
    if rest.len() == 1 {
        assert(all.drop_last() == seq![h]);
        assert(join_with(seq![h], '/') == h);
        assert(join_with(rest, '/') == rest[0]);
        assert(rest.last() == rest[0]);
        assert(h.push('/') + rest[0] =~= h.push('/') + rest[0]);
    } else {
        lemma_join_front(h, rest.drop_last());
        let x = h.push('/');
        let y = join_with(rest.drop_last(), '/');
        assert(join_with(rest, '/') == y.push('/') + rest.last());
        assert((x + y).push('/') + rest.last() =~= x + (y.push('/') + rest.last()));
    }
}

/// Splitting at `/` and joining again gives the text back.
proof fn lemma_join_split(a: Seq<char>)
    ensures
        join_with(split_all(a, '/'), '/') == a,
    decreases a.len(),
{
    lemma_first_index(a, '/');
    match first_index(a, '/') {
        Some(i) => {
            let head = a.take(i);
            let tail = a.skip(i + 1);
            lemma_join_split(tail);
            lemma_split_at_least_one(tail);
            lemma_join_front(head, split_all(tail, '/'));
            assert(a == head.push('/') + tail);
        },
        None => {},
    }
}

proof fn lemma_first_wildcard_after(a: Seq<Seq<char>>, w: Seq<char>)
    requires
        forall|k: int| 0 <= k < a.len() ==> !has_wildcard_spec(#[trigger] a[k]),
        has_wildcard_spec(w),
    ensures
        first_wildcard(a + seq![w]) == Some(a.len() as int),
    decreases a.len(),
{
    if a.len() == 0 {
        assert(seq![w] == Seq::<Seq<char>>::empty() + seq![w]);
        assert((a + seq![w])[0] == w);
    } else {
        assert((a + seq![w]).drop_first() == a.drop_first() + seq![w]);
        assert((a + seq![w])[0] == a[0]);
        assert forall|k: int| 0 <= k < a.drop_first().len() implies !has_wildcard_spec(#[trigger] a.drop_first()[k]) by {
            assert(a.drop_first()[k] == a[k + 1]);
        }
        lemma_first_wildcard_after(a.drop_first(), w);
    }
}

proof fn lemma_wildcard_in_shared(t: Seq<char>, e: Seq<char>, w: Seq<char>)
    requires
        !has_wildcard_spec(e),
        is_shared(e),
        normalize_spec(e) == e,
        has_wildcard_spec(w),
        !w.contains('/'),
        normalize_spec(t) == e + "/"@ + w,
    ensures
        is_broad_spec(t),
{
    reveal_strlit("/");
    assert(e + "/"@ + w == e + seq!['/'] + w);
    lemma_split_append(e, w);
    let a = split_all(e, '/');
    lemma_split_chars(e);
    assert forall|k: int| 0 <= k < a.len() implies !has_wildcard_spec(#[trigger] a[k]) by {
        if a[k].contains('*') { assert(e.contains('*')); }
        if a[k].contains('?') { assert(e.contains('?')); }
        if a[k].contains('[') { assert(e.contains('[')); }
    }
    lemma_first_wildcard_after(a, w);
    lemma_split_at_least_one(e);
    assert((a + seq![w]).take(a.len() as int) == a);
    lemma_join_split(e);
}

/// A wildcard directly inside a shared folder is broad: a template that
/// normalizes to a shared folder, `/` and a name holding a wildcard covers
/// that folder's contents. (Normalizing a shared folder, already written in
/// lowercase, gives it back.)
pub proof fn law_a_wildcard_inside_a_shared_folder_is_broad(t: Seq<char>, k: int, w: Seq<char>)
    requires
        0 <= k < shared_folders().len(),
        has_wildcard_spec(w),
        !w.contains('/'),
        normalize_spec(t) == shared_folders()[k] + "/"@ + w,
        normalize_spec(shared_folders()[k]) == shared_folders()[k],
    ensures
        is_broad_spec(t),
{
    if k == 0 {
        reveal_strlit("{home}/library");
        lemma_wildcard_in_shared(t, "{home}/library"@, w);
    } else if k == 1 {
        reveal_strlit("{home}/library/application support");
        lemma_wildcard_in_shared(t, "{home}/library/application support"@, w);
    } else if k == 2 {
        reveal_strlit("{home}/library/group containers");
        lemma_wildcard_in_shared(t, "{home}/library/group containers"@, w);
    } else if k == 3 {
        reveal_strlit("{home}/library/containers");
        lemma_wildcard_in_shared(t, "{home}/library/containers"@, w);
    } else if k == 4 {
        reveal_strlit("{home}/library/preferences");
        lemma_wildcard_in_shared(t, "{home}/library/preferences"@, w);
    } else if k == 5 {
        reveal_strlit("{home}/library/caches");
        lemma_wildcard_in_shared(t, "{home}/library/caches"@, w);
    } else if k == 6 {
        reveal_strlit("{home}/library/saved application state");
        lemma_wildcard_in_shared(t, "{home}/library/saved application state"@, w);
    } else if k == 7 {
        reveal_strlit("{home}/appdata");
        lemma_wildcard_in_shared(t, "{home}/appdata"@, w);
    } else if k == 8 {
        reveal_strlit("{home}/appdata/roaming");
        lemma_wildcard_in_shared(t, "{home}/appdata/roaming"@, w);
    } else if k == 9 {
        reveal_strlit("{home}/appdata/local");
        lemma_wildcard_in_shared(t, "{home}/appdata/local"@, w);
    } else if k == 10 {
        reveal_strlit("{home}/appdata/locallow");
        lemma_wildcard_in_shared(t, "{home}/appdata/locallow"@, w);
    } else if k == 11 {
        reveal_strlit("{home}/appdata/local/programs");
        lemma_wildcard_in_shared(t, "{home}/appdata/local/programs"@, w);
    } else if k == 12 {
        reveal_strlit("{localappdata}/programs");
        lemma_wildcard_in_shared(t, "{localappdata}/programs"@, w);
    } else if k == 13 {
        reveal_strlit("{home}/documents");
        lemma_wildcard_in_shared(t, "{home}/documents"@, w);
    } else if k == 14 {
        reveal_strlit("{home}/documents/my games");
        lemma_wildcard_in_shared(t, "{home}/documents/my games"@, w);
    } else if k == 15 {
        reveal_strlit("{documents}/my games");
        lemma_wildcard_in_shared(t, "{documents}/my games"@, w);
    } else if k == 16 {
        reveal_strlit("{home}/my games");
        lemma_wildcard_in_shared(t, "{home}/my games"@, w);
    } else if k == 17 {
        reveal_strlit("{home}/saved games");
        lemma_wildcard_in_shared(t, "{home}/saved games"@, w);
    } else if k == 18 {
        reveal_strlit("{home}/desktop");
        lemma_wildcard_in_shared(t, "{home}/desktop"@, w);
    } else if k == 19 {
        reveal_strlit("{home}/downloads");
        lemma_wildcard_in_shared(t, "{home}/downloads"@, w);
    } else if k == 20 {
        reveal_strlit("{home}/.config");
        lemma_wildcard_in_shared(t, "{home}/.config"@, w);
    } else if k == 21 {
        reveal_strlit("{home}/.local");
        lemma_wildcard_in_shared(t, "{home}/.local"@, w);
    } else if k == 22 {
        reveal_strlit("{home}/.local/share");
        lemma_wildcard_in_shared(t, "{home}/.local/share"@, w);
    } else if k == 23 {
        reveal_strlit("{home}/.steam");
        lemma_wildcard_in_shared(t, "{home}/.steam"@, w);
    } else if k == 24 {
        reveal_strlit("{home}/.var");
        lemma_wildcard_in_shared(t, "{home}/.var"@, w);
    } else if k == 25 {
        reveal_strlit("{home}/.var/app");
        lemma_wildcard_in_shared(t, "{home}/.var/app"@, w);
    } else if k == 26 {
        reveal_strlit("{xdg_config_home}/unity3d");
        lemma_wildcard_in_shared(t, "{xdg_config_home}/unity3d"@, w);
    } else if k == 27 {
        reveal_strlit("{home}/.config/unity3d");
        lemma_wildcard_in_shared(t, "{home}/.config/unity3d"@, w);
    } else if k == 28 {
        reveal_strlit("{appdata}/godot");
        lemma_wildcard_in_shared(t, "{appdata}/godot"@, w);
    } else if k == 29 {
        reveal_strlit("{appdata}/godot/app_userdata");
        lemma_wildcard_in_shared(t, "{appdata}/godot/app_userdata"@, w);
    } else if k == 30 {
        reveal_strlit("{xdg_data_home}/godot");
        lemma_wildcard_in_shared(t, "{xdg_data_home}/godot"@, w);
    } else if k == 31 {
        reveal_strlit("{xdg_data_home}/godot/app_userdata");
        lemma_wildcard_in_shared(t, "{xdg_data_home}/godot/app_userdata"@, w);
    } else if k == 32 {
        reveal_strlit("{steam_userdata}");
        lemma_wildcard_in_shared(t, "{steam_userdata}"@, w);
    }
}

/// Whole placeholders and roots are broad: a template that normalizes to
/// nothing, to `/`, to a single `{...}`-led name, or to a single name right
/// under `/` names a broad folder.
pub proof fn law_roots_and_bare_placeholders_are_broad(t: Seq<char>)
    requires
        ({
            let n = normalize_spec(t);
            ||| n.len() == 0
            ||| n == seq!['/']
            ||| (n.len() > 0 && n[0] == '{' && !n.contains('/'))
            ||| (n.len() > 1 && n[0] == '/' && !n.drop_first().contains('/'))
        }),
    ensures
        is_broad_folder_spec(t),
{
    let n = normalize_spec(t);
    if n.len() > 0 && n[0] == '{' && !n.contains('/') {
        lemma_segments_plain(n);
    } else if n.len() > 1 && n[0] == '/' && !n.drop_first().contains('/') && n != seq!['/'] {
        lemma_first_index(n, '/');
        assert(n.skip(1) == n.drop_first());
        lemma_segments_plain(n.drop_first());
        assert(Seq::<Seq<char>>::empty() + segments(n.drop_first()) == segments(n.drop_first()));
    }
}

} // verus!
