//! Identity derivation: store-based ids are stable across upstream renames,
//! so history, overrides and checkpoints survive catalog updates.

use vstd::prelude::*;
use crate::model::{Detect, IdList};
use crate::text::{
    chars_of, decimal, decimal_of, is_ascii_alphanumeric, is_ascii_alphanumeric_spec, push_all,
    push_str, string_of, to_ascii_lowercase, to_ascii_lowercase_spec, trim_chars, trim_spec,
};

verus! {

/// The slug while the name is read: the text so far and whether it ends in a
/// separator just added.
pub open spec fn slug_state(name: Seq<char>) -> (Seq<char>, bool)
    decreases name.len(),
{
    if name.len() == 0 {
        (Seq::empty(), false)
    } else {
        let (text, dash) = slug_state(name.drop_last());
        let c = name.last();
        if is_ascii_alphanumeric_spec(c) {
            (text.push(to_ascii_lowercase_spec(c)), false)
        } else if !dash && text.len() > 0 {
            (text.push('-'), true)
        } else {
            (text, dash)
        }
    }
}

/// `trim_matches('-')`.
pub open spec fn trim_dashes(s: Seq<char>) -> Seq<char>
    decreases s.len(),
{
    if s.len() > 0 && s[0] == '-' {
        trim_dashes(s.drop_first())
    } else if s.len() > 0 && s.last() == '-' {
        trim_dashes(s.drop_last())
    } else {
        s
    }
}

/// The name lowercased to ASCII letters and digits, every run of other
/// characters one `-`, no `-` at either end; `game` when nothing is left.
pub open spec fn slug_spec(name: Seq<char>) -> Seq<char> {
    let s = trim_dashes(slug_state(name).0);
    if s.len() == 0 {
        "game"@
    } else {
        s
    }
}

fn trim_dash_chars(v: &Vec<char>) -> (r: Vec<char>)
    ensures
        r@ == trim_dashes(v@),
{
    let mut start: usize = 0;
    let mut end: usize = v.len();
    assert(v@.subrange(0, v.len() as int) == v@);
    while start < end && (v[start] == '-' || v[end - 1] == '-')
        invariant
            start <= end <= v.len(),
            trim_dashes(v@) == trim_dashes(v@.subrange(start as int, end as int)),
        decreases end - start,
    {
        let ghost s = v@.subrange(start as int, end as int);
        if v[start] == '-' {
            assert(s.drop_first() == v@.subrange(start + 1, end as int));
            start = start + 1;
        } else {
            assert(s.drop_last() == v@.subrange(start as int, end - 1));
            end = end - 1;
        }
    }
    slice_chars_of(v, start, end)
}

fn slice_chars_of(v: &Vec<char>, from: usize, to: usize) -> (r: Vec<char>)
    requires
        from <= to <= v.len(),
    ensures
        r@ == v@.subrange(from as int, to as int),
{
    crate::text::slice_chars(v.as_slice(), from, to)
}

/// A slug of the name: lowercase ASCII letters and digits joined by single
/// dashes.
pub fn slug(name: &str) -> (r: String)
    ensures
        r@ == slug_spec(name@),
{
    let v = chars_of(name);
    let mut out: Vec<char> = Vec::new();
    let mut dash = false;
    let mut i: usize = 0;
    while i < v.len()
        invariant
            i <= v.len(),
            (out@, dash) == slug_state(v@.take(i as int)),
        decreases v.len() - i,
    {
        assert(v@.take(i + 1).drop_last() == v@.take(i as int));
        assert(v@.take(i + 1).last() == v@[i as int]);
        let c = v[i];
        if is_ascii_alphanumeric(c) {
            out.push(to_ascii_lowercase(c));
            dash = false;
        } else if !dash && out.len() > 0 {
            out.push('-');
            dash = true;
        }
        i = i + 1;
    }
    assert(v@.take(v.len() as int) == v@);
    let trimmed = trim_dash_chars(&out);
    if trimmed.len() == 0 {
        string_of(&chars_of("game"))
    } else {
        string_of(&trimmed)
    }
}

/// The first id of an optional list.
pub open spec fn first_id(ids: Option<IdList>) -> Option<u64> {
    match ids {
        Some(l) => if l.0@.len() > 0 {
            Some(l.0@[0])
        } else {
            None
        },
        None => None,
    }
}

/// `steam-<id>`, else `gog-<id>`, else the trimmed addendum id, else a slug
/// of the name.
pub open spec fn derive_spec(name: Seq<char>, detect: Detect, addendum_id: Option<Seq<char>>) -> Seq<
    char,
> {
    if first_id(detect.steam) is Some {
        "steam-"@ + decimal(first_id(detect.steam)->0 as nat)
    } else if first_id(detect.gog) is Some {
        "gog-"@ + decimal(first_id(detect.gog)->0 as nat)
    } else if addendum_id is Some && trim_spec(addendum_id->0).len() > 0 {
        trim_spec(addendum_id->0)
    } else {
        slug_spec(name)
    }
}

fn first_of(ids: &Option<IdList>) -> (r: Option<u64>)
    ensures
        r == first_id(*ids),
{
    match ids {
        Some(l) => l.first(),
        None => None,
    }
}

/// The catalog id of a game.
pub fn derive(name: &str, detect: &Detect, addendum_id: Option<&str>) -> (r: String)
    ensures
        r@ == derive_spec(
            name@,
            *detect,
            match addendum_id {
                Some(a) => Some(a@),
                None => None,
            },
        ),
{
    if let Some(id) = first_of(&detect.steam) {
        let mut out = chars_of("steam-");
        push_all(&mut out, &decimal_of(id));
        return string_of(&out);
    }
    if let Some(id) = first_of(&detect.gog) {
        let mut out = chars_of("gog-");
        push_all(&mut out, &decimal_of(id));
        return string_of(&out);
    }
    if let Some(id) = addendum_id {
        let trimmed = trim_chars(&chars_of(id));
        if trimmed.len() > 0 {
            return string_of(&trimmed);
        }
    }
    slug(name)
}


// ---- the shape of a slug ---------------------------------------------------

/// A slug character: a lowercase ASCII letter, a digit or `-`.
pub open spec fn slug_char(c: char) -> bool {
    ('a' <= c && c <= 'z') || ('0' <= c && c <= '9') || c == '-'
}

/// Only slug characters, and no two dashes in a row.
pub open spec fn well_dashed(s: Seq<char>) -> bool {
    &&& forall|i: int| 0 <= i < s.len() ==> slug_char(#[trigger] s[i])
    &&& forall|i: int| 0 <= i < s.len() - 1 ==> !(#[trigger] s[i] == '-' && s[i + 1] == '-')
}

proof fn lemma_slug_state(name: Seq<char>)
    ensures
        well_dashed(slug_state(name).0),
        slug_state(name).0.len() > 0 ==> slug_state(name).0[0] != '-',
        slug_state(name).1 <==> (slug_state(name).0.len() > 0 && slug_state(name).0.last() == '-'),
    decreases name.len(),
{
    if name.len() > 0 {
        lemma_slug_state(name.drop_last());
        let (text, dash) = slug_state(name.drop_last());
        let c = name.last();
        let next = slug_state(name).0;
        if is_ascii_alphanumeric_spec(c) {
            let l = to_ascii_lowercase_spec(c);
            assert(slug_char(l) && l != '-');
            assert(next == text.push(l));
            assert forall|i: int| 0 <= i < next.len() implies slug_char(#[trigger] next[i]) by {
                if i < text.len() {
                    assert(next[i] == text[i]);
                }
            }
            assert forall|i: int| 0 <= i < next.len() - 1 implies !(#[trigger] next[i] == '-' && next[i + 1] == '-') by {
                assert(next[i] == text[i]);
                if i + 1 < text.len() {
                    assert(next[i + 1] == text[i + 1]);
                }
            }
        } else if !dash && text.len() > 0 {
            assert(next == text.push('-'));
            assert forall|i: int| 0 <= i < next.len() implies slug_char(#[trigger] next[i]) by {
                if i < text.len() {
                    assert(next[i] == text[i]);
                }
            }
            assert forall|i: int| 0 <= i < next.len() - 1 implies !(#[trigger] next[i] == '-' && next[i + 1] == '-') by {
                assert(next[i] == text[i]);
                if i + 1 < text.len() {
                    assert(next[i + 1] == text[i + 1]);
                } else {
                    assert(text.last() != '-');
                }
            }
        }
    }
}

proof fn lemma_trim_dashes(s: Seq<char>)
    requires
        well_dashed(s),
    ensures
        well_dashed(trim_dashes(s)),
        trim_dashes(s).len() > 0 ==> trim_dashes(s)[0] != '-' && trim_dashes(s).last() != '-',
    decreases s.len(),
{
    if s.len() > 0 && s[0] == '-' {
        let t = s.drop_first();
        assert forall|i: int| 0 <= i < t.len() implies slug_char(#[trigger] t[i]) by {
            assert(t[i] == s[i + 1]);
        }
        assert forall|i: int| 0 <= i < t.len() - 1 implies !(#[trigger] t[i] == '-' && t[i + 1] == '-') by {
            assert(t[i] == s[i + 1]);
            assert(t[i + 1] == s[i + 2]);
        }
        lemma_trim_dashes(t);
    } else if s.len() > 0 && s.last() == '-' {
        let t = s.drop_last();
        assert forall|i: int| 0 <= i < t.len() implies slug_char(#[trigger] t[i]) by {
            assert(t[i] == s[i]);
        }
        assert forall|i: int| 0 <= i < t.len() - 1 implies !(#[trigger] t[i] == '-' && t[i + 1] == '-') by {
            assert(t[i] == s[i]);
            assert(t[i + 1] == s[i + 1]);
        }
        lemma_trim_dashes(t);
    }
}

/// A slug is never empty, holds only lowercase ASCII letters, digits and
/// dashes, never two dashes in a row, and neither starts nor ends with one.
pub proof fn law_slug_shape(name: Seq<char>)
    ensures
        slug_spec(name).len() > 0,
        well_dashed(slug_spec(name)),
        slug_spec(name)[0] != '-',
        slug_spec(name).last() != '-',
{
    lemma_slug_state(name);
    lemma_trim_dashes(slug_state(name).0);
    reveal_strlit("game");
    let g = "game"@;
    assert(g.len() == 4);
    assert forall|i: int| 0 <= i < g.len() implies slug_char(#[trigger] g[i]) by {}
}


/// The name's ASCII letters and digits, lowercased, in order.
pub open spec fn alnum_lower(name: Seq<char>) -> Seq<char>
    decreases name.len(),
{
    if name.len() == 0 {
        Seq::empty()
    } else {
        let prev = alnum_lower(name.drop_last());
        if is_ascii_alphanumeric_spec(name.last()) {
            prev.push(to_ascii_lowercase_spec(name.last()))
        } else {
            prev
        }
    }
}

/// The text without its dashes.
pub open spec fn undash(s: Seq<char>) -> Seq<char>
    decreases s.len(),
{
    if s.len() == 0 {
        Seq::empty()
    } else if s.last() == '-' {
        undash(s.drop_last())
    } else {
        undash(s.drop_last()).push(s.last())
    }
}

proof fn lemma_undash_state(name: Seq<char>)
    ensures
        undash(slug_state(name).0) == alnum_lower(name),
        slug_state(name).0.len() == 0 <==> alnum_lower(name).len() == 0,
    decreases name.len(),
{
    if name.len() > 0 {
        lemma_undash_state(name.drop_last());
        let (text, dash) = slug_state(name.drop_last());
        let c = name.last();
        if is_ascii_alphanumeric_spec(c) {
            let l = to_ascii_lowercase_spec(c);
            assert(l != '-');
            assert(text.push(l).drop_last() == text);
        } else if !dash && text.len() > 0 {
            assert(text.push('-').drop_last() == text);
        }
    }
}

proof fn lemma_undash_first(s: Seq<char>)
    requires
        s.len() > 0,
    ensures
        undash(s) == (if s[0] == '-' {
            Seq::<char>::empty()
        } else {
            seq![s[0]]
        }) + undash(s.drop_first()),
    decreases s.len(),
{
    let head = if s[0] == '-' {
        Seq::<char>::empty()
    } else {
        seq![s[0]]
    };
    if s.len() == 1 {
        assert(s.drop_last().len() == 0);
        assert(s.drop_first().len() == 0);
        assert(undash(s.drop_last()) =~= Seq::<char>::empty());
        assert(undash(s.drop_first()) =~= Seq::<char>::empty());
        assert(s.last() == s[0]);
        assert(undash(s) =~= head + undash(s.drop_first()));
    } else {
        lemma_undash_first(s.drop_last());
        assert(s.drop_last()[0] == s[0]);
        assert(s.drop_first().drop_last() == s.drop_last().drop_first());
        assert(s.drop_first().last() == s.last());
        if s.last() == '-' {
            assert(undash(s) == undash(s.drop_last()));
        } else {
            assert(undash(s) =~= head + undash(s.drop_first()));
        }
    }
}

proof fn lemma_undash_trim(s: Seq<char>)
    ensures
        undash(trim_dashes(s)) == undash(s),
    decreases s.len(),
{
    if s.len() > 0 && s[0] == '-' {
        lemma_undash_trim(s.drop_first());
        lemma_undash_first(s);
        assert(Seq::<char>::empty() + undash(s.drop_first()) == undash(s.drop_first()));
    } else if s.len() > 0 && s.last() == '-' {
        lemma_undash_trim(s.drop_last());
    }
}

/// Apart from its dashes, a slug holds exactly the name's ASCII letters and
/// digits, lowercased, in order; a name without any gets `game`.
pub proof fn law_slug_content(name: Seq<char>)
    ensures
        alnum_lower(name).len() == 0 ==> slug_spec(name) == "game"@,
        alnum_lower(name).len() > 0 ==> undash(slug_spec(name)) == alnum_lower(name),
{
    lemma_undash_state(name);
    lemma_slug_state(name);
    let text = slug_state(name).0;
    lemma_trim_dashes(text);
    lemma_undash_trim(text);
    let t = trim_dashes(text);
    if alnum_lower(name).len() == 0 {
        assert(text.len() == 0);
        assert(t.len() == 0);
    } else {
        if t.len() == 0 {
            assert(undash(t) =~= Seq::<char>::empty());
        }
        assert(t.len() > 0);
    }
}


/// The ids a list holds; none when there is no list.
pub open spec fn listed(ids: Option<IdList>) -> Seq<u64> {
    match ids {
        Some(l) => l.0@,
        None => Seq::empty(),
    }
}

/// A game with Steam ids is named after the first of them: `steam-` and
/// that id in decimal, whatever else is known of it.
pub proof fn law_the_first_steam_id_names_the_game(name: Seq<char>, detect: Detect, addendum_id: Option<Seq<char>>)
    requires
        listed(detect.steam).len() > 0,
    ensures
        derive_spec(name, detect, addendum_id) == "steam-"@ + decimal(listed(detect.steam)[0] as nat),
{
}

/// Without a Steam id, a game with GOG ids is named after the first of
/// them: `gog-` and that id in decimal.
pub proof fn law_the_first_gog_id_names_a_game_without_steam_ids(
    name: Seq<char>,
    detect: Detect,
    addendum_id: Option<Seq<char>>,
)
    requires
        listed(detect.steam).len() == 0,
        listed(detect.gog).len() > 0,
    ensures
        derive_spec(name, detect, addendum_id) == "gog-"@ + decimal(listed(detect.gog)[0] as nat),
{
}


/// Without Steam or GOG ids, an addendum id with no surrounding whitespace
/// names the game as it is.
pub proof fn law_an_addendum_id_names_a_game_without_store_ids(name: Seq<char>, detect: Detect, a: Seq<char>)
    requires
        listed(detect.steam).len() == 0,
        listed(detect.gog).len() == 0,
        a.len() > 0,
        !crate::text::is_whitespace_spec(a[0]),
        !crate::text::is_whitespace_spec(a[a.len() - 1]),
    ensures
        derive_spec(name, detect, Some(a)) == a,
{
    assert(crate::text::lead_ws(a) == 0);
    assert(a.skip(0) == a);
    assert(crate::text::trail_ws(a) == 0);
    assert(a.take(a.len() as int) == a);
}

/// Without Steam ids, GOG ids or an addendum id, the game is named by the
/// slug of its name.
pub proof fn law_a_game_without_ids_is_named_by_its_slug(name: Seq<char>, detect: Detect)
    requires
        listed(detect.steam).len() == 0,
        listed(detect.gog).len() == 0,
    ensures
        derive_spec(name, detect, None) == slug_spec(name),
{
}

} // verus!
