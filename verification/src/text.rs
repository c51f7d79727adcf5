//! Text helpers shared by every module: conversion between `str`/`String`
//! and character vectors, ASCII and whitespace classification, trimming and
//! the small sequence predicates the contracts are written in.

use vstd::prelude::*;

verus! {

pub assume_specification[ String::push ](s: &mut String, ch: char)
    ensures
        final(s)@ == old(s)@.push(ch),
;

/// The characters of a string, in order.
pub fn chars_of(s: &str) -> (v: Vec<char>)
    ensures
        v@ == s@,
{
    let mut v: Vec<char> = Vec::new();
    for c in it: s.chars()
        invariant
            v@ == it.seq().take(it.index() as int),
    {
        v.push(c);
    }
    v
}

/// A string holding exactly the given characters.
pub fn string_of(v: &[char]) -> (s: String)
    ensures
        s@ == v@,
{
    let mut s = String::new();
    let mut i: usize = 0;
    while i < v.len()
        invariant
            i <= v.len(),
            s@ == v@.take(i as int),
        decreases v.len() - i,
    {
        s.push(v[i]);
        i = i + 1;
        assert(s@ == v@.take(i as int));
    }
    assert(v@.take(v.len() as int) == v@);
    s
}

/// Appends the characters of `s` to `out`.
pub fn push_str(out: &mut Vec<char>, s: &str)
    ensures
        final(out)@ == old(out)@ + s@,
{
    let v = chars_of(s);
    push_all(out, &v);
}

/// Appends `v` to `out`.
pub fn push_all(out: &mut Vec<char>, v: &[char])
    ensures
        final(out)@ == old(out)@ + v@,
{
    let ghost start = out@;
    let mut i: usize = 0;
    while i < v.len()
        invariant
            i <= v.len(),
            out@ == start + v@.take(i as int),
        decreases v.len() - i,
    {
        out.push(v[i]);
        i = i + 1;
        assert(out@ == start + v@.take(i as int));
    }
    assert(v@.take(v.len() as int) == v@);
}

/// Whether two character sequences are equal.
pub fn chars_eq(a: &[char], b: &[char]) -> (r: bool)
    ensures
        r == (a@ == b@),
{
    if a.len() != b.len() {
        return false;
    }
    let mut i: usize = 0;
    while i < a.len()
        invariant
            i <= a.len(),
            a@.len() == b@.len(),
            a@.take(i as int) == b@.take(i as int),
        decreases a.len() - i,
    {
        if a[i] != b[i] {
            assert(a@[i as int] != b@[i as int]);
            return false;
        }
        i = i + 1;
        assert(a@.take(i as int) == b@.take(i as int));
    }
    assert(a@ == a@.take(a.len() as int));
    assert(b@ == b@.take(b.len() as int));
    true
}

/// Whether the characters equal the literal `s`.
pub fn eq_lit(a: &[char], s: &str) -> (r: bool)
    ensures
        r == (a@ == s@),
{
    let b = chars_of(s);
    chars_eq(a, &b)
}

// ---- sequence predicates ---------------------------------------------------

pub open spec fn starts_with(s: Seq<char>, prefix: Seq<char>) -> bool {
    prefix.len() <= s.len() && s.take(prefix.len() as int) == prefix
}

pub open spec fn ends_with(s: Seq<char>, suffix: Seq<char>) -> bool {
    suffix.len() <= s.len() && s.skip(s.len() - suffix.len()) == suffix
}

/// Whether `needle` occurs in `s` at position `i`.
pub open spec fn occurs_at(s: Seq<char>, needle: Seq<char>, i: int) -> bool {
    0 <= i && i + needle.len() <= s.len() && s.subrange(i, i + needle.len()) == needle
}

pub open spec fn contains_seq(s: Seq<char>, needle: Seq<char>) -> bool {
    exists|i: int| #[trigger] occurs_at(s, needle, i)
}

/// The index of the first occurrence of `c` in `s`, if any.
pub open spec fn first_index(s: Seq<char>, c: char) -> Option<int>
    decreases s.len(),
{
    if s.len() == 0 {
        None
    } else if s[0] == c {
        Some(0)
    } else {
        match first_index(s.drop_first(), c) {
            Some(i) => Some(i + 1),
            None => None,
        }
    }
}

/// The index of the last occurrence of `c` in `s`, if any.
pub open spec fn last_index(s: Seq<char>, c: char) -> Option<int>
    decreases s.len(),
{
    if s.len() == 0 {
        None
    } else if s.last() == c {
        Some(s.len() - 1)
    } else {
        last_index(s.drop_last(), c)
    }
}

pub proof fn lemma_first_index(s: Seq<char>, c: char)
    ensures
        match first_index(s, c) {
            Some(i) => 0 <= i < s.len() && s[i] == c && !s.take(i).contains(c),
            None => !s.contains(c),
        },
    decreases s.len(),
{
    if s.len() > 0 {
        lemma_first_index(s.drop_first(), c);
        if s[0] != c {
            match first_index(s.drop_first(), c) {
                Some(i) => {
                    assert(s.take(i + 1) == seq![s[0]] + s.drop_first().take(i));
                },
                None => {
                    assert forall|k: int| 0 <= k < s.len() implies s[k] != c by {
                        if k > 0 {
                            assert(s[k] == s.drop_first()[k - 1]);
                        }
                    }
                },
            }
        }
    }
}

pub proof fn lemma_last_index(s: Seq<char>, c: char)
    ensures
        match last_index(s, c) {
            Some(i) => 0 <= i < s.len() && s[i] == c && !s.skip(i + 1).contains(c),
            None => !s.contains(c),
        },
    decreases s.len(),
{
    if s.len() > 0 {
        lemma_last_index(s.drop_last(), c);
        if s.last() != c {
            match last_index(s.drop_last(), c) {
                Some(i) => {
                    assert(s.skip(i + 1) == s.drop_last().skip(i + 1).push(s.last()));
                },
                None => {
                    assert forall|k: int| 0 <= k < s.len() implies s[k] != c by {
                        if k < s.len() - 1 {
                            assert(s[k] == s.drop_last()[k]);
                        }
                    }
                },
            }
        } else {
            assert(s.skip(s.len() as int) =~= Seq::<char>::empty());
        }
    }
}

/// The position of the first `c` in `v`.
pub fn find_char(v: &[char], c: char) -> (r: Option<usize>)
    ensures
        r matches Some(i) ==> first_index(v@, c) == Some(i as int),
        r is None ==> first_index(v@, c) is None,
{
    let mut i: usize = 0;
    while i < v.len()
        invariant
            i <= v.len(),
            !v@.take(i as int).contains(c),
        decreases v.len() - i,
    {
        if v[i] == c {
            proof {
                lemma_first_index(v@, c);
                match first_index(v@, c) {
                    Some(k) => {
                        if k < i {
                            assert(v@.take(i as int)[k] == c);
                        } else if k > i {
                            assert(v@.take(k)[i as int] == c);
                        }
                    },
                    None => {
                        assert(v@.contains(c));
                    },
                }
            }
            return Some(i);
        }
        assert(v@.take(i + 1) == v@.take(i as int).push(v@[i as int]));
        i = i + 1;
    }
    proof {
        assert(v@.take(v.len() as int) == v@);
        lemma_first_index(v@, c);
        if first_index(v@, c) is Some {
            let k = first_index(v@, c)->0;
            assert(v@.contains(c));
        }
    }
    None
}

/// The position of the last `c` in `v`.
pub fn rfind_char(v: &[char], c: char) -> (r: Option<usize>)
    ensures
        r matches Some(i) ==> last_index(v@, c) == Some(i as int),
        r is None ==> last_index(v@, c) is None,
{
    let mut i: usize = v.len();
    while i > 0
        invariant
            i <= v.len(),
            !v@.skip(i as int).contains(c),
        decreases i,
    {
        if v[i - 1] == c {
            proof {
                lemma_last_index(v@, c);
                match last_index(v@, c) {
                    Some(k) => {
                        if k < i - 1 {
                            assert(v@.skip(k + 1)[i - 1 - (k + 1)] == c);
                        } else if k > i - 1 {
                            assert(v@.skip(i as int)[k - i] == c);
                        }
                    },
                    None => {
                        assert(v@.contains(v@[i - 1]));
                    },
                }
            }
            return Some(i - 1);
        }
        assert(v@.skip(i - 1) == seq![v@[i - 1]] + v@.skip(i as int));
        i = i - 1;
    }
    proof {
        assert(v@.skip(0) == v@);
        lemma_last_index(v@, c);
        if last_index(v@, c) is Some {
            assert(v@.contains(c));
        }
    }
    None
}

/// Whether `c` occurs in `v`.
pub fn has_char(v: &[char], c: char) -> (r: bool)
    ensures
        r == v@.contains(c),
{
    proof {
        lemma_first_index(v@, c);
    }
    find_char(v, c).is_some()
}

/// The characters `v[from..to]`.
pub fn slice_chars(v: &[char], from: usize, to: usize) -> (r: Vec<char>)
    requires
        from <= to <= v.len(),
    ensures
        r@ == v@.subrange(from as int, to as int),
{
    let mut r: Vec<char> = Vec::new();
    let mut i: usize = from;
    while i < to
        invariant
            from <= i <= to <= v.len(),
            r@ == v@.subrange(from as int, i as int),
        decreases to - i,
    {
        r.push(v[i]);
        i = i + 1;
        assert(r@ == v@.subrange(from as int, i as int));
    }
    r
}

/// Whether `v` starts with the characters of `prefix`.
pub fn starts_with_chars(v: &[char], prefix: &[char]) -> (r: bool)
    ensures
        r == starts_with(v@, prefix@),
{
    if prefix.len() > v.len() {
        return false;
    }
    let head = slice_chars(v, 0, prefix.len());
    chars_eq(&head, prefix)
}

/// Whether `v` ends with the characters of `suffix`.
pub fn ends_with_chars(v: &[char], suffix: &[char]) -> (r: bool)
    ensures
        r == ends_with(v@, suffix@),
{
    if suffix.len() > v.len() {
        return false;
    }
    let tail = slice_chars(v, v.len() - suffix.len(), v.len());
    assert(tail@ == v@.skip(v@.len() - suffix@.len()));
    chars_eq(&tail, suffix)
}

/// Whether `needle` occurs at position `i` of `v`.
pub fn occurs_at_exec(v: &[char], needle: &[char], i: usize) -> (r: bool)
    ensures
        r == occurs_at(v@, needle@, i as int),
{
    if i > v.len() || needle.len() > v.len() - i {
        return false;
    }
    let part = slice_chars(v, i, i + needle.len());
    chars_eq(&part, needle)
}

/// Whether `needle` occurs anywhere in `v`.
pub fn contains_chars(v: &[char], needle: &[char]) -> (r: bool)
    ensures
        r == contains_seq(v@, needle@),
{
    let mut i: usize = 0;
    loop
        invariant
            i <= v.len(),
            forall|k: int| 0 <= k < i ==> !occurs_at(v@, needle@, k),
        decreases v.len() - i,
    {
        if occurs_at_exec(v, needle, i) {
            return true;
        }
        if i == v.len() {
            assert forall|k: int| !occurs_at(v@, needle@, k) by {
                if 0 <= k && k < i {
                }
            }
            return false;
        }
        i = i + 1;
    }
}

/// The leftmost position, at or after `i`, where `needle` occurs in `s`.
pub open spec fn find_from(s: Seq<char>, needle: Seq<char>, i: int) -> Option<int>
    decreases s.len() + 1 - i,
{
    if i < 0 || i + needle.len() > s.len() {
        None
    } else if occurs_at(s, needle, i) {
        Some(i)
    } else {
        find_from(s, needle, i + 1)
    }
}

/// `str::find` with a string pattern: the leftmost occurrence of `needle`.
pub open spec fn find_first(s: Seq<char>, needle: Seq<char>) -> Option<int> {
    find_from(s, needle, 0)
}

pub proof fn lemma_find_from(s: Seq<char>, needle: Seq<char>, i: int)
    requires
        0 <= i,
    ensures
        match find_from(s, needle, i) {
            Some(k) => i <= k && k + needle.len() <= s.len() && occurs_at(s, needle, k) && forall|
                j: int,
            | i <= j < k ==> !#[trigger] occurs_at(s, needle, j),
            None => forall|j: int| i <= j ==> !#[trigger] occurs_at(s, needle, j),
        },
    decreases s.len() + 1 - i,
{
    if i + needle.len() <= s.len() && !occurs_at(s, needle, i) {
        lemma_find_from(s, needle, i + 1);
    }
}

/// The leftmost occurrence of `needle` in `v`.
pub fn find_seq(v: &[char], needle: &[char]) -> (r: Option<usize>)
    ensures
        match r {
            Some(k) => find_first(v@, needle@) == Some(k as int) && k + needle.len() <= v.len(),
            None => find_first(v@, needle@) is None,
        },
{
    let mut i: usize = 0;
    loop
        invariant
            i <= v.len(),
            find_first(v@, needle@) == find_from(v@, needle@, i as int),
        decreases v.len() - i,
    {
        if needle.len() > v.len() - i {
            return None;
        }
        if occurs_at_exec(v, needle, i) {
            return Some(i);
        }
        if i == v.len() {
            assert(v@.subrange(i as int, i as int) =~= needle@);
            return None;
        }
        i = i + 1;
    }
}

/// `str::replace(from, to)`: every non-overlapping occurrence of `from`,
/// left to right, replaced by `to`.
pub open spec fn replace_spec(s: Seq<char>, from: Seq<char>, to: Seq<char>) -> Seq<char>
    decreases s.len(),
{
    match find_first(s, from) {
        None => s,
        Some(i) => if 0 <= i && i + from.len() <= s.len() && from.len() > 0 {
            s.take(i) + to + replace_spec(s.skip(i + from.len()), from, to)
        } else {
            s
        },
    }
}

/// `str::replace` for a non-empty pattern.
pub fn replace_all(v: &[char], from: &str, to: &str) -> (r: Vec<char>)
    requires
        from@.len() > 0,
    ensures
        r@ == replace_spec(v@, from@, to@),
{
    let f = chars_of(from);
    let t = chars_of(to);
    let mut out: Vec<char> = Vec::new();
    let mut pos: usize = 0;
    assert(v@.skip(0) == v@);
    loop
        invariant
            pos <= v.len(),
            f@ == from@,
            t@ == to@,
            f@.len() > 0,
            replace_spec(v@, from@, to@) == out@ + replace_spec(v@.skip(pos as int), from@, to@),
        decreases v.len() - pos,
    {
        let rest = slice_chars(v, pos, v.len());
        assert(rest@ == v@.skip(pos as int));
        match find_seq(&rest, &f) {
            None => {
                push_all(&mut out, &rest);
                return out;
            },
            Some(i) => {
                let head = slice_chars(&rest, 0, i);
                let ghost before = out@;
                push_all(&mut out, &head);
                push_all(&mut out, &t);
                assert(rest@.skip(i + f@.len()) == v@.skip(pos + i + f@.len()));
                assert(before + (rest@.take(i as int) + t@ + replace_spec(
                    rest@.skip(i + f@.len()),
                    from@,
                    to@,
                )) == out@ + replace_spec(v@.skip(pos + i + f@.len()), from@, to@));
                pos = pos + i + f.len();
            },
        }
    }
}

// ---- character classes -----------------------------------------------------

/// Unicode `White_Space`, the set `char::is_whitespace` tests.
pub open spec fn is_whitespace_spec(c: char) -> bool {
    let u = c as u32;
    (9 <= u && u <= 13) || u == 32 || u == 0x85 || u == 0xA0 || u == 0x1680 || (0x2000 <= u
        && u <= 0x200A) || u == 0x2028 || u == 0x2029 || u == 0x202F || u == 0x205F || u
        == 0x3000
}

pub fn is_whitespace(c: char) -> (r: bool)
    ensures
        r == is_whitespace_spec(c),
{
    let u = c as u32;
    (9 <= u && u <= 13) || u == 32 || u == 0x85 || u == 0xA0 || u == 0x1680 || (0x2000 <= u
        && u <= 0x200A) || u == 0x2028 || u == 0x2029 || u == 0x202F || u == 0x205F || u
        == 0x3000
}

pub open spec fn is_ascii_alphanumeric_spec(c: char) -> bool {
    ('0' <= c && c <= '9') || ('a' <= c && c <= 'z') || ('A' <= c && c <= 'Z')
}

pub open spec fn is_ascii_hexdigit_spec(c: char) -> bool {
    ('0' <= c && c <= '9') || ('a' <= c && c <= 'f') || ('A' <= c && c <= 'F')
}

pub open spec fn to_ascii_lowercase_spec(c: char) -> char {
    if 'A' <= c && c <= 'Z' {
        ((c as u32) + 32) as char
    } else {
        c
    }
}

pub fn is_ascii_alphanumeric(c: char) -> (r: bool)
    ensures
        r == is_ascii_alphanumeric_spec(c),
{
    ('0' <= c && c <= '9') || ('a' <= c && c <= 'z') || ('A' <= c && c <= 'Z')
}

pub fn is_ascii_hexdigit(c: char) -> (r: bool)
    ensures
        r == is_ascii_hexdigit_spec(c),
{
    ('0' <= c && c <= '9') || ('a' <= c && c <= 'f') || ('A' <= c && c <= 'F')
}

pub fn to_ascii_lowercase(c: char) -> (r: char)
    ensures
        r == to_ascii_lowercase_spec(c),
{
    if 'A' <= c && c <= 'Z' {
        let u = (c as u32) + 32;
        assert(0x61 <= u <= 0x7a);
        char_from_ascii(u)
    } else {
        c
    }
}

/// The character with an ASCII code point.
pub(crate) fn char_from_ascii(u: u32) -> (c: char)
    requires
        u < 128,
    ensures
        c == u as char,
        c as u32 == u,
{
    (u as u8) as char
}

// ---- ASCII-insensitive equality --------------------------------------------

pub open spec fn ascii_lower_seq(s: Seq<char>) -> Seq<char> {
    s.map_values(|c: char| to_ascii_lowercase_spec(c))
}

/// `str::eq_ignore_ascii_case` on character sequences.
pub open spec fn eq_ignore_ascii_case_spec(a: Seq<char>, b: Seq<char>) -> bool {
    ascii_lower_seq(a) == ascii_lower_seq(b)
}

pub fn eq_ignore_ascii_case(a: &[char], b: &[char]) -> (r: bool)
    ensures
        r == eq_ignore_ascii_case_spec(a@, b@),
{
    if a.len() != b.len() {
        assert(ascii_lower_seq(a@).len() != ascii_lower_seq(b@).len());
        return false;
    }
    let mut i: usize = 0;
    while i < a.len()
        invariant
            i <= a.len(),
            a@.len() == b@.len(),
            forall|k: int|
                0 <= k < i ==> to_ascii_lowercase_spec(a@[k]) == to_ascii_lowercase_spec(b@[k]),
        decreases a.len() - i,
    {
        if to_ascii_lowercase(a[i]) != to_ascii_lowercase(b[i]) {
            assert(ascii_lower_seq(a@)[i as int] != ascii_lower_seq(b@)[i as int]);
            return false;
        }
        i = i + 1;
    }
    assert(ascii_lower_seq(a@) =~= ascii_lower_seq(b@));
    true
}

// ---- trimming --------------------------------------------------------------

/// The number of leading whitespace characters.
pub open spec fn lead_ws(s: Seq<char>) -> nat
    decreases s.len(),
{
    if s.len() > 0 && is_whitespace_spec(s[0]) {
        1 + lead_ws(s.drop_first())
    } else {
        0
    }
}

/// The number of trailing whitespace characters.
pub open spec fn trail_ws(s: Seq<char>) -> nat
    decreases s.len(),
{
    if s.len() > 0 && is_whitespace_spec(s.last()) {
        1 + trail_ws(s.drop_last())
    } else {
        0
    }
}

/// `str::trim`: the text without leading and trailing whitespace.
pub open spec fn trim_spec(s: Seq<char>) -> Seq<char> {
    let front = s.skip(lead_ws(s) as int);
    front.take(front.len() - trail_ws(front))
}

pub proof fn lemma_lead_ws(s: Seq<char>)
    ensures
        lead_ws(s) <= s.len(),
        forall|k: int| 0 <= k < lead_ws(s) ==> is_whitespace_spec(#[trigger] s[k]),
        lead_ws(s) < s.len() ==> !is_whitespace_spec(s[lead_ws(s) as int]),
    decreases s.len(),
{
    if s.len() > 0 && is_whitespace_spec(s[0]) {
        lemma_lead_ws(s.drop_first());
        assert forall|k: int| 0 <= k < lead_ws(s) implies is_whitespace_spec(#[trigger] s[k]) by {
            if k > 0 {
                assert(s[k] == s.drop_first()[k - 1]);
            }
        }
    }
}

pub proof fn lemma_trail_ws(s: Seq<char>)
    ensures
        trail_ws(s) <= s.len(),
        forall|k: int|
            s.len() - trail_ws(s) <= k < s.len() ==> is_whitespace_spec(#[trigger] s[k]),
        trail_ws(s) < s.len() ==> !is_whitespace_spec(s[s.len() - trail_ws(s) - 1]),
    decreases s.len(),
{
    if s.len() > 0 && is_whitespace_spec(s.last()) {
        lemma_trail_ws(s.drop_last());
        assert forall|k: int| s.len() - trail_ws(s) <= k < s.len() implies is_whitespace_spec(
            #[trigger] s[k],
        ) by {
            if k < s.len() - 1 {
                assert(s[k] == s.drop_last()[k]);
            }
        }
    }
}

proof fn lemma_lead_ws_unique(s: Seq<char>, n: int)
    requires
        0 <= n <= s.len(),
        forall|k: int| 0 <= k < n ==> is_whitespace_spec(#[trigger] s[k]),
        n < s.len() ==> !is_whitespace_spec(s[n]),
    ensures
        lead_ws(s) == n,
    decreases s.len(),
{
    if n > 0 {
        assert(is_whitespace_spec(s[0]));
        assert forall|k: int| 0 <= k < n - 1 implies is_whitespace_spec(
            #[trigger] s.drop_first()[k],
        ) by {
            assert(s.drop_first()[k] == s[k + 1]);
        }
        if n - 1 < s.len() - 1 {
            assert(s.drop_first()[n - 1] == s[n]);
        }
        lemma_lead_ws_unique(s.drop_first(), n - 1);
    }
}

proof fn lemma_trail_ws_unique(s: Seq<char>, n: int)
    requires
        0 <= n <= s.len(),
        forall|k: int| s.len() - n <= k < s.len() ==> is_whitespace_spec(#[trigger] s[k]),
        n < s.len() ==> !is_whitespace_spec(s[s.len() - n - 1]),
    ensures
        trail_ws(s) == n,
    decreases s.len(),
{
    if n > 0 {
        assert(is_whitespace_spec(s[s.len() - 1]));
        let t = s.drop_last();
        assert forall|k: int| t.len() - (n - 1) <= k < t.len() implies is_whitespace_spec(
            #[trigger] t[k],
        ) by {
            assert(t[k] == s[k]);
        }
        if n - 1 < t.len() {
            assert(t[t.len() - (n - 1) - 1] == s[s.len() - n - 1]);
        }
        lemma_trail_ws_unique(t, n - 1);
    }
}

/// `str::trim`.
pub fn trim_chars(v: &[char]) -> (r: Vec<char>)
    ensures
        r@ == trim_spec(v@),
{
    let mut start: usize = 0;
    while start < v.len() && is_whitespace(v[start])
        invariant
            start <= v.len(),
            forall|k: int| 0 <= k < start ==> is_whitespace_spec(#[trigger] v@[k]),
        decreases v.len() - start,
    {
        start = start + 1;
    }
    proof {
        lemma_lead_ws_unique(v@, start as int);
    }
    let mut end: usize = v.len();
    while end > start && is_whitespace(v[end - 1])
        invariant
            start <= end <= v.len(),
            forall|k: int| end <= k < v.len() ==> is_whitespace_spec(#[trigger] v@[k]),
        decreases end,
    {
        end = end - 1;
    }
    proof {
        let front = v@.skip(start as int);
        let n = (v.len() - end) as int;
        assert forall|k: int| front.len() - n <= k < front.len() implies is_whitespace_spec(
            #[trigger] front[k],
        ) by {
            assert(front[k] == v@[k + start]);
        }
        if n < front.len() {
            assert(front[front.len() - n - 1] == v@[end - 1]);
        }
        lemma_trail_ws_unique(front, n);
        assert(front.take(front.len() - n) == v@.subrange(start as int, end as int));
    }
    slice_chars(v, start, end)
}

/// `str::trim().is_empty()`.
pub fn is_blank(v: &[char]) -> (r: bool)
    ensures
        r == (trim_spec(v@).len() == 0),
{
    let t = trim_chars(v);
    t.len() == 0
}

// ---- replacing -------------------------------------------------------------

pub open spec fn backslash_to_slash(c: char) -> char {
    if c == '\\' {
        '/'
    } else {
        c
    }
}

/// `replace('\\', "/")`.
pub open spec fn slashes(s: Seq<char>) -> Seq<char> {
    s.map_values(|c: char| backslash_to_slash(c))
}

pub fn to_slashes(v: &[char]) -> (r: Vec<char>)
    ensures
        r@ == slashes(v@),
{
    let mut r: Vec<char> = Vec::new();
    let mut i: usize = 0;
    while i < v.len()
        invariant
            i <= v.len(),
            r@ == slashes(v@.take(i as int)),
        decreases v.len() - i,
    {
        let c = if v[i] == '\\' {
            '/'
        } else {
            v[i]
        };
        r.push(c);
        i = i + 1;
        assert(r@ =~= slashes(v@.take(i as int)));
    }
    assert(v@.take(v.len() as int) == v@);
    r
}

// ---- decimal numbers -------------------------------------------------------

/// The decimal digits of `n`, without leading zeros (`"0"` for zero).
pub open spec fn decimal(n: nat) -> Seq<char>
    decreases n,
{
    if n < 10 {
        seq![digit_char(n)]
    } else {
        decimal(n / 10).push(digit_char(n % 10))
    }
}

pub open spec fn digit_char(d: nat) -> char {
    (48 + d) as char
}

/// `n.to_string()` for an unsigned number.
pub fn decimal_of(n: u64) -> (r: Vec<char>)
    ensures
        r@ == decimal(n as nat),
    decreases n,
{
    let d = (n % 10) as u32;
    let c = char_from_ascii(48 + d);
    if n < 10 {
        let mut r = Vec::new();
        r.push(c);
        r
    } else {
        let mut r = decimal_of(n / 10);
        r.push(c);
        r
    }
}

/// `n.to_string()` for a signed number.
pub open spec fn signed_decimal(n: int) -> Seq<char> {
    if n < 0 {
        seq!['-'] + decimal((-n) as nat)
    } else {
        decimal(n as nat)
    }
}

/// `n.to_string()` for a signed number.
pub fn signed_decimal_of(n: i64) -> (r: Vec<char>)
    ensures
        r@ == signed_decimal(n as int),
{
    if n < 0 {
        let magnitude: u64 = (-(n as i128)) as u64;
        let mut r: Vec<char> = Vec::new();
        r.push('-');
        push_all(&mut r, &decimal_of(magnitude));
        r
    } else {
        decimal_of(n as u64)
    }
}

/// Only ASCII digits.
pub open spec fn all_digits(d: Seq<char>) -> bool {
    forall|k: int| 0 <= k < d.len() ==> '0' <= #[trigger] d[k] <= '9'
}

/// The number ASCII digits spell.
pub open spec fn digits_value(d: Seq<char>) -> int
    decreases d.len(),
{
    if d.len() == 0 {
        0
    } else {
        10 * digits_value(d.drop_last()) + (d.last() as int - 48)
    }
}

/// `i64::from_str`: an optional `+` or `-` sign followed by at least one
/// digit and nothing else, within the range of `i64`.
pub open spec fn parse_i64_spec(s: Seq<char>) -> Option<i64> {
    let neg = s.len() > 0 && s[0] == '-';
    let d = if s.len() > 0 && (s[0] == '-' || s[0] == '+') {
        s.drop_first()
    } else {
        s
    };
    if d.len() == 0 || !all_digits(d) {
        None
    } else {
        let v = if neg {
            -digits_value(d)
        } else {
            digits_value(d)
        };
        if i64::MIN <= v <= i64::MAX {
            Some(v as i64)
        } else {
            None
        }
    }
}

/// A longer run of digits spells at least as much.
proof fn lemma_digits_value_grows(d: Seq<char>, k: int)
    requires
        0 <= k <= d.len(),
        all_digits(d),
    ensures
        digits_value(d) >= digits_value(d.take(k)) >= 0,
    decreases d.len(),
{
    if d.len() > 0 {
        assert(all_digits(d.drop_last()));
        if k == d.len() {
            assert(d.take(k) == d);
            lemma_digits_value_grows(d.drop_last(), k - 1);
        } else {
            lemma_digits_value_grows(d.drop_last(), k);
            assert(d.drop_last().take(k) == d.take(k));
        }
    }
}

/// `str::parse::<i64>`.
pub fn parse_i64(s: &[char]) -> (r: Option<i64>)
    ensures
        r == parse_i64_spec(s@),
{
    let neg = s.len() > 0 && s[0] == '-';
    let start: usize = if s.len() > 0 && (s[0] == '-' || s[0] == '+') {
        1
    } else {
        0
    };
    let ghost d = s@.skip(start as int);
    assert(d == if s@.len() > 0 && (s@[0] == '-' || s@[0] == '+') {
        s@.drop_first()
    } else {
        s@
    });
    if start >= s.len() {
        return None;
    }
    let mut acc: u128 = 0;
    let mut i: usize = start;
    assert(s@.subrange(start as int, start as int) =~= Seq::<char>::empty());
    while i < s.len()
        invariant
            start <= i <= s.len(),
            d == s@.skip(start as int),
            d == (if s@.len() > 0 && (s@[0] == '-' || s@[0] == '+') {
                s@.drop_first()
            } else {
                s@
            }),
            neg == (s@.len() > 0 && s@[0] == '-'),
            acc as int == digits_value(s@.subrange(start as int, i as int)),
            acc <= 9223372036854775808u128,
            all_digits(s@.subrange(start as int, i as int)),
        decreases s.len() - i,
    {
        let c = s[i];
        assert(s@.subrange(start as int, i + 1) == s@.subrange(start as int, i as int).push(c));
        if !('0' <= c && c <= '9') {
            assert(d[i - start] == c);
            assert(!all_digits(d));
            return None;
        }
        let digit = ((c as u32) - 48) as u128;
        acc = acc * 10 + digit;
        proof {
            let w = s@.subrange(start as int, i + 1);
            assert(w.drop_last() == s@.subrange(start as int, i as int));
            assert(w.last() == c);
            assert(digits_value(w) == acc as int);
        }
        if acc > 9223372036854775808u128 {
            proof {
                if all_digits(d) {
                    assert(d.take(i + 1 - start) == s@.subrange(start as int, i + 1));
                    lemma_digits_value_grows(d, i + 1 - start);
                }
            }
            return None;
        }
        i = i + 1;
    }
    assert(s@.subrange(start as int, i as int) == d);
    if neg {
        let v: i128 = -(acc as i128);
        Some(v as i64)
    } else if acc <= 9223372036854775807u128 {
        Some(acc as i64)
    } else {
        None
    }
}

/// `usize::from_str`: an optional `+` followed by at least one digit and
/// nothing else, within the range of `usize`.
pub open spec fn parse_usize_spec(s: Seq<char>) -> Option<usize> {
    let d = if s.len() > 0 && s[0] == '+' {
        s.drop_first()
    } else {
        s
    };
    if d.len() == 0 || !all_digits(d) || digits_value(d) > usize::MAX {
        None
    } else {
        Some(digits_value(d) as usize)
    }
}

/// `str::parse::<usize>`.
pub fn parse_usize(s: &[char]) -> (r: Option<usize>)
    ensures
        r == parse_usize_spec(s@),
{
    let start: usize = if s.len() > 0 && s[0] == '+' {
        1
    } else {
        0
    };
    let ghost d = s@.skip(start as int);
    assert(d == if s@.len() > 0 && s@[0] == '+' {
        s@.drop_first()
    } else {
        s@
    });
    if start >= s.len() {
        return None;
    }
    let mut acc: u128 = 0;
    let mut i: usize = start;
    assert(s@.subrange(start as int, start as int) =~= Seq::<char>::empty());
    while i < s.len()
        invariant
            start <= i <= s.len(),
            d == s@.skip(start as int),
            d == (if s@.len() > 0 && s@[0] == '+' {
                s@.drop_first()
            } else {
                s@
            }),
            acc as int == digits_value(s@.subrange(start as int, i as int)),
            acc <= usize::MAX,
            all_digits(s@.subrange(start as int, i as int)),
        decreases s.len() - i,
    {
        let c = s[i];
        assert(s@.subrange(start as int, i + 1) == s@.subrange(start as int, i as int).push(c));
        if !('0' <= c && c <= '9') {
            assert(d[i - start] == c);
            assert(!all_digits(d));
            return None;
        }
        let digit = ((c as u32) - 48) as u128;
        acc = acc * 10 + digit;
        proof {
            let w = s@.subrange(start as int, i + 1);
            assert(w.drop_last() == s@.subrange(start as int, i as int));
            assert(w.last() == c);
            assert(digits_value(w) == acc as int);
        }
        if acc > usize::MAX as u128 {
            proof {
                if all_digits(d) {
                    assert(d.take(i + 1 - start) == s@.subrange(start as int, i + 1));
                    lemma_digits_value_grows(d, i + 1 - start);
                }
            }
            return None;
        }
        i = i + 1;
    }
    assert(s@.subrange(start as int, i as int) == d);
    Some(acc as usize)
}

// ---- splitting and joining -------------------------------------------------

/// `str::split(sep)`: every piece between separators, empty ones included.
pub open spec fn split_all(s: Seq<char>, sep: char) -> Seq<Seq<char>>
    decreases s.len(),
{
    match first_index(s, sep) {
        None => seq![s],
        Some(i) => if 0 <= i < s.len() {
            seq![s.take(i)] + split_all(s.skip(i + 1), sep)
        } else {
            seq![s]
        },
    }
}

/// The pieces joined with `sep` between them.
pub open spec fn join_with(pieces: Seq<Seq<char>>, sep: char) -> Seq<char>
    decreases pieces.len(),
{
    if pieces.len() == 0 {
        Seq::empty()
    } else if pieces.len() == 1 {
        pieces[0]
    } else {
        join_with(pieces.drop_last(), sep).push(sep) + pieces.last()
    }
}

pub open spec fn char_views(v: Seq<Vec<char>>) -> Seq<Seq<char>> {
    v.map_values(|x: Vec<char>| x@)
}

pub(crate) proof fn lemma_split_piece(cur: Seq<char>, rest: Seq<char>, sep: char)
    requires
        !cur.contains(sep),
    ensures
        split_all(cur + seq![sep] + rest, sep) == seq![cur] + split_all(rest, sep),
{
    let s = cur + seq![sep] + rest;
    lemma_first_index(s, sep);
    assert(s[cur.len() as int] == sep);
    match first_index(s, sep) {
        Some(i) => {
            if i < cur.len() {
                assert(s[i] == cur[i]);
                assert(cur.contains(cur[i]));
            } else if i > cur.len() {
                assert(s.take(i)[cur.len() as int] == sep);
                assert(s.take(i).contains(sep));
            }
            assert(s.skip(i + 1) == rest);
            assert(s.take(i) == cur);
        },
        None => {
            assert(s.contains(sep));
        },
    }
}

/// `str::split(sep)` on characters.
pub fn split_chars(v: &[char], sep: char) -> (r: Vec<Vec<char>>)
    ensures
        char_views(r@) == split_all(v@, sep),
{
    let mut done: Vec<Vec<char>> = Vec::new();
    let mut cur: Vec<char> = Vec::new();
    let mut i: usize = 0;
    assert(char_views(done@) == Seq::<Seq<char>>::empty());
    assert(cur@ + v@.skip(0) == v@);
    assert(char_views(done@) + split_all(v@, sep) == split_all(v@, sep));
    while i < v.len()
        invariant
            i <= v.len(),
            !cur@.contains(sep),
            split_all(v@, sep) == char_views(done@) + split_all(cur@ + v@.skip(i as int), sep),
        decreases v.len() - i,
    {
        let c = v[i];
        let ghost rest = v@.skip(i + 1);
        assert(v@.skip(i as int) == seq![c] + rest);
        if c == sep {
            proof {
                assert(cur@ + v@.skip(i as int) == cur@ + seq![sep] + rest);
                lemma_split_piece(cur@, rest, sep);
            }
            let ghost before = done@;
            let piece = cur;
            done.push(piece);
            assert(char_views(done@) == char_views(before) + seq![char_views(done@).last()]);
            cur = Vec::new();
            assert(cur@ + rest == rest);
        } else {
            let ghost old_cur = cur@;
            cur.push(c);
            assert(cur@ + rest == old_cur + v@.skip(i as int));
            assert forall|k: int| 0 <= k < cur@.len() implies cur@[k] != sep by {
                if k < old_cur.len() {
                    assert(cur@[k] == old_cur[k]);
                }
            }
        }
        i = i + 1;
    }
    proof {
        assert(v@.skip(v.len() as int) == Seq::<char>::empty());
        assert(cur@ + v@.skip(i as int) == cur@);
        lemma_first_index(cur@, sep);
    }
    let ghost before = done@;
    done.push(cur);
    assert(char_views(done@) == char_views(before) + seq![char_views(done@).last()]);
    done
}

/// The first `k` pieces joined with `sep`.
pub fn join_chars(pieces: &Vec<Vec<char>>, k: usize, sep: char) -> (r: Vec<char>)
    requires
        k <= pieces.len(),
    ensures
        r@ == join_with(char_views(pieces@).take(k as int), sep),
{
    let mut r: Vec<char> = Vec::new();
    let mut i: usize = 0;
    while i < k
        invariant
            i <= k <= pieces.len(),
            r@ == join_with(char_views(pieces@).take(i as int), sep),
        decreases k - i,
    {
        let ghost pv = char_views(pieces@).take(i + 1);
        assert(pv.drop_last() == char_views(pieces@).take(i as int));
        assert(pv.last() == pieces@[i as int]@);
        if i > 0 {
            r.push(sep);
        } else {
            assert(char_views(pieces@).take(0) == Seq::<Seq<char>>::empty());
        }
        push_all(&mut r, &pieces[i]);
        i = i + 1;
    }
    r
}

} // verus!
