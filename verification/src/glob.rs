//! Wildcard matching for target filters and excludes.
//!
//! One segment pattern supports `*`, `?` and `[...]` (with `!`/`^` negation
//! and ranges). A path pattern is `/`-separated segments, where a `**`
//! segment matches any number of segments, including none.

use vstd::prelude::*;
use crate::text::{chars_eq, chars_of, find_char, first_index, has_char, join_with, lemma_first_index, push_all};

verus! {

// ---- the segment language --------------------------------------------------

/// Scans the items of a `[...]` class from position `i`: the result is
/// whether `c` matched (after negation) and the position after the closing
/// `]`, or `None` when the class is never closed. A `]` right after the
/// opening (and negation) is an ordinary item; `x-y` is a range unless `y`
/// is `]`.
pub open spec fn class_scan(
    p: Seq<char>,
    c: char,
    i: int,
    negate: bool,
    matched: bool,
    first: bool,
) -> Option<(bool, int)>
    decreases p.len() - i,
{
    if i < 0 || i >= p.len() {
        None
    } else if p[i] == ']' && !first {
        Some((matched != negate, i + 1))
    } else if i + 2 < p.len() && p[i + 1] == '-' && p[i + 2] != ']' {
        class_scan(
            p,
            c,
            i + 3,
            negate,
            matched || ((p[i] as u32) <= (c as u32) && (c as u32) <= (p[i + 2] as u32)),
            false,
        )
    } else {
        class_scan(p, c, i + 1, negate, matched || p[i] == c, false)
    }
}

/// Whether the class opened at `start` is negated (`[!...]` or `[^...]`).
pub open spec fn class_negated(p: Seq<char>, start: int) -> bool {
    start + 1 < p.len() && (p[start + 1] == '!' || p[start + 1] == '^')
}

/// The class opened by the `[` at `start`, tested against `c`.
pub open spec fn class_match(p: Seq<char>, start: int, c: char) -> Option<(bool, int)> {
    let negate = class_negated(p, start);
    class_scan(p, c, start + 1 + (if negate { 1int } else { 0int }), negate, false, true)
}

/// Where the class scan from `i` ends, which never depends on the character.
pub open spec fn class_end_from(p: Seq<char>, i: int, first: bool) -> Option<int>
    decreases p.len() - i,
{
    if i < 0 || i >= p.len() {
        None
    } else if p[i] == ']' && !first {
        Some(i + 1)
    } else if i + 2 < p.len() && p[i + 1] == '-' && p[i + 2] != ']' {
        class_end_from(p, i + 3, false)
    } else {
        class_end_from(p, i + 1, false)
    }
}

pub open spec fn class_end(p: Seq<char>, start: int) -> Option<int> {
    class_end_from(p, start + 1 + (if class_negated(p, start) { 1int } else { 0int }), true)
}

/// The pattern position after the non-`*` token at `i`.
pub open spec fn step(p: Seq<char>, i: int) -> int {
    if p[i] == '[' && class_end(p, i) is Some && i < class_end(p, i)->0 <= p.len() {
        class_end(p, i)->0
    } else {
        i + 1
    }
}

/// Whether the non-`*` token at `i` accepts `c`. An unclosed `[` is a
/// literal `[`.
pub open spec fn token_ok(p: Seq<char>, i: int, c: char) -> bool {
    if p[i] == '?' {
        true
    } else if p[i] == '[' {
        match class_match(p, i, c) {
            Some((m, _)) => m,
            None => c == '[',
        }
    } else {
        p[i] == c
    }
}

/// Whether the pattern from position `i` matches the name from position `j`.
/// `*` takes any run of characters, including none.
pub open spec fn glob_from(p: Seq<char>, n: Seq<char>, i: int, j: int) -> bool
    decreases p.len() - i, n.len() - j,
{
    if i < 0 || j < 0 || i >= p.len() {
        j == n.len()
    } else if p[i] == '*' {
        glob_from(p, n, i + 1, j) || (j < n.len() && glob_from(p, n, i, j + 1))
    } else if j >= n.len() {
        false
    } else {
        token_ok(p, i, n[j]) && glob_from(p, n, step(p, i), j + 1)
    }
}

/// Whether the whole pattern matches the whole name.
pub open spec fn glob(p: Seq<char>, n: Seq<char>) -> bool {
    glob_from(p, n, 0, 0)
}

// ---- lemmas about the language ---------------------------------------------

proof fn lemma_class_scan_end(
    p: Seq<char>,
    c: char,
    i: int,
    negate: bool,
    matched: bool,
    first: bool,
)
    ensures
        class_scan(p, c, i, negate, matched, first) is Some <==> class_end_from(p, i, first) is Some,
        class_scan(p, c, i, negate, matched, first) is Some ==> (class_scan(
            p,
            c,
            i,
            negate,
            matched,
            first,
        )->0).1 == class_end_from(p, i, first)->0,
        class_end_from(p, i, first) is Some ==> i < class_end_from(p, i, first)->0 <= p.len(),
    decreases p.len() - i,
{
    if i < 0 || i >= p.len() {
    } else if p[i] == ']' && !first {
    } else if i + 2 < p.len() && p[i + 1] == '-' && p[i + 2] != ']' {
        lemma_class_scan_end(
            p,
            c,
            i + 3,
            negate,
            matched || ((p[i] as u32) <= (c as u32) && (c as u32) <= (p[i + 2] as u32)),
            false,
        );
    } else {
        lemma_class_scan_end(p, c, i + 1, negate, matched || p[i] == c, false);
    }
}

proof fn lemma_class_match_end(p: Seq<char>, start: int, c: char)
    requires
        0 <= start,
    ensures
        class_match(p, start, c) is Some <==> class_end(p, start) is Some,
        class_match(p, start, c) is Some ==> (class_match(p, start, c)->0).1 == class_end(
            p,
            start,
        )->0,
        class_end(p, start) is Some ==> start < class_end(p, start)->0 <= p.len(),
{
    let negate = class_negated(p, start);
    lemma_class_scan_end(
        p,
        c,
        start + 1 + (if negate { 1int } else { 0int }),
        negate,
        false,
        true,
    );
}

/// A star absorbs any run: the pattern from a star matches from `j` exactly
/// when the rest of the pattern matches from some later position.
proof fn lemma_star(p: Seq<char>, n: Seq<char>, i: int, j: int)
    requires
        0 <= i < p.len(),
        p[i] == '*',
        0 <= j <= n.len(),
    ensures
        glob_from(p, n, i, j) <==> exists|k: int|
            j <= k <= n.len() && #[trigger] glob_from(p, n, i + 1, k),
    decreases n.len() - j,
{
    assert(glob_from(p, n, i, j) == (glob_from(p, n, i + 1, j) || (j < n.len() && glob_from(
        p,
        n,
        i,
        j + 1,
    ))));
    if j < n.len() {
        lemma_star(p, n, i, j + 1);
        if glob_from(p, n, i, j) {
            if glob_from(p, n, i + 1, j) {
                assert(j <= j <= n.len() && glob_from(p, n, i + 1, j));
            } else {
                assert(glob_from(p, n, i, j + 1));
                let k = choose|k: int| j + 1 <= k <= n.len() && #[trigger] glob_from(p, n, i + 1, k);
                assert(j <= k <= n.len() && glob_from(p, n, i + 1, k));
            }
        }
        if exists|k: int| j <= k <= n.len() && #[trigger] glob_from(p, n, i + 1, k) {
            let k = choose|k: int| j <= k <= n.len() && #[trigger] glob_from(p, n, i + 1, k);
            if k > j {
                assert(j + 1 <= k <= n.len() && glob_from(p, n, i + 1, k));
                assert(glob_from(p, n, i, j + 1));
            }
        }
    } else {
        if exists|k: int| j <= k <= n.len() && #[trigger] glob_from(p, n, i + 1, k) {
            let k = choose|k: int| j <= k <= n.len() && #[trigger] glob_from(p, n, i + 1, k);
            assert(k == j);
        }
    }
}

/// A match never starts past the end of the name.
proof fn lemma_glob_bound(p: Seq<char>, n: Seq<char>, i: int, j: int)
    requires
        glob_from(p, n, i, j),
    ensures
        j <= n.len(),
    decreases p.len() - i, n.len() - j,
{
    if i < 0 || j < 0 || i >= p.len() {
    } else if p[i] == '*' {
        if glob_from(p, n, i + 1, j) {
            lemma_glob_bound(p, n, i + 1, j);
        }
    }
}

/// The positions reached from `a` after `t` non-star tokens.
pub open spec fn hops(p: Seq<char>, a: int, t: nat) -> int
    decreases t,
{
    if t == 0 {
        a
    } else {
        step(p, hops(p, a, (t - 1) as nat))
    }
}

/// The first `len` tokens from `a` exist and are not stars.
pub open spec fn plain_run(p: Seq<char>, a: int, len: nat) -> bool {
    forall|t: nat|
        t < len ==> 0 <= #[trigger] hops(p, a, t) < p.len() && p[hops(p, a, t)] != '*'
}

/// A match from `a` must walk a star-free run one character per token.
proof fn lemma_run(p: Seq<char>, n: Seq<char>, a: int, k: int, len: nat)
    requires
        plain_run(p, a, len),
        0 <= a,
        0 <= k,
        glob_from(p, n, a, k),
    ensures
        k + len <= n.len(),
        glob_from(p, n, hops(p, a, len), k + len),
    decreases len,
{
    if len == 0 {
        lemma_glob_bound(p, n, a, k);
    } else {
        let l1 = (len - 1) as nat;
        assert forall|t: nat| t < l1 implies 0 <= #[trigger] hops(p, a, t) < p.len() && p[hops(
            p,
            a,
            t,
        )] != '*' by {
            assert(t < len);
        }
        lemma_run(p, n, a, k, l1);
        let h = hops(p, a, l1);
        assert(0 <= h < p.len() && p[h] != '*');
        assert(glob_from(p, n, h, k + l1));
        lemma_glob_bound(p, n, step(p, h), k + l1 + 1);
        assert(hops(p, a, len) == step(p, h));
    }
}

/// From the end of the name, only stars are left to match.
proof fn lemma_stars_only(p: Seq<char>, n: Seq<char>, i: int)
    requires
        0 <= i <= p.len(),
    ensures
        glob_from(p, n, i, n.len() as int) <==> forall|k: int| i <= k < p.len() ==> p[k] == '*',
    decreases p.len() - i,
{
    if i < p.len() {
        lemma_stars_only(p, n, i + 1);
    }
}

proof fn lemma_hops_plain_extend(p: Seq<char>, a: int, len: nat)
    requires
        plain_run(p, a, len),
        0 <= hops(p, a, len) < p.len(),
        p[hops(p, a, len)] != '*',
    ensures
        plain_run(p, a, len + 1),
{
    assert forall|t: nat| t < len + 1 implies 0 <= #[trigger] hops(p, a, t) < p.len() && p[hops(
        p,
        a,
        t,
    )] != '*' by {
        if t < len {
        } else {
            assert(t == len);
        }
    }
}

// ---- executable matching ---------------------------------------------------

/// Whether the pattern has a wildcard character.
pub open spec fn has_wildcard_spec(s: Seq<char>) -> bool {
    s.contains('*') || s.contains('?') || s.contains('[')
}

pub fn has_wildcard_chars(v: &[char]) -> (r: bool)
    ensures
        r == has_wildcard_spec(v@),
{
    has_char(v, '*') || has_char(v, '?') || has_char(v, '[')
}

pub fn has_wildcard(segment: &str) -> (r: bool)
    ensures
        r == has_wildcard_spec(segment@),
{
    let v = chars_of(segment);
    has_wildcard_chars(&v)
}

/// Matches the `[...]` class opened at `start` against `c`: whether `c`
/// matched and the position after the class, or `None` if it isn't closed.
fn match_class(p: &[char], start: usize, c: char) -> (r: Option<(bool, usize)>)
    requires
        start < p.len(),
    ensures
        r matches Some((m, e)) ==> class_match(p@, start as int, c) == Some((m, e as int)),
        r is None ==> class_match(p@, start as int, c) is None,
{
    let mut i: usize = start + 1;
    let negate = i < p.len() && (p[i] == '!' || p[i] == '^');
    if negate {
        i = i + 1;
    }
    assert(negate == class_negated(p@, start as int));
    let mut matched = false;
    let mut first = true;
    while i < p.len()
        invariant
            start < i <= p.len() + 1,
            class_scan(p@, c, i as int, negate, matched, first) == class_match(p@, start as int, c),
        decreases p.len() - i,
    {
        if p[i] == ']' && !first {
            return Some((matched != negate, i + 1));
        }
        first = false;
        if p.len() - i > 2 && p[i + 1] == '-' && p[i + 2] != ']' {
            if (p[i] as u32) <= (c as u32) && (c as u32) <= (p[i + 2] as u32) {
                matched = true;
            }
            i = i + 3;
        } else {
            if p[i] == c {
                matched = true;
            }
            i = i + 1;
        }
    }
    None
}

/// Whether retrying from one character further after the remembered star
/// can still match.
spec fn retry(p: Seq<char>, n: Seq<char>, star: Option<(usize, usize)>) -> bool {
    match star {
        None => false,
        Some((sp, sn)) => retry_from(p, n, sp as int, sn as int),
    }
}

spec fn retry_from(p: Seq<char>, n: Seq<char>, sp: int, sn: int) -> bool {
    exists|k: int| sn < k <= n.len() && #[trigger] glob_from(p, n, sp + 1, k)
}

/// The matcher on characters: a single pass that remembers the last star and
/// retries from one character further on a mismatch.
fn match_chars(p: &[char], n: &[char]) -> (r: bool)
    ensures
        r == glob(p@, n@),
{
    let ghost ps = p@;
    let ghost ns = n@;
    let mut pi: usize = 0;
    let mut ni: usize = 0;
    let mut star: Option<(usize, usize)> = None;
    assert(hops(ps, 0, 0) == 0);
    while ni < n.len()
        invariant
            ps == p@,
            ns == n@,
            pi <= p.len(),
            ni <= n.len(),
            glob(ps, ns) == (glob_from(ps, ns, pi as int, ni as int) || retry(ps, ns, star)),
            star matches Some((sp, sn)) ==> {
                &&& sp < pi
                &&& sp < p.len()
                &&& ps[sp as int] == '*'
                &&& sn <= ni
                &&& plain_run(ps, sp + 1, (ni - sn) as nat)
                &&& hops(ps, sp + 1, (ni - sn) as nat) == pi
            },
        decreases
            (match star {
                None => n.len() + 2,
                Some((_, sn)) => n.len() - sn + 1,
            }),
            p.len() - pi,
    {
        let mut advanced = false;
        if pi < p.len() {
            let pc = p[pi];
            if pc == '*' {
                proof {
                    lemma_star(ps, ns, pi as int, ni as int);
                    match star {
                        None => {},
                        Some((sp, sn)) => {
                            if exists|k: int|
                                sn < k <= ns.len() && #[trigger] glob_from(ps, ns, sp + 1, k) {
                                let k = choose|k: int|
                                    sn < k <= ns.len() && #[trigger] glob_from(ps, ns, sp + 1, k);
                                let len = (ni - sn) as nat;
                                lemma_run(ps, ns, sp + 1, k, len);
                                lemma_star(ps, ns, pi as int, k + len);
                                let k2 = choose|k2: int|
                                    k + len <= k2 <= ns.len() && #[trigger] glob_from(
                                        ps,
                                        ns,
                                        pi + 1,
                                        k2,
                                    );
                                assert(ni <= k2 <= ns.len() && glob_from(ps, ns, pi + 1, k2));
                            }
                        },
                    }
                    assert(hops(ps, pi + 1, 0) == pi + 1);
                    assert(plain_run(ps, pi + 1, 0));
                }
                assert(glob(ps, ns) == glob_from(ps, ns, pi as int, ni as int));
                star = Some((pi, ni));
                pi = pi + 1;
                proof {
                    if glob_from(ps, ns, pi - 1, ni as int) {
                        let k = choose|k: int|
                            ni <= k <= ns.len() && #[trigger] glob_from(ps, ns, pi as int, k);
                        if k > ni {
                            assert(exists|k: int|
                                ni < k <= ns.len() && #[trigger] glob_from(ps, ns, pi as int, k));
                        }
                    }
                    if glob_from(ps, ns, pi as int, ni as int) {
                        assert(ni <= ni <= ns.len() && glob_from(ps, ns, pi as int, ni as int));
                    }
                    if exists|k: int| ni < k <= ns.len() && #[trigger] glob_from(ps, ns, pi as int, k) {
                        let k = choose|k: int|
                            ni < k <= ns.len() && #[trigger] glob_from(ps, ns, pi as int, k);
                        assert(ni <= k <= ns.len() && glob_from(ps, ns, pi as int, k));
                    }
                }
                assert(retry(ps, ns, star) == retry_from(ps, ns, pi - 1, ni as int));
                assert(retry(ps, ns, star) == exists|k: int| ni < k <= ns.len() && #[trigger] glob_from(ps, ns, pi as int, k));
                assert(glob_from(ps, ns, pi - 1, ni as int) ==> (glob_from(ps, ns, pi as int, ni as int) || retry(ps, ns, star)));
                assert(glob_from(ps, ns, pi - 1, ni as int) <== (glob_from(ps, ns, pi as int, ni as int) || retry(ps, ns, star)));
                assert(glob(ps, ns) == (glob_from(ps, ns, pi as int, ni as int) || retry(ps, ns, star)));
                advanced = true;
            } else {
                let c = n[ni];
                let mut next: Option<usize> = None;
                if pc == '?' {
                    next = Some(pi + 1);
                } else if pc == '[' {
                    proof {
                        lemma_class_match_end(ps, pi as int, c);
                    }
                    match match_class(p, pi, c) {
                        Some((true, e)) => {
                            next = Some(e);
                        },
                        Some((false, _)) => {},
                        None => {
                            if c == '[' {
                                next = Some(pi + 1);
                            }
                        },
                    }
                } else if pc == c {
                    next = Some(pi + 1);
                }
                proof {
                    lemma_class_match_end(ps, pi as int, c);
                    match next {
                        Some(e) => {
                            assert(token_ok(ps, pi as int, c));
                            assert(e == step(ps, pi as int));
                        },
                        None => {
                            assert(!token_ok(ps, pi as int, c));
                        },
                    }
                }
                match next {
                    Some(e) => {
                        proof {
                            match star {
                                None => {},
                                Some((sp, sn)) => {
                                    lemma_hops_plain_extend(ps, sp + 1, (ni - sn) as nat);
                                    assert(hops(ps, sp + 1, (ni + 1 - sn) as nat) == step(
                                        ps,
                                        hops(ps, sp + 1, (ni - sn) as nat),
                                    ));
                                },
                            }
                        }
                        let ghost opi = pi;
                        let ghost oni = ni;
                        pi = e;
                        ni = ni + 1;
                        assert(glob_from(ps, ns, opi as int, oni as int) == glob_from(ps, ns, pi as int, ni as int));
                        advanced = true;
                    },
                    None => {},
                }
            }
        }
        if !advanced {
            match star {
                Some((sp, sn)) => {
                    proof {
                        assert(!glob_from(ps, ns, pi as int, ni as int));
                        assert(hops(ps, sp + 1, 0) == sp + 1);
                        if exists|k: int|
                            sn < k <= ns.len() && #[trigger] glob_from(ps, ns, sp + 1, k) {
                            let k = choose|k: int|
                                sn < k <= ns.len() && #[trigger] glob_from(ps, ns, sp + 1, k);
                            if k > sn + 1 {
                                assert(exists|k2: int|
                                    sn + 1 < k2 <= ns.len() && #[trigger] glob_from(
                                        ps,
                                        ns,
                                        sp + 1,
                                        k2,
                                    ));
                            }
                        }
                        if glob_from(ps, ns, sp + 1, sn + 1) {
                            assert(sn < sn + 1 <= ns.len() && glob_from(ps, ns, sp + 1, sn + 1));
                        }
                        if exists|k: int|
                            sn + 1 < k <= ns.len() && #[trigger] glob_from(ps, ns, sp + 1, k) {
                            let k = choose|k: int|
                                sn + 1 < k <= ns.len() && #[trigger] glob_from(ps, ns, sp + 1, k);
                            assert(sn < k <= ns.len() && glob_from(ps, ns, sp + 1, k));
                        }
                    }
                    pi = sp + 1;
                    ni = sn + 1;
                    star = Some((sp, sn + 1));
                    assert(glob(ps, ns) == (glob_from(ps, ns, pi as int, ni as int) || retry(ps, ns, star)));
                },
                None => {
                    return false;
                },
            }
        }
    }
    proof {
        match star {
            None => {},
            Some((sp, sn)) => {
                if exists|k: int| sn < k <= ns.len() && #[trigger] glob_from(ps, ns, sp + 1, k) {
                    let k = choose|k: int|
                        sn < k <= ns.len() && #[trigger] glob_from(ps, ns, sp + 1, k);
                    lemma_run(ps, ns, sp + 1, k, (ni - sn) as nat);
                }
            },
        }
    }
    let ghost pi0 = pi;
    while pi < p.len() && p[pi] == '*'
        invariant
            pi0 <= pi <= p.len(),
            forall|k: int| pi0 <= k < pi ==> ps[k] == '*',
            ps == p@,
        decreases p.len() - pi,
    {
        pi = pi + 1;
    }
    proof {
        lemma_stars_only(ps, ns, pi0 as int);
    }
    pi == p.len()
}


// ---- case folding ----------------------------------------------------------

/// What `char::to_lowercase` yields for one character (one or more chars).
pub uninterp spec fn char_lowercase(c: char) -> Seq<char>;

/// `char::to_lowercase`, collected.
#[verifier::external_body]
fn lowercase_char(c: char) -> (r: Vec<char>)
    ensures
        r@ == char_lowercase(c),
{
    c.to_lowercase().collect()
}

/// Each character replaced by its lowercase mapping.
pub open spec fn fold_spec(s: Seq<char>) -> Seq<char>
    decreases s.len(),
{
    if s.len() == 0 {
        Seq::empty()
    } else {
        fold_spec(s.drop_last()) + char_lowercase(s.last())
    }
}

pub(crate) fn fold(v: &[char]) -> (r: Vec<char>)
    ensures
        r@ == fold_spec(v@),
{
    let mut r: Vec<char> = Vec::new();
    let mut i: usize = 0;
    while i < v.len()
        invariant
            i <= v.len(),
            r@ == fold_spec(v@.take(i as int)),
        decreases v.len() - i,
    {
        let low = lowercase_char(v[i]);
        push_all(&mut r, &low);
        assert(v@.take(i + 1).drop_last() == v@.take(i as int));
        i = i + 1;
    }
    assert(v@.take(v.len() as int) == v@);
    r
}

/// One name against one segment pattern, optionally ignoring case.
pub open spec fn seg_match(pattern: Seq<char>, name: Seq<char>, case_insensitive: bool) -> bool {
    if case_insensitive {
        glob(fold_spec(pattern), fold_spec(name))
    } else {
        glob(pattern, name)
    }
}

fn match_segment_chars(pattern: &[char], name: &[char], case_insensitive: bool) -> (r: bool)
    ensures
        r == seg_match(pattern@, name@, case_insensitive),
{
    if case_insensitive {
        let p = fold(pattern);
        let n = fold(name);
        match_chars(&p, &n)
    } else {
        match_chars(pattern, name)
    }
}

/// Matches one name against one segment pattern.
pub fn match_segment(pattern: &str, name: &str, case_insensitive: bool) -> (r: bool)
    ensures
        r == seg_match(pattern@, name@, case_insensitive),
{
    let p = chars_of(pattern);
    let n = chars_of(name);
    match_segment_chars(&p, &n, case_insensitive)
}

// ---- paths -----------------------------------------------------------------

/// The non-empty `/`-separated pieces of a path.
pub open spec fn segments(s: Seq<char>) -> Seq<Seq<char>>
    decreases s.len(),
{
    if s.len() == 0 {
        Seq::empty()
    } else {
        match first_index(s, '/') {
            None => seq![s],
            Some(i) => if 0 <= i < s.len() {
                (if i == 0 {
                    Seq::<Seq<char>>::empty()
                } else {
                    seq![s.take(i)]
                }) + segments(s.skip(i + 1))
            } else {
                Seq::empty()
            },
        }
    }
}

/// The segment `**`, which stands for any number of segments.
pub open spec fn double_star() -> Seq<char> {
    seq!['*', '*']
}

/// A path pattern against a path, both given as segments. `**` takes any
/// number of leading segments, none included.
pub open spec fn path_match(p: Seq<Seq<char>>, n: Seq<Seq<char>>, ci: bool) -> bool
    decreases p.len(), n.len(),
{
    if p.len() == 0 {
        n.len() == 0
    } else if p[0] == double_star() {
        path_match(p.drop_first(), n, ci) || (n.len() > 0 && path_match(p, n.drop_first(), ci))
    } else {
        n.len() > 0 && seg_match(p[0], n[0], ci) && path_match(p.drop_first(), n.drop_first(), ci)
    }
}

/// `**` matches exactly when the rest of the pattern matches after some
/// number of skipped segments.
pub proof fn lemma_double_star(p: Seq<Seq<char>>, n: Seq<Seq<char>>, ci: bool)
    requires
        p.len() > 0,
        p[0] == double_star(),
    ensures
        path_match(p, n, ci) <==> exists|skip: int|
            0 <= skip <= n.len() && #[trigger] path_match(p.drop_first(), n.skip(skip), ci),
    decreases n.len(),
{
    assert(n.skip(0) == n);
    if n.len() > 0 {
        lemma_double_star(p, n.drop_first(), ci);
        if path_match(p, n, ci) {
            if path_match(p.drop_first(), n, ci) {
                assert(0 <= 0 <= n.len() && path_match(p.drop_first(), n.skip(0), ci));
            } else {
                let skip = choose|skip: int|
                    0 <= skip <= n.drop_first().len() && #[trigger] path_match(
                        p.drop_first(),
                        n.drop_first().skip(skip),
                        ci,
                    );
                assert(n.drop_first().skip(skip) == n.skip(skip + 1));
                assert(0 <= skip + 1 <= n.len() && path_match(p.drop_first(), n.skip(skip + 1), ci));
            }
        }
        if exists|skip: int|
            0 <= skip <= n.len() && #[trigger] path_match(p.drop_first(), n.skip(skip), ci) {
            let skip = choose|skip: int|
                0 <= skip <= n.len() && #[trigger] path_match(p.drop_first(), n.skip(skip), ci);
            if skip > 0 {
                assert(n.drop_first().skip(skip - 1) == n.skip(skip));
                assert(0 <= skip - 1 <= n.drop_first().len() && path_match(
                    p.drop_first(),
                    n.drop_first().skip(skip - 1),
                    ci,
                ));
                assert(path_match(p, n.drop_first(), ci));
            } else {
                assert(path_match(p.drop_first(), n, ci));
            }
            assert(path_match(p, n, ci));
        }
    } else {
        if exists|skip: int|
            0 <= skip <= n.len() && #[trigger] path_match(p.drop_first(), n.skip(skip), ci) {
            let skip = choose|skip: int|
                0 <= skip <= n.len() && #[trigger] path_match(p.drop_first(), n.skip(skip), ci);
            assert(skip == 0);
            assert(path_match(p.drop_first(), n, ci));
        }
        if path_match(p, n, ci) {
            assert(path_match(p.drop_first(), n, ci));
            assert(0 <= 0 <= n.len() && path_match(p.drop_first(), n.skip(0), ci));
        }
    }
}

/// Whether a path could still lead to a match deeper down: every segment so
/// far matches the pattern's leading segments.
pub open spec fn prefix_match(p: Seq<Seq<char>>, n: Seq<Seq<char>>, ci: bool) -> bool
    decreases n.len(),
{
    if n.len() == 0 {
        p.len() > 0
    } else if p.len() == 0 {
        false
    } else if p[0] == double_star() {
        true
    } else {
        seg_match(p[0], n[0], ci) && prefix_match(p.drop_first(), n.drop_first(), ci)
    }
}

pub open spec fn views(v: Seq<Vec<char>>) -> Seq<Seq<char>> {
    v.map_values(|x: Vec<char>| x@)
}

proof fn lemma_segments_piece(cur: Seq<char>, rest: Seq<char>)
    requires
        !cur.contains('/'),
    ensures
        segments(cur + seq!['/'] + rest) == (if cur.len() == 0 {
            Seq::<Seq<char>>::empty()
        } else {
            seq![cur]
        }) + segments(rest),
{
    let s = cur + seq!['/'] + rest;
    lemma_first_index(s, '/');
    assert(s[cur.len() as int] == '/');
    match first_index(s, '/') {
        Some(i) => {
            if i < cur.len() {
                assert(s[i] == cur[i]);
                assert(cur.contains(cur[i]));
            } else if i > cur.len() {
                assert(s.take(i)[cur.len() as int] == '/');
                assert(s.take(i).contains('/'));
            }
            assert(i == cur.len());
            assert(s.skip(i + 1) == rest);
            assert(s.take(i) == cur);
        },
        None => {
            assert(s.contains('/'));
        },
    }
}

proof fn lemma_segments_last(cur: Seq<char>)
    requires
        !cur.contains('/'),
    ensures
        segments(cur) == (if cur.len() == 0 {
            Seq::<Seq<char>>::empty()
        } else {
            seq![cur]
        }),
{
    lemma_first_index(cur, '/');
}

/// Splits a path into its non-empty `/`-separated segments.
pub fn split_segments(v: &[char]) -> (r: Vec<Vec<char>>)
    ensures
        views(r@) == segments(v@),
{
    let mut done: Vec<Vec<char>> = Vec::new();
    let mut cur: Vec<char> = Vec::new();
    let mut i: usize = 0;
    assert(views(done@) == Seq::<Seq<char>>::empty());
    assert(cur@ + v@.skip(0) == v@);
    assert(views(done@) + segments(v@) == segments(v@));
    while i < v.len()
        invariant
            i <= v.len(),
            !cur@.contains('/'),
            segments(v@) == views(done@) + segments(cur@ + v@.skip(i as int)),
        decreases v.len() - i,
    {
        let c = v[i];
        let ghost rest = v@.skip(i + 1);
        assert(v@.skip(i as int) == seq![c] + rest);
        if c == '/' {
            proof {
                assert(cur@ + v@.skip(i as int) == cur@ + seq!['/'] + rest);
                lemma_segments_piece(cur@, rest);
            }
            if cur.len() > 0 {
                let ghost before = done@;
                done.push(cur);
                assert(views(done@) == views(before) + seq![views(done@).last()]);
            } else {
                assert(cur@ == Seq::<char>::empty());
            }
            cur = Vec::new();
            assert(cur@ + rest == rest);
        } else {
            let ghost old_cur = cur@;
            cur.push(c);
            assert(cur@ + rest == old_cur + v@.skip(i as int));
            assert forall|k: int| 0 <= k < cur@.len() implies cur@[k] != '/' by {
                if k < old_cur.len() {
                    assert(cur@[k] == old_cur[k]);
                }
            }
        }
        i = i + 1;
    }
    proof {
        assert(v@.skip(v.len() as int) == Seq::<char>::empty());
        assert(cur@ + v@.skip(i as int) == cur@);
        lemma_segments_last(cur@);
    }
    if cur.len() > 0 {
        let ghost before = done@;
        done.push(cur);
        assert(views(done@) == views(before) + seq![views(done@).last()]);
    } else {
        assert(views(done@) + Seq::<Seq<char>>::empty() == views(done@));
    }
    done
}

fn is_double_star(v: &[char]) -> (r: bool)
    ensures
        r == (v@ == double_star()),
{
    v.len() == 2 && v[0] == '*' && v[1] == '*' && {
        assert(v@ == double_star());
        true
    }
}

fn match_segments(p: &Vec<Vec<char>>, n: &Vec<Vec<char>>, i: usize, j: usize, ci: bool) -> (r: bool)
    requires
        i <= p.len(),
        j <= n.len(),
    ensures
        r == path_match(views(p@).skip(i as int), views(n@).skip(j as int), ci),
    decreases p.len() - i,
{
    let ghost ps = views(p@).skip(i as int);
    let ghost ns = views(n@).skip(j as int);
    if i == p.len() {
        return j == n.len();
    }
    assert(ps[0] == p@[i as int]@);
    assert(ps.drop_first() == views(p@).skip(i + 1));
    if is_double_star(&p[i]) {
        let mut skip: usize = j;
        loop
            invariant
                j <= skip <= n.len(),
                i < p.len(),
                ps == views(p@).skip(i as int),
                ns == views(n@).skip(j as int),
                ps.drop_first() == views(p@).skip(i + 1),
                ps.len() > 0,
                ps[0] == double_star(),
                forall|k: int|
                    0 <= k < skip - j ==> !#[trigger] path_match(ps.drop_first(), ns.skip(k), ci),
            decreases n.len() + 1 - skip,
        {
            assert(ns.skip(skip - j) == views(n@).skip(skip as int));
            if match_segments(p, n, i + 1, skip, ci) {
                proof {
                    lemma_double_star(ps, ns, ci);
                    assert(0 <= skip - j <= ns.len() && path_match(ps.drop_first(), ns.skip(skip - j), ci));
                }
                return true;
            }
            if skip == n.len() {
                proof {
                    lemma_double_star(ps, ns, ci);
                }
                return false;
            }
            skip = skip + 1;
        }
    }
    if j == n.len() {
        return false;
    }
    assert(ns[0] == n@[j as int]@);
    assert(ns.drop_first() == views(n@).skip(j + 1));
    match_segment_chars(&p[i], &n[j], ci) && match_segments(p, n, i + 1, j + 1, ci)
}

/// Matches a relative `/`-separated path against a path pattern.
pub fn match_path(pattern: &str, path: &str, case_insensitive: bool) -> (r: bool)
    ensures
        r == path_match(segments(pattern@), segments(path@), case_insensitive),
{
    let pv = chars_of(pattern);
    let nv = chars_of(path);
    let p = split_segments(&pv);
    let n = split_segments(&nv);
    assert(views(p@).skip(0) == views(p@));
    assert(views(n@).skip(0) == views(n@));
    match_segments(&p, &n, 0, 0, case_insensitive)
}

fn prefix_segments(p: &Vec<Vec<char>>, n: &Vec<Vec<char>>, i: usize, j: usize, ci: bool) -> (r: bool)
    requires
        i <= p.len(),
        j <= n.len(),
    ensures
        r == prefix_match(views(p@).skip(i as int), views(n@).skip(j as int), ci),
    decreases n.len() - j,
{
    let ghost ps = views(p@).skip(i as int);
    let ghost ns = views(n@).skip(j as int);
    if j == n.len() {
        return i < p.len();
    }
    if i == p.len() {
        return false;
    }
    assert(ps[0] == p@[i as int]@);
    assert(ps.drop_first() == views(p@).skip(i + 1));
    assert(ns[0] == n@[j as int]@);
    assert(ns.drop_first() == views(n@).skip(j + 1));
    if is_double_star(&p[i]) {
        return true;
    }
    match_segment_chars(&p[i], &n[j], ci) && prefix_segments(p, n, i + 1, j + 1, ci)
}

/// Whether a relative path could still lead to a match deeper down. Used to
/// prune a walk without descending into folders a pattern can never reach.
pub fn could_match_below(pattern: &str, path: &str, case_insensitive: bool) -> (r: bool)
    ensures
        r == prefix_match(segments(pattern@), segments(path@), case_insensitive),
{
    let pv = chars_of(pattern);
    let nv = chars_of(path);
    let p = split_segments(&pv);
    let n = split_segments(&nv);
    assert(views(p@).skip(0) == views(p@));
    assert(views(n@).skip(0) == views(n@));
    prefix_segments(&p, &n, 0, 0, case_insensitive)
}

// ---- laws ------------------------------------------------------------------

/// The first `c` of `s` is at `k` when `s[k]` is `c` and none comes before.
proof fn lemma_first_index_is(s: Seq<char>, c: char, k: int)
    requires
        0 <= k < s.len(),
        s[k] == c,
        forall|i: int| 0 <= i < k ==> s[i] != c,
    ensures
        first_index(s, c) == Some(k),
{
    lemma_first_index(s, c);
    match first_index(s, c) {
        Some(i) => {
            if i > k {
                assert(s.take(i)[k] == c);
            }
        },
        None => {
            assert(s.contains(s[k]));
        },
    }
}

/// Joining two paths with `/` joins their segments.
pub proof fn lemma_segments_join(a: Seq<char>, b: Seq<char>)
    ensures
        segments(a + "/"@ + b) == segments(a) + segments(b),
    decreases a.len(),
{
    reveal_strlit("/");
    let s = a + "/"@ + b;
    lemma_first_index(a, '/');
    match first_index(a, '/') {
        Some(i) => {
            assert forall|j: int| 0 <= j < i implies s[j] != '/' by {
                assert(s[j] == a.take(i)[j]);
            }
            lemma_first_index_is(s, '/', i);
            let rest = a.skip(i + 1);
            assert(s.skip(i + 1) == rest + "/"@ + b);
            assert(s.take(i) == a.take(i));
            lemma_segments_join(rest, b);
            let head = if i == 0 {
                Seq::<Seq<char>>::empty()
            } else {
                seq![a.take(i)]
            };
            assert(segments(s) == head + (segments(rest) + segments(b)));
            assert(segments(a) == head + segments(rest));
            assert(head + (segments(rest) + segments(b)) == (head + segments(rest)) + segments(b));
        },
        None => {
            assert forall|j: int| 0 <= j < a.len() implies s[j] != '/' by {
                assert(s[j] == a[j]);
            }
            lemma_first_index_is(s, '/', a.len() as int);
            assert(s.skip(a.len() as int + 1) == b);
            if a.len() == 0 {
                assert(segments(a) == Seq::<Seq<char>>::empty());
                assert(Seq::<Seq<char>>::empty() + segments(b) == segments(b));
            } else {
                assert(s.take(a.len() as int) == a);
                assert(segments(a) == seq![a]);
            }
        },
    }
}

/// Pruning at a folder never skips a match below it: where the pattern
/// matches `path`, `/` and `rest`, with `rest` holding some segment, the
/// pattern can match below `path`.
pub proof fn law_pruning_never_skips_a_match(pattern: Seq<char>, path: Seq<char>, rest: Seq<char>, ci: bool)
    requires
        segments(rest).len() > 0,
        path_match(segments(pattern), segments(path + "/"@ + rest), ci),
    ensures
        prefix_match(segments(pattern), segments(path), ci),
{
    lemma_segments_join(path, rest);
    law_could_match_below_is_sound(segments(pattern), segments(path), segments(rest), ci);
}

/// A pattern written `**/` then `q` matches a path exactly when `q`
/// matches what is left of the path after some number of its segments.
pub proof fn law_a_leading_double_star_skips_segments(q: Seq<char>, path: Seq<char>, ci: bool)
    ensures
        path_match(segments("**/"@ + q), segments(path), ci) <==> exists|k: int|
            0 <= k <= segments(path).len() && #[trigger] path_match(segments(q), segments(path).skip(k), ci),
{
    reveal_strlit("**/");
    reveal_strlit("/");
    let ds = seq!['*', '*'];
    assert("**/"@ + q == ds + "/"@ + q);
    lemma_segments_join(ds, q);
    lemma_first_index(ds, '/');
    assert(!ds.contains('/')) by {
        if ds.contains('/') {
            let i = choose|i: int| 0 <= i < ds.len() && ds[i] == '/';
        }
    }
    assert(segments(ds) == seq![ds]);
    let p = segments("**/"@ + q);
    assert(p == seq![double_star()] + segments(q));
    assert(p.drop_first() == segments(q));
    lemma_double_star(p, segments(path), ci);
}

pub(crate) proof fn lemma_segments_plain(x: Seq<char>)
    requires
        x.len() > 0,
        !x.contains('/'),
    ensures
        segments(x) == seq![x],
{
    lemma_first_index(x, '/');
}

/// Every segment of a path is non-empty and holds no `/`.
proof fn lemma_segments_shape(s: Seq<char>)
    ensures
        forall|i: int|
            0 <= i < segments(s).len() ==> (#[trigger] segments(s)[i]).len() > 0 && !segments(s)[i].contains('/'),
    decreases s.len(),
{
    if s.len() > 0 {
        lemma_first_index(s, '/');
        match first_index(s, '/') {
            None => {},
            Some(i) => {
                lemma_segments_shape(s.skip(i + 1));
                let head = if i == 0 {
                    Seq::<Seq<char>>::empty()
                } else {
                    seq![s.take(i)]
                };
                let tail = segments(s.skip(i + 1));
                assert(segments(s) == head + tail);
                assert forall|k: int| 0 <= k < segments(s).len() implies (#[trigger] segments(s)[k]).len() > 0
                    && !segments(s)[k].contains('/') by {
                    if k < head.len() {
                        assert(segments(s)[k] == s.take(i));
                    } else {
                        assert(segments(s)[k] == tail[k - head.len()]);
                    }
                }
            },
        }
    }
}

/// Joining segments with `/` and splitting again gives them back.
proof fn lemma_segments_of_join(n: Seq<Seq<char>>)
    requires
        forall|i: int| 0 <= i < n.len() ==> (#[trigger] n[i]).len() > 0 && !n[i].contains('/'),
    ensures
        segments(join_with(n, '/')) == n,
    decreases n.len(),
{
    reveal_strlit("/");
    if n.len() == 0 {
        assert(segments(join_with(n, '/')) == Seq::<Seq<char>>::empty());
    } else if n.len() == 1 {
        lemma_segments_plain(n[0]);
    } else {
        let d = n.drop_last();
        assert forall|i: int| 0 <= i < d.len() implies (#[trigger] d[i]).len() > 0 && !d[i].contains('/') by {
            assert(d[i] == n[i]);
        }
        lemma_segments_of_join(d);
        let j = join_with(d, '/');
        assert(j.push('/') + n.last() == j + "/"@ + n.last());
        lemma_segments_join(j, n.last());
        lemma_segments_plain(n.last());
        assert(d + seq![n.last()] == n);
    }
}

/// A pattern written `**/` then `q` matches a path exactly when `q` matches
/// the path left after dropping some number of its leading segments, written
/// back with `/`.
pub proof fn law_a_leading_double_star_skips_leading_segments(q: Seq<char>, path: Seq<char>, ci: bool)
    ensures
        path_match(segments("**/"@ + q), segments(path), ci) <==> exists|k: int|
            0 <= k <= segments(path).len() && #[trigger] path_match(
                segments(q),
                segments(join_with(segments(path).skip(k), '/')),
                ci,
            ),
{
    let n = segments(path);
    law_a_leading_double_star_skips_segments(q, path, ci);
    lemma_segments_shape(path);
    assert forall|k: int| 0 <= k <= n.len() implies #[trigger] segments(join_with(n.skip(k), '/')) == n.skip(k) by {
        let t = n.skip(k);
        assert forall|i: int| 0 <= i < t.len() implies (#[trigger] t[i]).len() > 0 && !t[i].contains('/') by {
            assert(t[i] == n[i + k]);
        }
        lemma_segments_of_join(t);
    }
    if path_match(segments("**/"@ + q), n, ci) {
        let k = choose|k: int| 0 <= k <= n.len() && #[trigger] path_match(segments(q), n.skip(k), ci);
        assert(segments(join_with(n.skip(k), '/')) == n.skip(k));
        assert(path_match(segments(q), segments(join_with(n.skip(k), '/')), ci));
    }
    if exists|k: int|
        0 <= k <= n.len() && #[trigger] path_match(segments(q), segments(join_with(n.skip(k), '/')), ci) {
        let k = choose|k: int|
            0 <= k <= n.len() && #[trigger] path_match(segments(q), segments(join_with(n.skip(k), '/')), ci);
        assert(segments(join_with(n.skip(k), '/')) == n.skip(k));
        assert(path_match(segments(q), n.skip(k), ci));
    }
}

/// The names a pattern stands for, read from its front: `*` any run of
/// characters (none included, see [`law_a_star_takes_any_run`]), `?` exactly one character, a closed `[...]`
/// one character of its set, and any other character (an unclosed `[`
/// too) itself.
pub open spec fn lang(p: Seq<char>, n: Seq<char>) -> bool
    decreases p.len(), n.len(),
{
    if p.len() == 0 {
        n.len() == 0
    } else if p[0] == '*' {
        lang(p.drop_first(), n) || (n.len() > 0 && lang(p, n.drop_first()))
    } else if p[0] == '?' {
        n.len() > 0 && lang(p.drop_first(), n.drop_first())
    } else if p[0] == '[' && class_end(p, 0) is Some && 0 < class_end(p, 0)->0 <= p.len() {
        n.len() > 0 && match class_match(p, 0, n[0]) {
            Some((m, _)) => m,
            None => false,
        } && lang(p.skip(class_end(p, 0)->0), n.drop_first())
    } else {
        n.len() > 0 && n[0] == p[0] && lang(p.drop_first(), n.drop_first())
    }
}

/// A `*` takes any run of the name, none included: the pattern from a `*`
/// matches exactly when the rest of the pattern matches what is left after
/// some number of leading characters.
pub proof fn law_a_star_takes_any_run(p: Seq<char>, n: Seq<char>)
    requires
        p.len() > 0,
        p[0] == '*',
    ensures
        lang(p, n) <==> exists|k: int| 0 <= k <= n.len() && #[trigger] lang(p.drop_first(), n.skip(k)),
    decreases n.len(),
{
    assert(n.skip(0) == n);
    if n.len() > 0 {
        law_a_star_takes_any_run(p, n.drop_first());
        let t = n.drop_first();
        if lang(p.drop_first(), n) {
            assert(lang(p.drop_first(), n.skip(0)));
        }
        if lang(p, n) && !lang(p.drop_first(), n) {
            let k = choose|k: int| 0 <= k <= t.len() && #[trigger] lang(p.drop_first(), t.skip(k));
            assert(t.skip(k) == n.skip(k + 1));
            assert(lang(p.drop_first(), n.skip(k + 1)));
        }
        if exists|k: int| 0 <= k <= n.len() && #[trigger] lang(p.drop_first(), n.skip(k)) {
            let k = choose|k: int| 0 <= k <= n.len() && #[trigger] lang(p.drop_first(), n.skip(k));
            if k > 0 {
                assert(t.skip(k - 1) == n.skip(k));
                assert(lang(p.drop_first(), t.skip(k - 1)));
            } else {
                assert(lang(p.drop_first(), n));
            }
        }
    } else {
        if exists|k: int| 0 <= k <= n.len() && #[trigger] lang(p.drop_first(), n.skip(k)) {
            let k = choose|k: int| 0 <= k <= n.len() && #[trigger] lang(p.drop_first(), n.skip(k));
            assert(k == 0);
            assert(lang(p.drop_first(), n));
        }
        if lang(p, n) {
            assert(lang(p.drop_first(), n.skip(0)));
        }
    }
}

/// Reading a class from a later start of the pattern's text reads the same.
proof fn lemma_class_shift(p: Seq<char>, d: int, i: int, c: char, negate: bool, matched: bool, first: bool)
    requires
        0 <= d <= i,
        d <= p.len(),
    ensures
        class_end_from(p.skip(d), i - d, first) == (match class_end_from(p, i, first) {
            Some(e) => Some(e - d),
            None => None,
        }),
        class_scan(p.skip(d), c, i - d, negate, matched, first) == (match class_scan(p, c, i, negate, matched, first) {
            Some((m, e)) => Some((m, e - d)),
            None => None,
        }),
    decreases p.len() - i,
{
    let q = p.skip(d);
    if i >= p.len() {
    } else {
        assert(q[i - d] == p[i]);
        if p[i] == ']' && !first {
        } else if i + 2 < p.len() && p[i + 1] == '-' && p[i + 2] != ']' {
            assert(q[i - d + 1] == p[i + 1]);
            assert(q[i - d + 2] == p[i + 2]);
            lemma_class_shift(
                p,
                d,
                i + 3,
                c,
                negate,
                matched || ((p[i] as u32) <= (c as u32) && (c as u32) <= (p[i + 2] as u32)),
                false,
            );
        } else {
            if i + 2 < p.len() {
                assert(q[i - d + 1] == p[i + 1]);
                assert(q[i - d + 2] == p[i + 2]);
            }
            lemma_class_shift(p, d, i + 1, c, negate, matched || p[i] == c, false);
        }
    }
}

/// A class read at `i` of the pattern is the class read at the front of
/// the pattern's text from `i`.
proof fn lemma_class_at(p: Seq<char>, i: int, c: char)
    requires
        0 <= i < p.len(),
    ensures
        class_end(p.skip(i), 0) == (match class_end(p, i) {
            Some(e) => Some(e - i),
            None => None,
        }),
        class_match(p.skip(i), 0, c) == (match class_match(p, i, c) {
            Some((m, e)) => Some((m, e - i)),
            None => None,
        }),
{
    let q = p.skip(i);
    if i + 1 < p.len() {
        assert(q[1] == p[i + 1]);
    }
    assert(class_negated(q, 0) == class_negated(p, i));
    let neg = class_negated(p, i);
    let start = i + 1 + (if neg { 1int } else { 0int });
    lemma_class_shift(p, i, start, c, neg, false, true);
}

proof fn lemma_glob_lang(p: Seq<char>, n: Seq<char>, i: int, j: int)
    requires
        0 <= i <= p.len(),
        0 <= j <= n.len(),
    ensures
        glob_from(p, n, i, j) == lang(p.skip(i), n.skip(j)),
    decreases p.len() - i, n.len() - j,
{
    let q = p.skip(i);
    let m = n.skip(j);
    if i == p.len() {
        assert(q.len() == 0);
    } else if p[i] == '*' {
        assert(q[0] == '*');
        assert(q.drop_first() == p.skip(i + 1));
        lemma_star(p, n, i, j);
        law_a_star_takes_any_run(q, m);
        if glob_from(p, n, i, j) {
            let k = choose|k: int| j <= k <= n.len() && #[trigger] glob_from(p, n, i + 1, k);
            lemma_glob_lang(p, n, i + 1, k);
            assert(m.skip(k - j) == n.skip(k));
            assert(lang(q.drop_first(), m.skip(k - j)));
        }
        if lang(q, m) {
            let k = choose|k: int| 0 <= k <= m.len() && #[trigger] lang(q.drop_first(), m.skip(k));
            assert(m.skip(k) == n.skip(j + k));
            lemma_glob_lang(p, n, i + 1, j + k);
            assert(glob_from(p, n, i + 1, j + k));
        }
    } else {
        assert(q[0] == p[i]);
        lemma_class_match_end(p, i, if j < n.len() { n[j] } else { 'a' });
        lemma_class_at(p, i, if j < n.len() { n[j] } else { 'a' });
        if j == n.len() {
            assert(m.len() == 0);
        } else {
            assert(m[0] == n[j]);
            assert(m.drop_first() == n.skip(j + 1));
            let st = step(p, i);
            lemma_glob_lang(p, n, st, j + 1);
            if p[i] == '[' && class_end(p, i) is Some {
                let e = class_end(p, i)->0;
                assert(q.skip(e - i) == p.skip(e));
            } else {
                assert(q.drop_first() == p.skip(i + 1));
            }
        }
    }
}

/// A segment pattern matches a name exactly when the name is in the
/// pattern's language, after folding both to lower case when case is to be
/// ignored.
pub proof fn law_a_segment_matches_by_the_pattern_language(pattern: Seq<char>, name: Seq<char>, ci: bool)
    ensures
        seg_match(pattern, name, ci) == if ci {
            lang(fold_spec(pattern), fold_spec(name))
        } else {
            lang(pattern, name)
        },
{
    lemma_glob_lang(fold_spec(pattern), fold_spec(name), 0, 0);
    lemma_glob_lang(pattern, name, 0, 0);
    assert(pattern.skip(0) == pattern);
    assert(name.skip(0) == name);
    assert(fold_spec(pattern).skip(0) == fold_spec(pattern));
    assert(fold_spec(name).skip(0) == fold_spec(name));
}

/// Without `**`, a pattern matches a path segment by segment: the path has
/// as many segments as the pattern, and each matches its own.
pub proof fn law_matching_without_double_star_is_segment_wise(p: Seq<Seq<char>>, n: Seq<Seq<char>>, ci: bool)
    requires
        forall|i: int| 0 <= i < p.len() ==> #[trigger] p[i] != double_star(),
    ensures
        path_match(p, n, ci) <==> (p.len() == n.len() && forall|i: int|
            0 <= i < p.len() ==> seg_match(#[trigger] p[i], n[i], ci)),
    decreases p.len(),
{
    if p.len() > 0 {
        assert(p[0] != double_star());
        let pt = p.drop_first();
        assert forall|i: int| 0 <= i < pt.len() implies #[trigger] pt[i] != double_star() by {
            assert(pt[i] == p[i + 1]);
        }
        if n.len() > 0 {
            let nt = n.drop_first();
            law_matching_without_double_star_is_segment_wise(pt, nt, ci);
            if p.len() == n.len() && forall|i: int| 0 <= i < p.len() ==> seg_match(#[trigger] p[i], n[i], ci) {
                assert(seg_match(p[0], n[0], ci));
                assert forall|i: int| 0 <= i < pt.len() implies seg_match(#[trigger] pt[i], nt[i], ci) by {
                    assert(pt[i] == p[i + 1]);
                    assert(nt[i] == n[i + 1]);
                    assert(seg_match(p[i + 1], n[i + 1], ci));
                }
            }
            if path_match(p, n, ci) {
                assert forall|i: int| 0 <= i < p.len() implies seg_match(#[trigger] p[i], n[i], ci) by {
                    if i > 0 {
                        assert(pt[i - 1] == p[i]);
                        assert(nt[i - 1] == n[i]);
                        assert(seg_match(pt[i - 1], nt[i - 1], ci));
                    }
                }
            }
        }
    }
}

/// Without wildcards, the pattern from `i` matches the name from `j`
/// exactly when the rests are equal.
proof fn lemma_literal_from(p: Seq<char>, n: Seq<char>, i: int, j: int)
    requires
        !has_wildcard_spec(p),
        0 <= i <= p.len(),
        0 <= j <= n.len(),
    ensures
        glob_from(p, n, i, j) == (p.subrange(i, p.len() as int) == n.subrange(j, n.len() as int)),
    decreases p.len() - i,
{
    if i >= p.len() {
        if j < n.len() {
            assert(n.subrange(j, n.len() as int).len() > 0);
        } else {
            assert(n.subrange(j, n.len() as int) =~= Seq::<char>::empty());
        }
        assert(p.subrange(i, p.len() as int) =~= Seq::<char>::empty());
    } else {
        assert(p[i] != '*' && p[i] != '?' && p[i] != '[') by {
            if p[i] == '*' {
                assert(p.contains('*'));
            }
            if p[i] == '?' {
                assert(p.contains('?'));
            }
            if p[i] == '[' {
                assert(p.contains('['));
            }
        }
        let rp = p.subrange(i, p.len() as int);
        let rn = n.subrange(j, n.len() as int);
        if j >= n.len() {
            assert(rn.len() == 0 && rp.len() > 0);
        } else {
            lemma_literal_from(p, n, i + 1, j + 1);
            assert(rp == seq![p[i]] + p.subrange(i + 1, p.len() as int));
            assert(rn == seq![n[j]] + n.subrange(j + 1, n.len() as int));
            if rp == rn {
                assert(rp[0] == rn[0]);
                assert(p.subrange(i + 1, p.len() as int) == rp.drop_first());
                assert(n.subrange(j + 1, n.len() as int) == rn.drop_first());
            }
            if p[i] == n[j] && p.subrange(i + 1, p.len() as int) == n.subrange(j + 1, n.len() as int) {
                assert(rp =~= rn);
            }
        }
    }
}

/// A pattern without wildcards matches exactly the equal name; without
/// regard to case, exactly the names that fold to its folded form, when
/// that holds no wildcard either.
pub proof fn law_a_plain_pattern_matches_its_equal_name(pattern: Seq<char>, name: Seq<char>)
    requires
        !has_wildcard_spec(pattern),
    ensures
        seg_match(pattern, name, false) == (pattern == name),
        !has_wildcard_spec(fold_spec(pattern)) ==> seg_match(pattern, name, true) == (fold_spec(pattern) == fold_spec(
            name,
        )),
{
    lemma_literal_from(pattern, name, 0, 0);
    assert(pattern.subrange(0, pattern.len() as int) == pattern);
    assert(name.subrange(0, name.len() as int) == name);
    if !has_wildcard_spec(fold_spec(pattern)) {
        let fp = fold_spec(pattern);
        let fnm = fold_spec(name);
        lemma_literal_from(fp, fnm, 0, 0);
        assert(fp.subrange(0, fp.len() as int) == fp);
        assert(fnm.subrange(0, fnm.len() as int) == fnm);
    }
}

/// A lone `*` matches every name.
pub proof fn law_star_matches_everything(name: Seq<char>)
    ensures
        glob(seq!['*'], name),
{
    lemma_star(seq!['*'], name, 0, 0);
    assert(glob_from(seq!['*'], name, 1, name.len() as int));
}

/// A lone `**` matches every path, the empty one included.
pub proof fn law_double_star_matches_every_path(path: Seq<Seq<char>>, ci: bool)
    ensures
        path_match(seq![double_star()], path, ci),
{
    let p = seq![double_star()];
    assert(p[0] == double_star());
    assert(p.drop_first() == Seq::<Seq<char>>::empty());
    assert(path.skip(path.len() as int) == Seq::<Seq<char>>::empty());
    assert(path_match(p.drop_first(), path.skip(path.len() as int), ci));
    lemma_double_star(p, path, ci);
}

/// Pruning is sound: when a path pattern matches a path that goes on below
/// `prefix`, the walk may not prune at `prefix`.
pub proof fn law_could_match_below_is_sound(
    pattern: Seq<Seq<char>>,
    prefix: Seq<Seq<char>>,
    rest: Seq<Seq<char>>,
    ci: bool,
)
    requires
        rest.len() > 0,
        path_match(pattern, prefix + rest, ci),
    ensures
        prefix_match(pattern, prefix, ci),
    decreases prefix.len(),
{
    if prefix.len() == 0 {
        if pattern.len() == 0 {
            assert((prefix + rest).len() > 0);
        }
    } else if pattern.len() == 0 {
    } else if pattern[0] == double_star() {
    } else {
        assert((prefix + rest).drop_first() == prefix.drop_first() + rest);
        assert((prefix + rest)[0] == prefix[0]);
        law_could_match_below_is_sound(pattern.drop_first(), prefix.drop_first(), rest, ci);
    }
}

} // verus!
