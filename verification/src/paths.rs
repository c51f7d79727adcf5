//! Paths as text, with the meaning `std::path` gives them on Unix: `/` is
//! the separator, a path is compared by its components (so `a//b/` equals
//! `a/b`), and joining a relative part adds one separator.

use vstd::prelude::*;
use crate::glob::{segments, split_segments, views};
use crate::text::{chars_eq, push_all, slice_chars};

verus! {

/// The root component.
pub open spec fn root_comp() -> Seq<char> {
    seq!['/']
}

pub open spec fn cur_comp() -> Seq<char> {
    seq!['.']
}

pub open spec fn parent_comp() -> Seq<char> {
    seq!['.', '.']
}

/// The pieces without the `.` ones, which a path ignores past its start.
pub open spec fn drop_dots(pieces: Seq<Seq<char>>) -> Seq<Seq<char>>
    decreases pieces.len(),
{
    if pieces.len() == 0 {
        Seq::empty()
    } else if pieces.last() == cur_comp() {
        drop_dots(pieces.drop_last())
    } else {
        drop_dots(pieces.drop_last()).push(pieces.last())
    }
}

/// Whether a relative path starts with a `.` component (`.` or `./...`).
pub open spec fn leading_cur(s: Seq<char>) -> bool {
    s.len() > 0 && s[0] == '.' && (s.len() == 1 || s[1] == '/')
}

/// The components of a path: `/` for the root, `.` for a leading current
/// folder, `..` for a parent step, and the names.
pub open spec fn comps(s: Seq<char>) -> Seq<Seq<char>> {
    (if s.len() > 0 && s[0] == '/' {
        seq![root_comp()]
    } else if leading_cur(s) {
        seq![cur_comp()]
    } else {
        Seq::empty()
    }) + drop_dots(segments(s))
}

/// Two paths are equal when their components are.
pub open spec fn path_eq(a: Seq<char>, b: Seq<char>) -> bool {
    comps(a) == comps(b)
}

/// `Path::starts_with`: `base`'s components lead `path`'s.
pub open spec fn path_starts_with(path: Seq<char>, base: Seq<char>) -> bool {
    comps(base).len() <= comps(path).len() && comps(path).take(comps(base).len() as int) == comps(
        base,
    )
}

/// `Path::parent().is_none()`: no components, or only the root.
pub open spec fn parentless(s: Seq<char>) -> bool {
    comps(s).len() == 0 || comps(s).last() == root_comp()
}

/// `Path::file_name`: the last component when it is a name.
pub open spec fn file_name(s: Seq<char>) -> Option<Seq<char>> {
    let c = comps(s);
    if c.len() == 0 || c.last() == root_comp() || c.last() == cur_comp() || c.last()
        == parent_comp() {
        None
    } else {
        Some(c.last())
    }
}

/// `PathBuf::push`/`join`: an absolute part replaces, otherwise one `/`
/// separates the two unless the base is empty or already ends with one.
pub open spec fn path_join(base: Seq<char>, part: Seq<char>) -> Seq<char> {
    if part.len() > 0 && part[0] == '/' {
        part
    } else if base.len() == 0 || base.last() == '/' {
        base + part
    } else {
        base.push('/') + part
    }
}

pub fn join(base: &[char], part: &[char]) -> (r: Vec<char>)
    ensures
        r@ == path_join(base@, part@),
{
    let mut r: Vec<char> = Vec::new();
    if part.len() > 0 && part[0] == '/' {
        push_all(&mut r, part);
        return r;
    }
    push_all(&mut r, base);
    if !(base.len() == 0 || base[base.len() - 1] == '/') {
        r.push('/');
    }
    push_all(&mut r, part);
    r
}

fn drop_dots_exec(pieces: &Vec<Vec<char>>) -> (r: Vec<Vec<char>>)
    ensures
        views(r@) == drop_dots(views(pieces@)),
{
    let mut r: Vec<Vec<char>> = Vec::new();
    let mut i: usize = 0;
    while i < pieces.len()
        invariant
            i <= pieces.len(),
            views(r@) == drop_dots(views(pieces@).take(i as int)),
        decreases pieces.len() - i,
    {
        let ghost t = views(pieces@).take(i + 1);
        assert(t.drop_last() == views(pieces@).take(i as int));
        assert(t.last() == pieces@[i as int]@);
        let p = &pieces[i];
        if !(p.len() == 1 && p[0] == '.') {
            assert(p@ != cur_comp());
            let ghost before = r@;
            let copy = slice_chars(p, 0, p.len());
            assert(copy@ == p@);
            r.push(copy);
            assert(views(r@) == views(before).push(p@));
        } else {
            assert(p@ == cur_comp());
        }
        i = i + 1;
    }
    assert(views(pieces@).take(pieces.len() as int) == views(pieces@));
    r
}

/// The components of a path.
pub fn components(v: &[char]) -> (r: Vec<Vec<char>>)
    ensures
        views(r@) == comps(v@),
{
    let mut r: Vec<Vec<char>> = Vec::new();
    if v.len() > 0 && v[0] == '/' {
        let mut c: Vec<char> = Vec::new();
        c.push('/');
        assert(c@ == root_comp());
        r.push(c);
    } else if v.len() > 0 && v[0] == '.' && (v.len() == 1 || v[1] == '/') {
        let mut c: Vec<char> = Vec::new();
        c.push('.');
        assert(c@ == cur_comp());
        r.push(c);
    }
    assert(views(r@) == (if v@.len() > 0 && v@[0] == '/' {
        seq![root_comp()]
    } else if leading_cur(v@) {
        seq![cur_comp()]
    } else {
        Seq::<Seq<char>>::empty()
    }));
    let segs = split_segments(v);
    let rest = drop_dots_exec(&segs);
    let ghost head = views(r@);
    let mut i: usize = 0;
    while i < rest.len()
        invariant
            i <= rest.len(),
            views(r@) == head + views(rest@).take(i as int),
        decreases rest.len() - i,
    {
        let copy = slice_chars(&rest[i], 0, rest[i].len());
        assert(copy@ == rest@[i as int]@);
        let ghost before = r@;
        r.push(copy);
        assert(views(r@) =~= views(before).push(rest@[i as int]@));
        i = i + 1;
        assert(views(rest@).take(i as int) == views(rest@).take(i - 1).push(rest@[i - 1]@));
    }
    assert(views(rest@).take(rest.len() as int) == views(rest@));
    r
}

fn comps_eq(a: &Vec<Vec<char>>, b: &Vec<Vec<char>>) -> (r: bool)
    ensures
        r == (views(a@) == views(b@)),
{
    if a.len() != b.len() {
        assert(views(a@).len() != views(b@).len());
        return false;
    }
    let mut i: usize = 0;
    while i < a.len()
        invariant
            i <= a.len(),
            a.len() == b.len(),
            forall|k: int| 0 <= k < i ==> #[trigger] views(a@)[k] == views(b@)[k],
        decreases a.len() - i,
    {
        if !chars_eq(&a[i], &b[i]) {
            assert(views(a@)[i as int] != views(b@)[i as int]);
            return false;
        }
        i = i + 1;
    }
    assert(views(a@) =~= views(b@));
    true
}

/// Whether two paths are the same path.
pub fn same_path(a: &[char], b: &[char]) -> (r: bool)
    ensures
        r == path_eq(a@, b@),
{
    let ca = components(a);
    let cb = components(b);
    comps_eq(&ca, &cb)
}

/// `Path::starts_with`.
pub fn starts_with_path(path: &[char], base: &[char]) -> (r: bool)
    ensures
        r == path_starts_with(path@, base@),
{
    let cp = components(path);
    let cb = components(base);
    if cb.len() > cp.len() {
        return false;
    }
    let mut i: usize = 0;
    while i < cb.len()
        invariant
            i <= cb.len() <= cp.len(),
            views(cp@) == comps(path@),
            views(cb@) == comps(base@),
            forall|k: int| 0 <= k < i ==> #[trigger] views(cp@)[k] == views(cb@)[k],
        decreases cb.len() - i,
    {
        if !chars_eq(&cp[i], &cb[i]) {
            assert(views(cp@)[i as int] == cp@[i as int]@);
            assert(views(cb@)[i as int] == cb@[i as int]@);
            assert(views(cp@).take(cb.len() as int)[i as int] != views(cb@)[i as int]);
            assert(views(cp@).take(cb.len() as int) != views(cb@));
            return false;
        }
        i = i + 1;
    }
    assert(views(cp@).take(cb.len() as int) =~= views(cb@));
    true
}

/// `Path::parent().is_none()`.
pub fn has_no_parent(v: &[char]) -> (r: bool)
    ensures
        r == parentless(v@),
{
    let c = components(v);
    if c.len() == 0 {
        return true;
    }
    let last = &c[c.len() - 1];
    assert(views(c@).last() == last@);
    last.len() == 1 && last[0] == '/' && {
        assert(last@ == root_comp());
        true
    }
}

/// `Path::file_name`.
pub fn file_name_of(v: &[char]) -> (r: Option<Vec<char>>)
    ensures
        r matches Some(n) ==> file_name(v@) == Some(n@),
        r is None ==> file_name(v@) is None,
{
    let c = components(v);
    if c.len() == 0 {
        return None;
    }
    let last = &c[c.len() - 1];
    assert(views(c@).last() == last@);
    if last.len() == 1 && (last[0] == '/' || last[0] == '.') {
        proof {
            if last@[0] == '/' {
                assert(last@ == root_comp());
            } else {
                assert(last@ == cur_comp());
            }
        }
        return None;
    }
    if last.len() == 2 && last[0] == '.' && last[1] == '.' {
        assert(last@ == parent_comp());
        return None;
    }
    assert(last@ != root_comp() && last@ != cur_comp() && last@ != parent_comp());
    Some(last.clone())
}

/// Whether any component is `..`.
pub open spec fn has_parent_step(s: Seq<char>) -> bool {
    comps(s).contains(parent_comp())
}

pub fn has_parent_component(v: &[char]) -> (r: bool)
    ensures
        r == has_parent_step(v@),
{
    let c = components(v);
    let ghost cv = views(c@);
    let mut i: usize = 0;
    while i < c.len()
        invariant
            i <= c.len(),
            cv == views(c@),
            cv == comps(v@),
            forall|k: int| 0 <= k < i ==> #[trigger] cv[k] != parent_comp(),
        decreases c.len() - i,
    {
        assert(cv[i as int] == c@[i as int]@);
        if c[i].len() == 2 && c[i][0] == '.' && c[i][1] == '.' {
            assert(cv[i as int] == parent_comp());
            assert(cv.contains(parent_comp()));
            return true;
        }
        proof {
            if cv[i as int] == parent_comp() {
                assert(cv[i as int].len() == 2);
            }
        }
        i = i + 1;
    }
    false
}

// ---- ordering --------------------------------------------------------------

/// Lexicographic order of texts by code point, which is the byte order of
/// their UTF-8 forms: negative, zero or positive.
pub open spec fn text_order(a: Seq<char>, b: Seq<char>) -> int
    decreases a.len(),
{
    if a.len() == 0 {
        if b.len() == 0 {
            0
        } else {
            -1
        }
    } else if b.len() == 0 {
        1
    } else if (a[0] as u32) < (b[0] as u32) {
        -1
    } else if (a[0] as u32) > (b[0] as u32) {
        1
    } else {
        text_order(a.drop_first(), b.drop_first())
    }
}

/// Text order is antisymmetric, and zero exactly on equal texts.
pub proof fn lemma_text_order(a: Seq<char>, b: Seq<char>)
    ensures
        text_order(a, b) == -text_order(b, a),
        -1 <= text_order(a, b) <= 1,
        (text_order(a, b) == 0) == (a == b),
    decreases a.len(),
{
    if a.len() > 0 && b.len() > 0 && a[0] == b[0] {
        lemma_text_order(a.drop_first(), b.drop_first());
        if a.drop_first() == b.drop_first() {
            assert(a =~= seq![a[0]] + a.drop_first());
            assert(b =~= seq![b[0]] + b.drop_first());
        }
    } else if a.len() > 0 && b.len() > 0 {
        vstd::utf8::char_u32_cast(a[0], a[0] as u32);
        vstd::utf8::char_u32_cast(b[0], b[0] as u32);
    } else if a.len() == 0 && b.len() == 0 {
        assert(a =~= b);
    }
}

/// Text order is transitive.
pub proof fn lemma_text_order_trans(a: Seq<char>, b: Seq<char>, c: Seq<char>)
    requires
        text_order(a, b) < 0,
        text_order(b, c) < 0,
    ensures
        text_order(a, c) < 0,
    decreases a.len(),
{
    if a.len() > 0 && b.len() > 0 && c.len() > 0 {
        vstd::utf8::char_u32_cast(a[0], a[0] as u32);
        vstd::utf8::char_u32_cast(b[0], b[0] as u32);
        vstd::utf8::char_u32_cast(c[0], c[0] as u32);
        if (a[0] as u32) == (b[0] as u32) && (b[0] as u32) == (c[0] as u32) {
            lemma_text_order_trans(a.drop_first(), b.drop_first(), c.drop_first());
        }
    }
}

/// Every earlier element comes before every later one.
pub open spec fn sorted_by<A>(s: Seq<A>, lt: spec_fn(A, A) -> bool) -> bool {
    forall|i: int, j: int| 0 <= i < j < s.len() ==> lt(#[trigger] s[i], #[trigger] s[j])
}

/// Under an asymmetric order that is total on their elements, two sorted
/// sequences with the same elements are the same sequence.
pub proof fn lemma_sorted_unique<A>(s: Seq<A>, t: Seq<A>, lt: spec_fn(A, A) -> bool)
    requires
        sorted_by(s, lt),
        sorted_by(t, lt),
        forall|x: A| #[trigger] s.contains(x) <==> t.contains(x),
        forall|a: A, b: A| #[trigger] lt(a, b) ==> !lt(b, a),
        forall|a: A, b: A| s.contains(a) && s.contains(b) && a != b ==> #[trigger] lt(a, b) || lt(b, a),
    ensures
        s == t,
    decreases s.len(),
{
    if s.len() == 0 {
        if t.len() > 0 {
            assert(t.contains(t[0]));
            assert(s.contains(t[0]));
        }
        assert(s =~= t);
    } else {
        assert(s.contains(s[0]));
        assert(t.contains(s[0]));
        assert(t.contains(t[0]));
        assert(s.contains(t[0]));
        if s[0] != t[0] {
            let j = choose|j: int| 0 <= j < s.len() && s[j] == t[0];
            let i = choose|i: int| 0 <= i < t.len() && t[i] == s[0];
            assert(lt(s[0], s[j]));
            assert(lt(t[0], t[i]));
        }
        let s1 = s.drop_first();
        let t1 = t.drop_first();
        assert forall|x: A| #[trigger] s1.contains(x) implies t1.contains(x) by {
            let k = choose|k: int| 0 <= k < s1.len() && s1[k] == x;
            assert(s[k + 1] == x);
            assert(lt(s[0], s[k + 1]));
            assert(s.contains(x));
            assert(t.contains(x));
            let m = choose|m: int| 0 <= m < t.len() && t[m] == x;
            if m == 0 {
                assert(s[0] == t[0]);
                assert(lt(x, x));
            } else {
                assert(t1[m - 1] == x);
            }
        }
        assert forall|x: A| #[trigger] t1.contains(x) implies s1.contains(x) by {
            let k = choose|k: int| 0 <= k < t1.len() && t1[k] == x;
            assert(t[k + 1] == x);
            assert(lt(t[0], t[k + 1]));
            assert(t.contains(x));
            assert(s.contains(x));
            let m = choose|m: int| 0 <= m < s.len() && s[m] == x;
            if m == 0 {
                assert(s[0] == t[0]);
                assert(lt(x, x));
            } else {
                assert(s1[m - 1] == x);
            }
        }
        assert forall|a: A, b: A| s1.contains(a) && s1.contains(b) && a != b implies #[trigger] lt(a, b) || lt(b, a) by {
            let ka = choose|k: int| 0 <= k < s1.len() && s1[k] == a;
            let kb = choose|k: int| 0 <= k < s1.len() && s1[k] == b;
            assert(s[ka + 1] == a && s[kb + 1] == b);
        }
        assert(sorted_by(s1, lt)) by {
            assert forall|i: int, j: int| 0 <= i < j < s1.len() implies lt(#[trigger] s1[i], #[trigger] s1[j]) by {
                assert(s1[i] == s[i + 1] && s1[j] == s[j + 1]);
            }
        }
        assert(sorted_by(t1, lt)) by {
            assert forall|i: int, j: int| 0 <= i < j < t1.len() implies lt(#[trigger] t1[i], #[trigger] t1[j]) by {
                assert(t1[i] == t[i + 1] && t1[j] == t[j + 1]);
            }
        }
        lemma_sorted_unique(s1, t1, lt);
        assert(s =~= seq![s[0]] + s1);
        assert(t =~= seq![t[0]] + t1);
    }
}

pub fn text_compare(a: &[char], b: &[char]) -> (r: i8)
    ensures
        r as int == text_order(a@, b@),
{
    let mut i: usize = 0;
    assert(a@.skip(0) == a@);
    assert(b@.skip(0) == b@);
    while i < a.len() && i < b.len()
        invariant
            i <= a.len(),
            i <= b.len(),
            text_order(a@, b@) == text_order(a@.skip(i as int), b@.skip(i as int)),
        decreases a.len() - i,
    {
        let x = a[i] as u32;
        let y = b[i] as u32;
        assert(a@.skip(i as int)[0] == a@[i as int]);
        assert(b@.skip(i as int)[0] == b@[i as int]);
        if x < y {
            return -1;
        }
        if x > y {
            return 1;
        }
        assert(a@.skip(i as int).drop_first() == a@.skip(i + 1));
        assert(b@.skip(i as int).drop_first() == b@.skip(i + 1));
        i = i + 1;
    }
    if a.len() == i && b.len() == i {
        0
    } else if a.len() == i {
        -1
    } else {
        1
    }
}

/// The order of component kinds: root, current, parent, then names.
pub open spec fn comp_rank(c: Seq<char>) -> int {
    if c == root_comp() {
        0
    } else if c == cur_comp() {
        1
    } else if c == parent_comp() {
        2
    } else {
        3
    }
}

pub open spec fn comp_order(a: Seq<char>, b: Seq<char>) -> int {
    if comp_rank(a) < comp_rank(b) {
        -1
    } else if comp_rank(a) > comp_rank(b) {
        1
    } else if comp_rank(a) == 3 {
        text_order(a, b)
    } else {
        0
    }
}

pub open spec fn comps_order(a: Seq<Seq<char>>, b: Seq<Seq<char>>) -> int
    decreases a.len(),
{
    if a.len() == 0 {
        if b.len() == 0 {
            0
        } else {
            -1
        }
    } else if b.len() == 0 {
        1
    } else if comp_order(a[0], b[0]) != 0 {
        comp_order(a[0], b[0])
    } else {
        comps_order(a.drop_first(), b.drop_first())
    }
}

/// `Ord for Path`: component by component.
pub open spec fn path_order(a: Seq<char>, b: Seq<char>) -> int {
    comps_order(comps(a), comps(b))
}

fn rank(c: &Vec<char>) -> (r: i8)
    ensures
        r as int == comp_rank(c@),
{
    if c.len() == 1 && c[0] == '/' {
        assert(c@ == root_comp());
        0
    } else if c.len() == 1 && c[0] == '.' {
        assert(c@ == cur_comp());
        1
    } else if c.len() == 2 && c[0] == '.' && c[1] == '.' {
        assert(c@ == parent_comp());
        2
    } else {
        proof {
            if c@ == root_comp() || c@ == cur_comp() || c@ == parent_comp() {
                assert(c@.len() <= 2);
            }
        }
        3
    }
}

fn comp_compare(a: &Vec<char>, b: &Vec<char>) -> (r: i8)
    ensures
        r as int == comp_order(a@, b@),
{
    let ra = rank(a);
    let rb = rank(b);
    if ra < rb {
        -1
    } else if ra > rb {
        1
    } else if ra == 3 {
        text_compare(a, b)
    } else {
        0
    }
}

/// Compares two paths as `Ord for Path` does.
pub fn path_compare(a: &[char], b: &[char]) -> (r: i8)
    ensures
        r as int == path_order(a@, b@),
{
    let ca = components(a);
    let cb = components(b);
    let ghost va = views(ca@);
    let ghost vb = views(cb@);
    let mut i: usize = 0;
    assert(va.skip(0) == va);
    assert(vb.skip(0) == vb);
    while i < ca.len() && i < cb.len()
        invariant
            i <= ca.len(),
            i <= cb.len(),
            va == views(ca@),
            vb == views(cb@),
            path_order(a@, b@) == comps_order(va.skip(i as int), vb.skip(i as int)),
        decreases ca.len() - i,
    {
        assert(va.skip(i as int)[0] == ca@[i as int]@);
        assert(vb.skip(i as int)[0] == cb@[i as int]@);
        let c = comp_compare(&ca[i], &cb[i]);
        if c != 0 {
            return c;
        }
        assert(va.skip(i as int).drop_first() == va.skip(i + 1));
        assert(vb.skip(i as int).drop_first() == vb.skip(i + 1));
        i = i + 1;
    }
    if ca.len() == i && cb.len() == i {
        0
    } else if ca.len() == i {
        -1
    } else {
        1
    }
}

// ---- byte length -----------------------------------------------------------

/// The UTF-8 width of one character.
pub open spec fn utf8_width(c: char) -> nat {
    let u = c as u32;
    if u < 0x80 {
        1
    } else if u < 0x800 {
        2
    } else if u < 0x10000 {
        3
    } else {
        4
    }
}

/// The length in bytes of a text's UTF-8 form.
pub open spec fn utf8_len(s: Seq<char>) -> nat
    decreases s.len(),
{
    if s.len() == 0 {
        0
    } else {
        utf8_len(s.drop_last()) + utf8_width(s.last())
    }
}

pub fn byte_len(v: &[char]) -> (r: u128)
    ensures
        r == utf8_len(v@),
{
    let mut n: u128 = 0;
    let mut i: usize = 0;
    while i < v.len()
        invariant
            i <= v.len(),
            n == utf8_len(v@.take(i as int)),
            n <= 4 * i,
        decreases v.len() - i,
    {
        let u = v[i] as u32;
        let w: u128 = if u < 0x80 {
            1
        } else if u < 0x800 {
            2
        } else if u < 0x10000 {
            3
        } else {
            4
        };
        assert(v@.take(i + 1).drop_last() == v@.take(i as int));
        n = n + w;
        i = i + 1;
    }
    assert(v@.take(v.len() as int) == v@);
    n
}

} // verus!
