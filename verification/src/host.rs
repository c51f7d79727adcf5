//! The host's own small rules: artwork names and retry waits, the words
//! it reports, and the values it passes around.

use vstd::prelude::*;
use crate::paths::{join, path_join, text_compare, text_order};
use crate::placeholders::{opt_view, strs};
use crate::translate::increasing_texts;
use crate::cli::RowKind;
use crate::text::{
    all_digits, char_views, chars_eq, chars_of, decimal, decimal_of, digit_char, digits_value, ends_with, first_index,
    is_ascii_hexdigit, is_ascii_hexdigit_spec, lemma_first_index, parse_i64, parse_i64_spec, push_all,
    push_str, signed_decimal, signed_decimal_of, slice_chars, split_all, split_chars, string_of,
};

verus! {

/// The kinds of artwork the host caches.
#[derive(Debug, Clone, Copy, PartialEq, Eq, Hash, Structural)]
pub enum Kind {
    Hero,
    Logo,
    Header,
    Icon,
}

/// The names an artwork kind has in Steam's cache folders.
pub open spec fn steam_names_spec(kind: Kind) -> Seq<Seq<char>> {
    match kind {
        Kind::Hero => seq!["library_hero.jpg"@],
        Kind::Logo => seq!["logo.png"@],
        Kind::Header => seq!["header.jpg"@, "library_header.jpg"@],
        Kind::Icon => Seq::empty(),
    }
}

/// The older flat name's suffix.
pub open spec fn flat_suffix_spec(kind: Kind) -> Seq<char> {
    match kind {
        Kind::Hero => "library_hero.jpg"@,
        Kind::Logo => "logo.png"@,
        Kind::Header => "header.jpg"@,
        Kind::Icon => "icon.jpg"@,
    }
}

/// The file name an artwork kind is cached under.
pub open spec fn cached_name_spec(kind: Kind) -> Seq<char> {
    match kind {
        Kind::Hero => "hero.jpg"@,
        Kind::Logo => "logo.png"@,
        Kind::Header => "header.jpg"@,
        Kind::Icon => "icon.png"@,
    }
}

impl Kind {
    /// The file name in the cache.
    pub fn cached_name(self) -> (r: &'static str)
        ensures
            r@ == cached_name_spec(self),
    {
        match self {
            Kind::Hero => "hero.jpg",
            Kind::Logo => "logo.png",
            Kind::Header => "header.jpg",
            Kind::Icon => "icon.png",
        }
    }

    /// The largest size the UI draws it at, with room for high-DPI screens.
    pub fn max_size(self) -> (r: (u32, u32))
        ensures
            r == match self {
                Kind::Hero => (1280u32, 414u32),
                Kind::Logo => (640u32, 360u32),
                Kind::Header => (460u32, 215u32),
                Kind::Icon => (64u32, 64u32),
            },
    {
        match self {
            // A sidebar card is a thin strip of the hero art.
            Kind::Hero => (1280, 414),
            Kind::Logo => (640, 360),
            Kind::Header => (460, 215),
            Kind::Icon => (64, 64),
        }
    }

    /// File names in Steam's per-app cache folder and its subfolders.
    pub fn steam_names(self) -> (r: Vec<&'static str>)
        ensures
            r@.map_values(|n: &str| n@) == steam_names_spec(self),
    {
        match self {
            Kind::Hero => vec!["library_hero.jpg"],
            Kind::Logo => vec!["logo.png"],
            Kind::Header => vec!["header.jpg", "library_header.jpg"],
            Kind::Icon => Vec::new(),
        }
    }

    /// The older flat layout: `<appid>_<suffix>`.
    pub fn flat_suffix(self) -> (r: &'static str)
        ensures
            r@ == flat_suffix_spec(self),
    {
        match self {
            Kind::Hero => "library_hero.jpg",
            Kind::Logo => "logo.png",
            Kind::Header => "header.jpg",
            Kind::Icon => "icon.jpg",
        }
    }

    /// The name on Steam's image server; icons are not there.
    pub fn cdn_name(self) -> (r: Option<&'static str>)
        ensures
            match self {
                Kind::Hero => r matches Some(n) && n@ == "library_hero.jpg"@,
                Kind::Logo => r matches Some(n) && n@ == "logo.png"@,
                Kind::Header => r matches Some(n) && n@ == "header.jpg"@,
                Kind::Icon => r is None,
            },
    {
        match self {
            Kind::Hero => Some("library_hero.jpg"),
            Kind::Logo => Some("logo.png"),
            Kind::Header => Some("header.jpg"),
            Kind::Icon => None,
        }
    }
}

/// Steam names a game's icon by a 40-digit hexadecimal hash.
pub open spec fn is_icon_name_spec(name: Seq<char>) -> bool {
    ends_with(name, ".jpg"@) && name.len() - ".jpg"@.len() == 40 && forall|k: int|
        0 <= k < name.len() - ".jpg"@.len() ==> is_ascii_hexdigit_spec(#[trigger] name[k])
}

/// Whether a file name is a hash-named icon: 40 hexadecimal digits and
/// `.jpg`.
pub fn is_icon_name(name: &str) -> (r: bool)
    ensures
        r == is_icon_name_spec(name@),
{
    let v = chars_of(name);
    let suffix = chars_of(".jpg");
    if !crate::text::ends_with_chars(&v, &suffix) {
        return false;
    }
    let stem_len = v.len() - suffix.len();
    if stem_len != 40 {
        return false;
    }
    let mut i: usize = 0;
    while i < stem_len
        invariant
            i <= stem_len,
            stem_len == v@.len() - suffix@.len(),
            suffix@ == ".jpg"@,
            v@ == name@,
            forall|k: int| 0 <= k < i ==> is_ascii_hexdigit_spec(#[trigger] v@[k]),
        decreases stem_len - i,
    {
        if !is_ascii_hexdigit(v[i]) {
            assert(!is_ascii_hexdigit_spec(name@[i as int]));
            assert(0 <= i < name@.len() - ".jpg"@.len());
            return false;
        }
        i = i + 1;
    }
    true
}

/// A folder entry as plain values: its name and whether it is a folder.
pub type EntryView = (Seq<char>, bool);

/// Inserts an entry after every entry whose name does not come after its
/// own.
pub open spec fn insert_entry(s: Seq<EntryView>, x: EntryView) -> Seq<EntryView>
    decreases s.len(),
{
    if s.len() == 0 {
        seq![x]
    } else if text_order(s.last().0, x.0) <= 0 {
        s.push(x)
    } else {
        insert_entry(s.drop_last(), x).push(s.last())
    }
}

/// Folder entries sorted by name, entries with one name kept in order.
pub open spec fn sort_entries(s: Seq<EntryView>) -> Seq<EntryView>
    decreases s.len(),
{
    if s.len() == 0 {
        Seq::empty()
    } else {
        insert_entry(sort_entries(s.drop_last()), s.last())
    }
}

/// Each name under a folder.
pub open spec fn under(folder: Seq<char>, names: Seq<Seq<char>>) -> Seq<Seq<char>> {
    names.map_values(|n: Seq<char>| path_join(folder, n))
}

/// Where one entry of the app's cache folder may hold the art: a subfolder
/// holds it under the kind's names, and an icon is a hash-named file.
pub open spec fn entry_candidates(folder: Seq<char>, kind: Kind, e: EntryView) -> Seq<Seq<char>> {
    if e.1 {
        under(path_join(folder, e.0), steam_names_spec(kind))
    } else if kind == Kind::Icon && is_icon_name_spec(e.0) {
        seq![path_join(folder, e.0)]
    } else {
        Seq::empty()
    }
}

pub open spec fn entries_candidates(folder: Seq<char>, kind: Kind, es: Seq<EntryView>) -> Seq<Seq<char>>
    decreases es.len(),
{
    if es.len() == 0 {
        Seq::empty()
    } else {
        entries_candidates(folder, kind, es.drop_last()) + entry_candidates(folder, kind, es.last())
    }
}

/// Steam's cache of an app's art: `appcache/librarycache/<app>`.
pub open spec fn cache_folder(steam_root: Seq<char>) -> Seq<char> {
    path_join(path_join(steam_root, "appcache"@), "librarycache"@)
}

/// Where Steam may keep an app's art, in the order they are tried: the
/// app's cache folder under the kind's names, then each entry of that
/// folder by name, then the older flat name.
pub open spec fn steam_candidates_spec(steam_root: Seq<char>, app: u64, kind: Kind, entries: Seq<EntryView>) -> Seq<Seq<char>> {
    let cache = cache_folder(steam_root);
    let folder = path_join(cache, decimal(app as nat));
    under(folder, steam_names_spec(kind)) + entries_candidates(folder, kind, sort_entries(entries)) + seq![
        path_join(cache, decimal(app as nat) + "_"@ + flat_suffix_spec(kind)),
    ]
}

proof fn lemma_insert_entry(s: Seq<EntryView>, x: EntryView, p: int)
    requires
        0 <= p <= s.len(),
        p == 0 || text_order(s[p - 1].0, x.0) <= 0,
        forall|j: int| p <= j < s.len() ==> text_order(#[trigger] s[j].0, x.0) > 0,
    ensures
        insert_entry(s, x) == s.take(p).push(x) + s.skip(p),
    decreases s.len(),
{
    if s.len() == 0 {
        assert(s.take(p).push(x) + s.skip(p) =~= seq![x]);
    } else if text_order(s.last().0, x.0) <= 0 {
        assert(p == s.len());
        assert(s.take(p).push(x) + s.skip(p) =~= s.push(x));
    } else {
        let t = s.drop_last();
        lemma_insert_entry(t, x, p);
        assert(t.take(p).push(x) + t.skip(p) + seq![s.last()] =~= s.take(p).push(x) + s.skip(p));
    }
}

pub open spec fn entry_views(v: Seq<(String, bool)>) -> Seq<EntryView> {
    v.map_values(|e: (String, bool)| (e.0@, e.1))
}

fn sort_entry_list(v: Vec<(String, bool)>) -> (r: Vec<(String, bool)>)
    ensures
        entry_views(r@) == sort_entries(entry_views(v@)),
{
    let ghost orig = v@;
    let mut rest = v;
    let mut sorted: Vec<(String, bool)> = Vec::new();
    let mut i: usize = 0;
    assert(orig.len() == rest.len());
    while rest.len() > 0
        invariant
            i <= orig.len() <= usize::MAX,
            rest@ == orig.skip(i as int),
            entry_views(sorted@) == sort_entries(entry_views(orig.take(i as int))),
        decreases rest.len(),
    {
        let x = rest.remove(0);
        assert(x == orig[i as int]);
        let xv = chars_of(x.0.as_str());
        let mut p: usize = sorted.len();
        while p > 0 && text_compare(&chars_of(sorted[p - 1].0.as_str()), &xv) > 0
            invariant
                p <= sorted.len(),
                xv@ == x.0@,
                forall|j: int| p <= j < sorted.len() ==> text_order(#[trigger] entry_views(sorted@)[j].0, x.0@) > 0,
            decreases p,
        {
            p = p - 1;
        }
        let ghost before = sorted@;
        proof {
            lemma_insert_entry(entry_views(before), (x.0@, x.1), p as int);
            let w = entry_views(orig.take(i + 1));
            assert(w.drop_last() =~= entry_views(orig.take(i as int)));
            assert(w.last() == (x.0@, x.1));
            assert(orig.skip(i as int).drop_first() == orig.skip(i + 1));
        }
        sorted.insert(p, x);
        assert(entry_views(sorted@) =~= entry_views(before).take(p as int).push((xv@, x.1)) + entry_views(
            before,
        ).skip(p as int));
        i = i + 1;
    }
    assert(orig.take(orig.len() as int) == orig);
    sorted
}

fn push_under(out: &mut Vec<String>, folder: &[char], names: &Vec<&'static str>)
    ensures
        strs(final(out)@) == strs(old(out)@) + under(folder@, names@.map_values(|n: &str| n@)),
{
    let ghost start = strs(out@);
    let ghost ns = names@.map_values(|n: &str| n@);
    let mut i: usize = 0;
    while i < names.len()
        invariant
            i <= names.len(),
            ns == names@.map_values(|n: &str| n@),
            strs(out@) == start + under(folder@, ns.take(i as int)),
        decreases names.len() - i,
    {
        let ghost before = strs(out@);
        out.push(string_of(&join(folder, &chars_of(names[i]))));
        assert(ns.take(i + 1) == ns.take(i as int).push(names@[i as int]@));
        assert(under(folder@, ns.take(i + 1)) =~= under(folder@, ns.take(i as int)).push(path_join(folder@, names@[i as int]@)));
        assert(strs(out@) =~= before.push(path_join(folder@, names@[i as int]@)));
        i = i + 1;
    }
    assert(ns.take(names.len() as int) == ns);
}

/// Where Steam may keep an app's art, in the order they are tried. The
/// entries are those of the app's cache folder, a name and whether it is a
/// folder each; the first candidate that is a file holds the art.
pub fn steam_candidates(steam_root: &str, app: u64, kind: Kind, entries: Vec<(String, bool)>) -> (r: Vec<String>)
    ensures
        strs(r@) == steam_candidates_spec(steam_root@, app, kind, entry_views(entries@)),
{
    let cache = join(&join(&chars_of(steam_root), &chars_of("appcache")), &chars_of("librarycache"));
    let folder = join(&cache, &decimal_of(app));
    let names = kind.steam_names();
    let mut out: Vec<String> = Vec::new();
    assert(strs(out@) =~= Seq::<Seq<char>>::empty());
    push_under(&mut out, &folder, &names);
    let sorted = sort_entry_list(entries);
    let ghost es = entry_views(sorted@);
    let ghost start = strs(out@);
    let mut i: usize = 0;
    while i < sorted.len()
        invariant
            i <= sorted.len(),
            es == entry_views(sorted@),
            names@.map_values(|n: &str| n@) == steam_names_spec(kind),
            strs(out@) == start + entries_candidates(folder@, kind, es.take(i as int)),
        decreases sorted.len() - i,
    {
        assert(es.take(i + 1).drop_last() == es.take(i as int));
        assert(es.take(i + 1).last() == es[i as int]);
        let name = chars_of(sorted[i].0.as_str());
        let path = join(&folder, &name);
        let ghost before = strs(out@);
        if sorted[i].1 {
            push_under(&mut out, &path, &names);
        } else if kind == Kind::Icon && is_icon_name(sorted[i].0.as_str()) {
            out.push(string_of(&path));
            assert(strs(out@) =~= before + seq![path@]);
        } else {
            assert(strs(out@) =~= before + Seq::<Seq<char>>::empty());
        }
        assert(strs(out@) =~= start + entries_candidates(folder@, kind, es.take(i + 1)));
        i = i + 1;
    }
    assert(es.take(sorted.len() as int) == es);
    let mut flat = decimal_of(app);
    push_str(&mut flat, "_");
    push_str(&mut flat, kind.flat_suffix());
    let ghost before = strs(out@);
    out.push(string_of(&join(&cache, &flat)));
    assert(strs(out@) =~= before + seq![path_join(cache@, flat@)]);
    out
}

/// A marker that the image server had no such image, recently.
pub fn missing_marker(dir: &str, kind: Kind) -> (r: String)
    ensures
        r@ == path_join(dir@, cached_name_spec(kind) + ".missing"@),
{
    let mut name = chars_of(kind.cached_name());
    push_str(&mut name, ".missing");
    string_of(&join(&chars_of(dir), &name))
}

/// The first wait, in seconds, before an image that failed to download is
/// tried again.
pub const RETRY_FIRST: u64 = 300;

/// The longest wait, in seconds.
pub const RETRY_MAX: u64 = 21600;

/// Waits before images that failed to download are tried again: per app
/// and kind, when the next try may happen and the current wait, in seconds
/// on the caller's clock.
#[derive(Debug, Clone, Default)]
pub struct Backoff {
    pub next: Vec<((u64, Kind), (u64, u64))>,
}

/// The retry time and wait recorded for a key: the first entry for it.
pub open spec fn backoff_entry(next: Seq<((u64, Kind), (u64, u64))>, key: (u64, Kind)) -> Option<(u64, u64)>
    decreases next.len(),
{
    if next.len() == 0 {
        None
    } else if next[0].0 == key {
        Some(next[0].1)
    } else {
        backoff_entry(next.drop_first(), key)
    }
}

/// The wait after one more failure: the first wait, then twice the last up
/// to the longest.
pub open spec fn next_wait(previous: Option<(u64, u64)>) -> u64 {
    match previous {
        Some((_, w)) => if w * 2 > RETRY_MAX {
            RETRY_MAX
        } else {
            (w * 2) as u64
        },
        None => RETRY_FIRST,
    }
}

/// The wait after `n` failures in a row, one failure at a time.
pub open spec fn wait_after(n: nat) -> u64
    decreases n,
{
    if n <= 1 {
        RETRY_FIRST
    } else {
        next_wait(Some((0u64, wait_after((n - 1) as nat))))
    }
}

/// After `n` failures in a row the wait is the first wait doubled `n - 1`
/// times, up to the longest wait; and one more failure, whenever it comes,
/// gives the wait after `n + 1`.
pub proof fn law_the_wait_doubles_up_to_a_cap(n: nat, at: u64)
    requires
        n >= 1,
    ensures
        wait_after(n) == if RETRY_FIRST * vstd::arithmetic::power2::pow2((n - 1) as nat) < RETRY_MAX {
            RETRY_FIRST * vstd::arithmetic::power2::pow2((n - 1) as nat)
        } else {
            RETRY_MAX as int
        },
        next_wait(Some((at, wait_after(n)))) == wait_after(n + 1),
    decreases n,
{
    if n > 1 {
        law_the_wait_doubles_up_to_a_cap((n - 1) as nat, at);
        vstd::arithmetic::power2::lemma_pow2_unfold((n - 1) as nat);
        vstd::arithmetic::power2::lemma_pow2_pos((n - 2) as nat);
    } else {
        assert(vstd::arithmetic::power2::pow2(0) == 1) by {
            vstd::arithmetic::power2::lemma2_to64();
        }
    }
}

impl Backoff {
    fn find(&self, key: (u64, Kind)) -> (r: Option<usize>)
        ensures
            match r {
                Some(i) => i < self.next@.len() && self.next@[i as int].0 == key && backoff_entry(self.next@, key) == Some(self.next@[i as int].1)
                    && forall|j: int| 0 <= j < i ==> #[trigger] self.next@[j].0 != key,
                None => backoff_entry(self.next@, key) is None && forall|j: int| 0 <= j < self.next@.len() ==> #[trigger] self.next@[j].0 != key,
            },
    {
        let mut i: usize = 0;
        assert(self.next@.skip(0) == self.next@);
        while i < self.next.len()
            invariant
                i <= self.next.len(),
                backoff_entry(self.next@, key) == backoff_entry(self.next@.skip(i as int), key),
                forall|j: int| 0 <= j < i ==> #[trigger] self.next@[j].0 != key,
            decreases self.next.len() - i,
        {
            assert(self.next@.skip(i as int)[0] == self.next@[i as int]);
            if self.next[i].0.0 == key.0 && self.next[i].0.1 == key.1 {
                return Some(i);
            }
            assert(self.next@.skip(i as int).drop_first() == self.next@.skip(i + 1));
            i = i + 1;
        }
        assert(self.next@.skip(i as int).len() == 0);
        None
    }

    /// Whether the key's next try lies after `now`.
    pub fn waiting(&self, key: (u64, Kind), now: u64) -> (r: bool)
        ensures
            r == (backoff_entry(self.next@, key) matches Some((at, _)) && now < at),
    {
        match self.find(key) {
            Some(i) => now < self.next[i].1.0,
            None => false,
        }
    }

    /// Records a failure at `now`: the next try waits the next wait.
    pub fn failed(&mut self, key: (u64, Kind), now: u64)
        ensures
            backoff_entry(final(self).next@, key) == Some(
                (
                    if now + next_wait(backoff_entry(old(self).next@, key)) > u64::MAX {
                        u64::MAX
                    } else {
                        (now + next_wait(backoff_entry(old(self).next@, key))) as u64
                    },
                    next_wait(backoff_entry(old(self).next@, key)),
                ),
            ),
            forall|other: (u64, Kind)| other != key ==> #[trigger] backoff_entry(final(self).next@, other) == backoff_entry(old(self).next@, other),
    {
        let found = self.find(key);
        let wait: u64 = match found {
            Some(i) => {
                let w = self.next[i].1.1;
                if w > RETRY_MAX / 2 {
                    RETRY_MAX
                } else {
                    w * 2
                }
            },
            None => RETRY_FIRST,
        };
        let at: u64 = if now > u64::MAX - wait {
            u64::MAX
        } else {
            now + wait
        };
        let ghost before = self.next@;
        match found {
            Some(i) => {
                self.next[i] = (key, (at, wait));
                proof {
                    assert forall|q: (u64, Kind)| #[trigger] backoff_entry(self.next@, q) == if q == key { Some((at, wait)) } else { backoff_entry(before, q) } by {
                        lemma_entry_update(before, i as int, key, (at, wait), q);
                    }
                }
            },
            None => {
                self.next.insert(0, (key, (at, wait)));
                proof {
                    assert(self.next@.drop_first() == before);
                }
            },
        }
    }

    /// Forgets the key's failures.
    pub fn succeeded(&mut self, key: (u64, Kind))
        ensures
            backoff_entry(final(self).next@, key) is None,
            forall|other: (u64, Kind)| other != key ==> #[trigger] backoff_entry(final(self).next@, other) == backoff_entry(old(self).next@, other),
    {
        let mut kept: Vec<((u64, Kind), (u64, u64))> = Vec::new();
        let mut i: usize = 0;
        assert(self.next@.skip(0) == self.next@);
        while i < self.next.len()
            invariant
                i <= self.next.len(),
                backoff_entry(kept@, key) is None,
                forall|q: (u64, Kind)| q != key ==> #[trigger] backoff_entry(self.next@, q) == match backoff_entry(kept@, q) {
                    Some(v) => Some(v),
                    None => backoff_entry(self.next@.skip(i as int), q),
                },
            decreases self.next.len() - i,
        {
            let entry = self.next[i];
            let ghost before = kept@;
            assert(self.next@.skip(i as int)[0] == entry);
            assert(self.next@.skip(i as int).drop_first() == self.next@.skip(i + 1));
            if !(entry.0.0 == key.0 && entry.0.1 == key.1) {
                kept.push(entry);
                proof {
                    assert forall|q: (u64, Kind)| #[trigger] backoff_entry(kept@, q) == match backoff_entry(before, q) {
                        Some(v) => Some(v),
                        None => if entry.0 == q { Some(entry.1) } else { None },
                    } by {
                        lemma_entry_push(before, entry, q);
                    }
                }
            }
            i = i + 1;
        }
        assert(self.next@.skip(i as int).len() == 0);
        self.next = kept;
    }
}

proof fn lemma_entry_update(next: Seq<((u64, Kind), (u64, u64))>, i: int, key: (u64, Kind), v: (u64, u64), q: (u64, Kind))
    requires
        0 <= i < next.len(),
        next[i].0 == key,
        forall|j: int| 0 <= j < i ==> #[trigger] next[j].0 != key,
    ensures
        backoff_entry(next.update(i, (key, v)), q) == if q == key { Some(v) } else { backoff_entry(next, q) },
    decreases i,
{
    let u = next.update(i, (key, v));
    if i == 0 {
        assert(u[0] == (key, v));
        assert(u.drop_first() == next.drop_first());
    } else {
        assert(u[0] == next[0]);
        assert(u.drop_first() == next.drop_first().update(i - 1, (key, v)));
        lemma_entry_update(next.drop_first(), i - 1, key, v, q);
    }
}

proof fn lemma_entry_push(next: Seq<((u64, Kind), (u64, u64))>, e: ((u64, Kind), (u64, u64)), q: (u64, Kind))
    ensures
        backoff_entry(next.push(e), q) == match backoff_entry(next, q) {
            Some(v) => Some(v),
            None => if e.0 == q { Some(e.1) } else { None },
        },
    decreases next.len(),
{
    let p = next.push(e);
    if next.len() == 0 {
        assert(p[0] == e);
        assert(p.drop_first() =~= Seq::<((u64, Kind), (u64, u64))>::empty());
        assert(backoff_entry(p.drop_first(), q) is None);
    } else {
        assert(p[0] == next[0]);
        assert(p.drop_first() == next.drop_first().push(e));
        lemma_entry_push(next.drop_first(), e, q);
        if next[0].0 != q {
            assert(backoff_entry(p, q) == backoff_entry(p.drop_first(), q));
            assert(backoff_entry(next, q) == backoff_entry(next.drop_first(), q));
        }
    }
}

/// What showing the UI did.
#[derive(Debug, Clone, Copy, PartialEq, Eq, Structural)]
pub enum Shown {
    /// The connected UI was told to come to the front.
    Front,
    /// A UI was started.
    Started,
    /// One was started moments ago and is still connecting.
    Starting,
    /// There is no UI in this install (or it couldn't start).
    Unavailable,
}

impl Shown {
    pub fn as_str(self) -> (r: &'static str)
        ensures
            r@ == match self {
                Shown::Front => "front"@,
                Shown::Started => "started"@,
                Shown::Starting => "starting"@,
                Shown::Unavailable => "unavailable"@,
            },
    {
        match self {
            Shown::Front => "front",
            Shown::Started => "started",
            Shown::Starting => "starting",
            Shown::Unavailable => "unavailable",
        }
    }
}

/// An operation request, after the game was found.
#[derive(Debug, Clone)]
pub enum Request {
    Save { label: Option<String> },
    Load { checkpoint: Option<String> },
    Revert { checkpoint: String },
    Delete { checkpoint: String },
    Flush,
}

impl Request {
    pub fn kind(&self) -> (r: &'static str)
        ensures
            r@ == match *self {
                Request::Save { .. } => "save"@,
                Request::Load { .. } => "load"@,
                Request::Revert { .. } => "revert"@,
                Request::Delete { .. } => "delete"@,
                Request::Flush => "flush"@,
            },
    {
        match self {
            Request::Save { .. } => "save",
            Request::Load { .. } => "load",
            Request::Revert { .. } => "revert",
            Request::Delete { .. } => "delete",
            Request::Flush => "flush",
        }
    }
}

/// Whether a checkpoint folder is still the generation that was recorded.
#[derive(Debug, Clone, Copy, PartialEq, Eq, Structural)]
pub enum Verdict {
    Same,
    Changed,
    Gone,
    Unknown,
}

/// What a download got.
pub enum Fetched {
    /// The server says our copy is current (`304`).
    NotModified,
    Body { bytes: Vec<u8>, etag: Option<String> },
    /// The server doesn't have it (`404`, `410`).
    Missing,
}

/// What an HTTP status means for a download.
#[derive(Debug, Clone, Copy, PartialEq, Eq, Structural)]
pub enum Reply {
    NotModified,
    Missing,
    Body,
}

/// `304` keeps our copy, `404` and `410` mean the server has none, `200`
/// carries the body; anything else fails the download.
pub fn reply_for(url: &str, status: u16) -> (r: Result<Reply, String>)
    ensures
        status == 304 ==> r == Ok::<Reply, String>(Reply::NotModified),
        status == 404 || status == 410 ==> r == Ok::<Reply, String>(Reply::Missing),
        status == 200 ==> r == Ok::<Reply, String>(Reply::Body),
        status != 304 && status != 404 && status != 410 && status != 200 ==> (r matches Err(m) && m@ == url@
            + ": HTTP "@ + decimal(status as nat)),
{
    if status == 304 {
        Ok(Reply::NotModified)
    } else if status == 404 || status == 410 {
        Ok(Reply::Missing)
    } else if status == 200 {
        Ok(Reply::Body)
    } else {
        let mut m = chars_of(url);
        push_str(&mut m, ": HTTP ");
        push_all(&mut m, &decimal_of(status as u64));
        Err(string_of(&m))
    }
}

/// How a catalog update went.
#[derive(Debug, Clone, PartialEq, Eq)]
pub enum Outcome {
    /// `--no-catalog-update`.
    Off,
    /// The newest bundle is the one in use.
    Current,
    /// A newer bundle is in use now; a full scan was requested.
    Updated { revision: String },
    Failed(String),
}

/// What the UI last reported about itself.
#[derive(Debug, Clone, Default)]
pub struct UiReport {
    pub focused: bool,
    pub visible: bool,
    pub selected: Option<String>,
}

/// A path as text.
pub fn path_text(path: &str) -> (r: String)
    ensures
        r@ == path@,
{
    string_of(&chars_of(path))
}

/// A save location the user typed (an override or a custom game's), with
/// the real folder its root resolved to when it was configured.
#[derive(Debug, Clone, PartialEq, Eq)]
pub struct UserLocation {
    pub text: String,
    pub real_root: String,
}

/// A change to a game's configuration.
pub struct ConfigureRequest<'a> {
    pub name: Option<&'a str>,
    pub executable: Option<&'a str>,
    pub save_location: Option<&'a str>,
    pub reset_executable: bool,
    pub reset_save_location: bool,
}

/// The text of a page position: instance, game, history version and the
/// last row's sequence number, separated by `|`.
pub open spec fn cursor_spec(instance: Seq<char>, game: Seq<char>, version: u64, seq: i64) -> Seq<char> {
    instance + seq!['|'] + game + seq!['|'] + decimal(version as nat) + seq!['|'] + signed_decimal(seq as int)
}

/// A page position: one game, one host instance, one version of that game's
/// history, and where the last page ended.
pub fn cursor(instance: &str, game: &str, version: u64, seq: i64) -> (r: String)
    ensures
        r@ == cursor_spec(instance@, game@, version, seq),
{
    proof {
        reveal_strlit("|");
    }
    let mut m = chars_of(instance);
    push_str(&mut m, "|");
    push_str(&mut m, game);
    push_str(&mut m, "|");
    push_all(&mut m, &decimal_of(version));
    push_str(&mut m, "|");
    push_all(&mut m, &signed_decimal_of(seq));
    string_of(&m)
}

/// A command-line switch.
#[derive(Debug, Clone, Copy, PartialEq, Eq, Structural)]
pub enum OnOff {
    On,
    Off,
}

impl OnOff {
    pub fn value(self) -> (r: bool)
        ensures
            r == (self == OnOff::On),
    {
        match self {
            OnOff::On => true,
            OnOff::Off => false,
        }
    }
}

/// The host's command-line options. They never change a rule; they point
/// the host at other folders for development and tests, or turn OS
/// integrations off.
#[derive(Debug, Clone)]
pub struct Options {
    /// Start in the tray without showing the UI.
    pub minimized: bool,
    /// Use another data folder (development and tests).
    pub data_dir: Option<String>,
    /// Write or remove the sign-in entry (`on` or `off`), then exit.
    pub autostart: Option<String>,
    /// Simulated games and operations, for UI development.
    pub demo: bool,
    /// Never fetch a newer catalog.
    pub no_catalog_update: bool,
    /// No hotkeys, tray, sounds or sign-in changes (automated tests).
    pub no_integrations: bool,
    /// Use this catalog bundle instead of the built-in one (tests).
    pub catalog: Option<String>,
    /// Fetch catalog updates from this URL instead of the repository.
    pub catalog_url: Option<String>,
    /// Fetch Steam art from this base URL instead of Steam's CDN.
    pub artwork_url: Option<String>,
    /// Read the machine's folders and stores from this file.
    pub env: Option<String>,
    /// How often the monitor looks at processes, in milliseconds.
    pub poll_ms: u64,
    /// The periodic full scan's interval, in seconds.
    pub scan_interval_secs: u64,
    /// The minimum time between scans caused by the window gaining focus.
    pub focus_scan_cooldown_secs: u64,
    /// The Delete countdown, in milliseconds.
    pub delete_countdown_ms: u64,
    /// How long Save or Load may make no file progress before it's reported
    /// failed, in seconds.
    pub stall_secs: u64,
    /// Watch store locations even with integrations off (tests).
    pub watch: bool,
}

impl Default for Options {
    /// The options with nothing given on the command line.
    fn default() -> (r: Options)
        ensures
            !r.minimized && !r.demo && !r.no_catalog_update && !r.no_integrations && !r.watch,
            r.data_dir is None && r.autostart is None && r.catalog is None && r.catalog_url is None
                && r.artwork_url is None && r.env is None,
            r.poll_ms == 250 && r.scan_interval_secs == 900 && r.focus_scan_cooldown_secs == 20
                && r.delete_countdown_ms == 5000 && r.stall_secs == 30,
    {
        Options {
            minimized: false,
            data_dir: None,
            autostart: None,
            demo: false,
            no_catalog_update: false,
            no_integrations: false,
            catalog: None,
            catalog_url: None,
            artwork_url: None,
            env: None,
            poll_ms: 250,
            scan_interval_secs: 900,
            focus_scan_cooldown_secs: 20,
            delete_countdown_ms: 5000,
            stall_secs: 30,
            watch: false,
        }
    }
}

/// The largest the log file grows before it is rotated to `host.log.1`.
pub const MAX_LOG_BYTES: u64 = 1024 * 1024;

/// One line of the host's log: the time in brackets, then the text.
pub fn line(stamp: &str, text: &str) -> (r: String)
    ensures
        r@ == "["@ + stamp@ + "] "@ + text@ + "\n"@,
{
    let mut m = chars_of("[");
    push_str(&mut m, stamp);
    push_str(&mut m, "] ");
    push_str(&mut m, text);
    push_str(&mut m, "\n");
    string_of(&m)
}

/// Whether a log file of this size is rotated before the next line.
pub fn rotates(len: u64) -> (r: bool)
    ensures
        r == (len > MAX_LOG_BYTES),
{
    len > MAX_LOG_BYTES
}

// ---- history pages -----------------------------------------------------------

/// The page size when none is asked for.
pub const DEFAULT_PAGE: usize = 50;

/// The largest page.
pub const MAX_PAGE: usize = 500;

pub open spec fn page_limit_spec(limit: Option<usize>) -> usize {
    let l = match limit {
        Some(l) => l,
        None => DEFAULT_PAGE,
    };
    if l < 1 {
        1
    } else if l > MAX_PAGE {
        MAX_PAGE
    } else {
        l
    }
}

/// The page size asked for, between one row and the largest page.
pub fn page_limit(limit: Option<usize>) -> (r: usize)
    ensures
        r == page_limit_spec(limit),
{
    let l = match limit {
        Some(l) => l,
        None => DEFAULT_PAGE,
    };
    if l < 1 {
        1
    } else if l > MAX_PAGE {
        MAX_PAGE
    } else {
        l
    }
}

/// What is wrong with a page position.
#[derive(Debug, Clone, Copy, PartialEq, Eq, Structural)]
pub enum PositionError {
    /// It belongs to another host run, game or version of the history.
    Changed,
    /// Its row number is not a number.
    Bad,
}

impl PositionError {
    pub fn message(self) -> (r: &'static str)
        ensures
            r@ == match self {
                PositionError::Changed => "the history changed; read it again from the start"@,
                PositionError::Bad => "bad page position"@,
            },
    {
        match self {
            PositionError::Changed => "the history changed; read it again from the start",
            PositionError::Bad => "bad page position",
        }
    }
}

/// Where a history page starts: from the newest row without a position;
/// before the row a position names when it is one of this host run, game
/// and history version.
pub open spec fn position_spec(position: Option<Seq<char>>, instance: Seq<char>, game: Seq<char>, version: u64) -> Result<
    Option<i64>,
    PositionError,
> {
    match position {
        None => Ok(None),
        Some(text) => {
            let parts = split_all(text, '|');
            if parts.len() == 4 && parts[0] == instance && parts[1] == game && parts[2] == decimal(version as nat) {
                match parse_i64_spec(parts[3]) {
                    Some(v) => Ok(Some(v)),
                    None => Err(PositionError::Bad),
                }
            } else {
                Err(PositionError::Changed)
            }
        },
    }
}

/// Reads a page position against this host run, game and history version.
pub fn read_position(position: Option<&str>, instance: &str, game: &str, version: u64) -> (r: Result<Option<i64>, PositionError>)
    ensures
        r == position_spec(
            match position {
                Some(p) => Some(p@),
                None => None,
            },
            instance@,
            game@,
            version,
        ),
{
    match position {
        None => Ok(None),
        Some(text) => {
            let parts = split_chars(&chars_of(text), '|');
            proof {
                if parts@.len() == 4 {
                    assert(char_views(parts@)[0] == parts@[0]@);
                    assert(char_views(parts@)[1] == parts@[1]@);
                    assert(char_views(parts@)[2] == parts@[2]@);
                    assert(char_views(parts@)[3] == parts@[3]@);
                }
            }
            if parts.len() == 4 && chars_eq(&parts[0], &chars_of(instance)) && chars_eq(&parts[1], &chars_of(game))
                && chars_eq(&parts[2], &decimal_of(version)) {
                match parse_i64(&parts[3]) {
                    Some(v) => Ok(Some(v)),
                    None => Err(PositionError::Bad),
                }
            } else {
                Err(PositionError::Changed)
            }
        },
    }
}

/// The position the next page starts from: after the last row, when more
/// rows follow.
pub fn next_position(has_more: bool, last_seq: Option<i64>, instance: &str, game: &str, version: u64) -> (r: Option<String>)
    ensures
        match r {
            Some(c) => has_more && (last_seq matches Some(s) && c@ == cursor_spec(instance@, game@, version, s)),
            None => !has_more || last_seq is None,
        },
{
    if has_more {
        match last_seq {
            Some(s) => Some(cursor(instance, game, version, s)),
            None => None,
        }
    } else {
        None
    }
}

proof fn lemma_split_first(x: Seq<char>, rest: Seq<char>, sep: char)
    requires
        !x.contains(sep),
    ensures
        split_all(x + seq![sep] + rest, sep) == seq![x] + split_all(rest, sep),
{
    let s = x + seq![sep] + rest;
    lemma_first_index(s, sep);
    assert(s[x.len() as int] == sep);
    match first_index(s, sep) {
        Some(i) => {
            if i < x.len() {
                assert(x[i] == sep);
            }
            if i > x.len() {
                assert(s.take(i).contains(sep)) by {
                    assert(s.take(i)[x.len() as int] == sep);
                }
            }
            assert(s.take(i) == x);
            assert(s.skip(i + 1) == rest);
        },
        None => {
            assert(s.contains(sep));
        },
    }
}

proof fn lemma_split_single(x: Seq<char>, sep: char)
    requires
        !x.contains(sep),
    ensures
        split_all(x, sep) == seq![x],
{
    lemma_first_index(x, sep);
}

proof fn lemma_decimal_digits(n: nat)
    ensures
        decimal(n).len() > 0,
        all_digits(decimal(n)),
        digits_value(decimal(n)) == n,
    decreases n,
{
    let d = decimal(n);
    if n >= 10 {
        lemma_decimal_digits(n / 10);
        assert(d.drop_last() == decimal(n / 10));
        assert(d.last() == digit_char(n % 10));
        assert(digit_char(n % 10) as int == 48 + n % 10);
        assert(n == 10 * (n / 10) + n % 10);
        assert(digits_value(d) == 10 * digits_value(d.drop_last()) + (d.last() as int - 48));
        assert forall|k: int| 0 <= k < d.len() implies '0' <= #[trigger] d[k] <= '9' by {
            if k < d.len() - 1 {
                assert(d[k] == decimal(n / 10)[k]);
            }
        }
    } else {
        assert(d == seq![digit_char(n)]);
        assert(digit_char(n) as int == 48 + n);
        assert(d.drop_last() =~= Seq::<char>::empty());
        assert(digits_value(d) == 10 * digits_value(d.drop_last()) + (d.last() as int - 48));
    }
}

proof fn lemma_signed_decimal(seq: i64)
    ensures
        !signed_decimal(seq as int).contains('|'),
        parse_i64_spec(signed_decimal(seq as int)) == Some(seq),
{
    let t = signed_decimal(seq as int);
    if seq < 0 {
        let m = (-(seq as int)) as nat;
        lemma_decimal_digits(m);
        assert(t.drop_first() == decimal(m));
        assert forall|k: int| 0 <= k < t.len() implies t[k] != '|' by {
            if k > 0 {
                assert(t[k] == decimal(m)[k - 1]);
            }
        }
    } else {
        lemma_decimal_digits(seq as nat);
        assert(t[0] != '-' && t[0] != '+');
        assert forall|k: int| 0 <= k < t.len() implies t[k] != '|' by {
            assert('0' <= t[k] <= '9');
        }
    }
}

/// A page position is read back as where its page ended.
pub proof fn law_a_page_position_is_read_back(instance: Seq<char>, game: Seq<char>, version: u64, seq: i64)
    requires
        !instance.contains('|'),
        !game.contains('|'),
    ensures
        position_spec(Some(cursor_spec(instance, game, version, seq)), instance, game, version) == Ok::<
            Option<i64>,
            PositionError,
        >(Some(seq)),
{
    lemma_positions(instance, game, version, seq);
}

/// A page position of another host run, game or history version is
/// refused: the history changed.
pub proof fn law_a_stale_position_is_refused(
    instance: Seq<char>,
    game: Seq<char>,
    version: u64,
    seq: i64,
    now_instance: Seq<char>,
    now_game: Seq<char>,
    now_version: u64,
)
    requires
        !instance.contains('|'),
        !game.contains('|'),
        instance != now_instance || game != now_game || version != now_version,
    ensures
        position_spec(Some(cursor_spec(instance, game, version, seq)), now_instance, now_game, now_version) == Err::<
            Option<i64>,
            PositionError,
        >(PositionError::Changed),
{
    lemma_positions(instance, game, version, seq);
    lemma_decimal_digits(version as nat);
    lemma_decimal_digits(now_version as nat);
}

/// The parts of a page position.
proof fn lemma_positions(instance: Seq<char>, game: Seq<char>, version: u64, seq: i64)
    requires
        !instance.contains('|'),
        !game.contains('|'),
    ensures
        split_all(cursor_spec(instance, game, version, seq), '|') == seq![
            instance,
            game,
            decimal(version as nat),
            signed_decimal(seq as int),
        ],
        parse_i64_spec(signed_decimal(seq as int)) == Some(seq),
{
    let v = decimal(version as nat);
    let t = signed_decimal(seq as int);
    lemma_decimal_digits(version as nat);
    assert(!v.contains('|')) by {
        assert forall|k: int| 0 <= k < v.len() implies v[k] != '|' by {
            assert('0' <= v[k] <= '9');
        }
    }
    lemma_signed_decimal(seq);
    let c = cursor_spec(instance, game, version, seq);
    assert(c == instance + seq!['|'] + (game + seq!['|'] + v + seq!['|'] + t));
    lemma_split_first(instance, game + seq!['|'] + v + seq!['|'] + t, '|');
    assert(game + seq!['|'] + v + seq!['|'] + t == game + seq!['|'] + (v + seq!['|'] + t));
    lemma_split_first(game, v + seq!['|'] + t, '|');
    lemma_split_first(v, t, '|');
    lemma_split_single(t, '|');
}


// ---- real paths, looked up once ------------------------------------------------

/// A looked-up real path, or why it could not be had, as plain values.
pub open spec fn real_view(r: Result<String, String>) -> Result<Seq<char>, Seq<char>> {
    match r {
        Ok(p) => Ok(p@),
        Err(e) => Err(e@),
    }
}

/// What the entries say of each path: the answer recorded for it.
pub open spec fn cache_map(entries: Seq<(String, Result<String, String>)>) -> Map<Seq<char>, Result<Seq<char>, Seq<char>>>
    decreases entries.len(),
{
    if entries.len() == 0 {
        Map::empty()
    } else {
        cache_map(entries.drop_last()).insert(entries.last().0@, real_view(entries.last().1))
    }
}

/// Real paths already asked for during one pass over the games, so the file
/// system is asked once per path; and whether names compare without case.
pub struct CachedPaths {
    ci: bool,
    cache: Vec<(String, Result<String, String>)>,
}

impl CachedPaths {
    /// The recorded answers, by path.
    pub closed spec fn answers(&self) -> Map<Seq<char>, Result<Seq<char>, Seq<char>>> {
        cache_map(self.cache@)
    }

    /// Whether the file system compares names without case.
    pub closed spec fn ci_spec(&self) -> bool {
        self.ci
    }

    /// A cache with nothing recorded yet.
    pub fn new(ci: bool) -> (r: CachedPaths)
        ensures
            r.answers() == Map::<Seq<char>, Result<Seq<char>, Seq<char>>>::empty(),
            r.ci_spec() == ci,
    {
        CachedPaths { ci, cache: Vec::new() }
    }

    pub fn case_insensitive(&self) -> (r: bool)
        ensures
            r == self.ci_spec(),
    {
        self.ci
    }

    /// The answer recorded for the path, if it was asked for before.
    pub fn cached(&self, path: &str) -> (r: Option<Result<String, String>>)
        ensures
            match r {
                Some(v) => self.answers().contains_key(path@) && self.answers()[path@] == real_view(v),
                None => !self.answers().contains_key(path@),
            },
    {
        let want = chars_of(path);
        let mut i: usize = self.cache.len();
        while i > 0
            invariant
                i <= self.cache@.len(),
                want@ == path@,
                forall|k: int| i <= k < self.cache@.len() ==> #[trigger] self.cache@[k].0@ != path@,
            decreases i,
        {
            i = i - 1;
            if chars_eq(&chars_of(self.cache[i].0.as_str()), &want) {
                let value = match &self.cache[i].1 {
                    Ok(p) => Ok(p.clone()),
                    Err(e) => Err(e.clone()),
                };
                proof {
                    lemma_cache_last(self.cache@, i as int);
                }
                return Some(value);
            }
        }
        proof {
            lemma_cache_absent(self.cache@, path@);
        }
        None
    }

    /// Records the answer for the path.
    pub fn remember(&mut self, path: &str, value: Result<String, String>)
        ensures
            final(self).answers() == old(self).answers().insert(path@, real_view(value)),
            final(self).ci_spec() == old(self).ci_spec(),
    {
        let key = string_of(&chars_of(path));
        let ghost before = self.cache@;
        self.cache.push((key, value));
        assert(self.cache@.drop_last() == before);
    }
}

/// The answer for a path is that of its last entry.
proof fn lemma_cache_last(entries: Seq<(String, Result<String, String>)>, i: int)
    requires
        0 <= i < entries.len(),
        forall|k: int| i < k < entries.len() ==> #[trigger] entries[k].0@ != entries[i].0@,
    ensures
        cache_map(entries).contains_key(entries[i].0@),
        cache_map(entries)[entries[i].0@] == real_view(entries[i].1),
    decreases entries.len(),
{
    if i < entries.len() - 1 {
        let init = entries.drop_last();
        assert forall|k: int| i < k < init.len() implies #[trigger] init[k].0@ != init[i].0@ by {
            assert(init[k] == entries[k]);
        }
        lemma_cache_last(init, i);
        assert(init[i] == entries[i]);
        assert(entries.last().0@ != entries[i].0@);
    }
}

/// A path no entry names has no answer.
proof fn lemma_cache_absent(entries: Seq<(String, Result<String, String>)>, path: Seq<char>)
    requires
        forall|k: int| 0 <= k < entries.len() ==> #[trigger] entries[k].0@ != path,
    ensures
        !cache_map(entries).contains_key(path),
    decreases entries.len(),
{
    if entries.len() > 0 {
        let init = entries.drop_last();
        assert forall|k: int| 0 <= k < init.len() implies #[trigger] init[k].0@ != path by {
            assert(init[k] == entries[k]);
        }
        lemma_cache_absent(init, path);
    }
}


// ---- what the host lets a game do ------------------------------------------------

/// Why the host refuses an action.
#[derive(Debug, Clone, Copy, PartialEq, Eq, Structural)]
pub enum ErrorKind {
    Starting,
    ShuttingDown,
    Busy,
    Blocked,
    InvalidRequest,
    NoSaveLocation,
    AccessNeeded,
    InvalidTarget,
    StoreUnavailable,
    TargetUnavailable,
    NoGameData,
    NoSaves,
    CheckpointUnreadable,
    DifferentSaveSet,
    CheckpointChanged,
    InvalidConfig,
    NotFound,
}

/// Where the host is in its life.
#[derive(Debug, Clone, Copy, PartialEq, Eq, Structural)]
pub enum Phase {
    Starting,
    Ready,
    ShuttingDown,
}

/// What decides whether a game can be saved or loaded right now.
#[derive(Debug, Clone, Copy)]
pub struct GameFacts {
    /// The game's save targets: whether any of them can't be read right
    /// now, or the kind of the failure that left it without targets.
    pub active: Result<bool, ErrorKind>,
    pub store_available: bool,
    pub store_moving: bool,
    /// The game waits on an interrupted operation.
    pub blocked: bool,
    /// Another operation runs for the game.
    pub busy: bool,
    /// Some save location matches something.
    pub has_data: bool,
    /// The game has a checkpoint to load.
    pub has_latest: bool,
}

/// The reason both Save and Load are refused, checked in order: the
/// targets' failure (kept when it is about the location or access, else an
/// invalid target), the store out of reach or being moved, the game blocked
/// or busy, a target that can't be read.
pub open spec fn common_refusal(f: GameFacts) -> Option<ErrorKind> {
    match f.active {
        Err(k) => Some(
            if k == ErrorKind::NoSaveLocation || k == ErrorKind::AccessNeeded {
                k
            } else {
                ErrorKind::InvalidTarget
            },
        ),
        Ok(unknown) => if !f.store_available {
            Some(ErrorKind::StoreUnavailable)
        } else if f.store_moving {
            Some(ErrorKind::Busy)
        } else if f.blocked {
            Some(ErrorKind::Blocked)
        } else if f.busy {
            Some(ErrorKind::Busy)
        } else if unknown {
            Some(ErrorKind::TargetUnavailable)
        } else {
            None
        },
    }
}

/// Why Save (first) and Load (second) are refused, `None` when allowed:
/// the common reason, else Save needs game data and Load a checkpoint.
pub open spec fn availability_spec(f: GameFacts) -> (Option<ErrorKind>, Option<ErrorKind>) {
    match common_refusal(f) {
        Some(k) => (Some(k), Some(k)),
        None => (
            if f.has_data {
                None
            } else {
                Some(ErrorKind::NoGameData)
            },
            if f.has_latest {
                None
            } else {
                Some(ErrorKind::NoSaves)
            },
        ),
    }
}

/// Why Save and Load are or aren't available right now.
pub fn availability(f: &GameFacts) -> (r: (Option<ErrorKind>, Option<ErrorKind>))
    ensures
        r == availability_spec(*f),
{
    let common: Option<ErrorKind> = match f.active {
        Err(k) => Some(
            match k {
                ErrorKind::NoSaveLocation => ErrorKind::NoSaveLocation,
                ErrorKind::AccessNeeded => ErrorKind::AccessNeeded,
                _ => ErrorKind::InvalidTarget,
            },
        ),
        Ok(unknown) => {
            if !f.store_available {
                Some(ErrorKind::StoreUnavailable)
            } else if f.store_moving {
                Some(ErrorKind::Busy)
            } else if f.blocked {
                Some(ErrorKind::Blocked)
            } else if f.busy {
                Some(ErrorKind::Busy)
            } else if unknown {
                Some(ErrorKind::TargetUnavailable)
            } else {
                None
            }
        },
    };
    match common {
        Some(k) => (Some(k), Some(k)),
        None => {
            let save = if f.has_data {
                None
            } else {
                Some(ErrorKind::NoGameData)
            };
            let load = if f.has_latest {
                None
            } else {
                Some(ErrorKind::NoSaves)
            };
            (save, load)
        },
    }
}

/// What a host in the phase answers every operation request, if it refuses it.
pub open spec fn phase_refusal_spec(phase: Phase) -> Option<(ErrorKind, Seq<char>)> {
    match phase {
        Phase::Starting => Some((ErrorKind::Starting, "the host is still starting"@)),
        Phase::ShuttingDown => Some((ErrorKind::ShuttingDown, "the host is shutting down"@)),
        Phase::Ready => None,
    }
}

/// A request is taken only while the host is ready.
pub fn phase_refusal(phase: Phase) -> (r: Option<(ErrorKind, &'static str)>)
    ensures
        match r {
            Some((k, m)) => phase_refusal_spec(phase) == Some((k, m@)),
            None => phase_refusal_spec(phase) is None,
        },
{
    match phase {
        Phase::Starting => Some((ErrorKind::Starting, "the host is still starting")),
        Phase::ShuttingDown => Some((ErrorKind::ShuttingDown, "the host is shutting down")),
        Phase::Ready => None,
    }
}

/// Why a request for a found game is refused, checked in order: the store
/// being moved, the game blocked, then for a Delete the same checkpoint
/// already being deleted, for anything else another operation running for
/// the game. Deletes of different checkpoints run side by side.
pub open spec fn request_refusal_spec(store_moving: bool, blocked: bool, is_delete: bool, deleting_same: bool, busy: bool) -> Option<(ErrorKind, Seq<char>)> {
    if store_moving {
        Some((ErrorKind::Busy, "the checkpoint store is being moved"@))
    } else if blocked {
        Some((ErrorKind::Blocked, "the game waits on an interrupted operation"@))
    } else if is_delete {
        if deleting_same {
            Some((ErrorKind::InvalidRequest, "this checkpoint is already being deleted"@))
        } else {
            None
        }
    } else if busy {
        Some((ErrorKind::Busy, "another operation runs for this game"@))
    } else {
        None
    }
}

/// Whether the host takes a request for a game it found: `deleting_same`
/// says whether a pending Delete names the requested checkpoint, `busy`
/// whether another operation runs for the game.
pub fn request_refusal(store_moving: bool, blocked: bool, request: &Request, deleting_same: bool, busy: bool) -> (r: Option<(ErrorKind, &'static str)>)
    ensures
        match r {
            Some((k, m)) => request_refusal_spec(store_moving, blocked, request is Delete, deleting_same, busy) == Some((k, m@)),
            None => request_refusal_spec(store_moving, blocked, request is Delete, deleting_same, busy) is None,
        },
{
    if store_moving {
        return Some((ErrorKind::Busy, "the checkpoint store is being moved"));
    }
    if blocked {
        return Some((ErrorKind::Blocked, "the game waits on an interrupted operation"));
    }
    match request {
        Request::Delete { .. } => {
            if deleting_same {
                return Some((ErrorKind::InvalidRequest, "this checkpoint is already being deleted"));
            }
        },
        _ => {
            if busy {
                return Some((ErrorKind::Busy, "another operation runs for this game"));
            }
        },
    }
    None
}

/// Which game the hotkeys act on: the selected game while the window is
/// focused and the game is known, otherwise the top of the active stack;
/// with where the choice came from.
pub open spec fn hotkey_target_spec(ui: UiReport, selected_known: bool, top: Option<Seq<char>>) -> Option<(Seq<char>, Seq<char>)> {
    if ui.focused && ui.selected is Some && selected_known {
        Some((ui.selected->0@, "window"@))
    } else {
        match top {
            Some(g) => Some((g, "stack"@)),
            None => None,
        }
    }
}

/// The hotkeys' game: `selected_known` says whether the selected game is
/// one the host knows, `top` is the top of the active stack.
pub fn hotkey_target(ui: &UiReport, selected_known: bool, top: Option<&str>) -> (r: Option<(String, &'static str)>)
    ensures
        match r {
            Some((g, from)) => hotkey_target_spec(*ui, selected_known, opt_str(top)) == Some((g@, from@)),
            None => hotkey_target_spec(*ui, selected_known, opt_str(top)) is None,
        },
{
    if ui.focused && selected_known {
        if let Some(selected) = &ui.selected {
            return Some((selected.clone(), "window"));
        }
    }
    match top {
        Some(g) => Some((string_of(&chars_of(g)), "stack")),
        None => None,
    }
}

/// An optional text as plain values.
pub open spec fn opt_str(t: Option<&str>) -> Option<Seq<char>> {
    match t {
        Some(s) => Some(s@),
        None => None,
    }
}


// ---- checkpoints on disk ---------------------------------------------------------

/// Whether something is on disk, as far as can be told.
#[derive(Debug, Clone, Copy, PartialEq, Eq, Structural)]
pub enum Presence {
    Present,
    Missing,
    Unknown,
}

/// What a checkpoint folder is, from its presence and, when present, the
/// signature read from it (`None` when it could not be read): gone, unknown,
/// or the recorded generation when the hashes match and the identities do
/// wherever both are known.
pub open spec fn judge_spec(presence: Presence, read: Option<(Seq<char>, Option<Seq<char>>)>, signature: Seq<char>, identity: Option<Seq<char>>) -> Verdict {
    match presence {
        Presence::Missing => Verdict::Gone,
        Presence::Unknown => Verdict::Unknown,
        Presence::Present => match read {
            None => Verdict::Unknown,
            Some((hash, id)) => if hash == signature && (identity is None || id is None || id == identity) {
                Verdict::Same
            } else {
                Verdict::Changed
            },
        },
    }
}

fn same_text(a: &String, b: &String) -> (r: bool)
    ensures
        r == (a@ == b@),
{
    chars_eq(&chars_of(a.as_str()), &chars_of(b.as_str()))
}

/// Whether a checkpoint folder is still the generation that was recorded,
/// given what was read from disk: its presence and, when present, its hash
/// and identity (`None` when the signature could not be read).
pub fn judge(presence: Presence, read: &Option<(String, Option<String>)>, signature: &String, identity: &Option<String>) -> (r: Verdict)
    ensures
        r == judge_spec(
            presence,
            match read {
                Some((h, i)) => Some((h@, opt_view(*i))),
                None => None,
            },
            signature@,
            opt_view(*identity),
        ),
{
    match presence {
        Presence::Missing => Verdict::Gone,
        Presence::Unknown => Verdict::Unknown,
        Presence::Present => match read {
            None => Verdict::Unknown,
            Some((hash, id)) => {
                let same_identity = match (identity, id) {
                    (Some(a), Some(b)) => same_text(a, b),
                    _ => true,
                };
                if same_text(hash, signature) && same_identity {
                    Verdict::Same
                } else {
                    Verdict::Changed
                }
            },
        },
    }
}

/// Why a checkpoint can't be used now: the store out of reach, a folder
/// that can't be read for now, or no save location in common with the
/// game's current ones (`common`).
pub open spec fn unavailable_reason_spec(store_available: bool, state: Seq<char>, common: bool) -> Option<ErrorKind> {
    if !store_available {
        Some(ErrorKind::StoreUnavailable)
    } else if state == "unavailable"@ {
        Some(ErrorKind::CheckpointUnreadable)
    } else if !common {
        Some(ErrorKind::DifferentSaveSet)
    } else {
        None
    }
}

/// The kind of error an unavailable checkpoint reports; `state` is the
/// checkpoint's recorded state and `common` whether it shares a save
/// location with the game's current ones.
pub fn unavailable_reason(store_available: bool, state: &str, common: bool) -> (r: Option<ErrorKind>)
    ensures
        r == unavailable_reason_spec(store_available, state@, common),
{
    if !store_available {
        return Some(ErrorKind::StoreUnavailable);
    }
    if crate::text::eq_lit(&chars_of(state), "unavailable") {
        return Some(ErrorKind::CheckpointUnreadable);
    }
    if !common {
        return Some(ErrorKind::DifferentSaveSet);
    }
    None
}

// ---- scans the host starts on its own ---------------------------------------------

/// A window that gains focus runs an install scan, at most once per
/// cooldown and only while the host is ready: `since_last` is how long ago
/// the last such scan ran, if one did.
pub open spec fn focus_scan_spec(focused: bool, was_focused: bool, since_last: Option<u64>, cooldown: u64, phase: Phase) -> bool {
    let gained = focused && !was_focused;
    let due = match since_last {
        None => true,
        Some(t) => t >= cooldown,
    };
    gained && due && phase == Phase::Ready
}

/// Whether a report of the window starts an install scan.
pub fn focus_scan(focused: bool, was_focused: bool, since_last: Option<u64>, cooldown: u64, phase: Phase) -> (r: bool)
    ensures
        r == focus_scan_spec(focused, was_focused, since_last, cooldown, phase),
{
    let gained = focused && !was_focused;
    let due = match since_last {
        None => true,
        Some(t) => t >= cooldown,
    };
    gained && due && phase == Phase::Ready
}

/// A known game's install state after a scan. A custom game follows its
/// executable's presence (kept while that can't be told); a game the scan
/// found, or one not installed, keeps its state; any other is uninstalled
/// only when its absence is confirmed (`unsure` says an install of it lies
/// in a library that could not be read, or can't be told present or gone).
pub open spec fn installed_after_scan_spec(installed: bool, custom: bool, presence: Presence, seen: bool, unsure: bool) -> bool {
    if custom {
        match presence {
            Presence::Present => true,
            Presence::Missing => false,
            Presence::Unknown => installed,
        }
    } else if !installed || seen {
        installed
    } else {
        unsure
    }
}

/// Whether a known game counts as installed after a scan.
pub fn installed_after_scan(installed: bool, custom: bool, presence: Presence, seen: bool, unsure: bool) -> (r: bool)
    ensures
        r == installed_after_scan_spec(installed, custom, presence, seen, unsure),
{
    if custom {
        match presence {
            Presence::Present => true,
            Presence::Missing => false,
            Presence::Unknown => installed,
        }
    } else if !installed || seen {
        installed
    } else {
        unsure
    }
}

// ---- what a history row offers ----------------------------------------------------

/// What a history row lets the user do.
#[derive(Debug, Clone, Copy, PartialEq, Eq, Structural)]
pub struct RowActions {
    pub load: bool,
    pub revert: bool,
    pub delete: bool,
}

/// A row acts on its own checkpoint (`own` says it still exists): a Saved
/// row loads it, a Loaded or Reverted row reverts to it, each only while it
/// can be used (`unavailable` says it can't), the game is neither blocked
/// nor busy and its save locations are known (`config_ok`); either row
/// deletes it unless it is being deleted or the game is blocked. Other rows
/// offer nothing.
pub open spec fn row_actions_spec(
    kind: RowKind,
    own: bool,
    unavailable: bool,
    deleting: bool,
    blocked: bool,
    busy: bool,
    config_ok: bool,
) -> RowActions {
    let operable = own && !unavailable && !blocked && !busy && config_ok;
    let delete = own && !deleting && !blocked;
    match kind {
        RowKind::Saved => RowActions { load: operable, revert: false, delete },
        RowKind::Loaded | RowKind::Reverted => RowActions { load: false, revert: operable, delete },
        _ => RowActions { load: false, revert: false, delete: false },
    }
}

/// The actions a history row offers.
pub fn row_actions(
    kind: RowKind,
    own: bool,
    unavailable: bool,
    deleting: bool,
    blocked: bool,
    busy: bool,
    config_ok: bool,
) -> (r: RowActions)
    ensures
        r == row_actions_spec(kind, own, unavailable, deleting, blocked, busy, config_ok),
{
    let operable = own && !unavailable && !blocked && !busy && config_ok;
    let delete = own && !deleting && !blocked;
    match kind {
        RowKind::Saved => RowActions { load: operable, revert: false, delete },
        RowKind::Loaded | RowKind::Reverted => RowActions { load: false, revert: operable, delete },
        _ => RowActions { load: false, revert: false, delete: false },
    }
}

/// The checkpoints a row speaks of: its own (the saved one for a Saved row,
/// the recovery checkpoint for a Loaded or Reverted row) and the one it is
/// about (the saved or restored one).
pub open spec fn row_checkpoints_spec(kind: RowKind, checkpoint: Option<Seq<char>>, recovery: Option<Seq<char>>) -> (Option<Seq<char>>, Option<Seq<char>>) {
    match kind {
        RowKind::Saved => (checkpoint, checkpoint),
        RowKind::Loaded | RowKind::Reverted => (recovery, checkpoint),
        _ => (None, None),
    }
}

/// A row's own checkpoint and the checkpoint it is about.
pub fn row_checkpoints(kind: RowKind, checkpoint: Option<&str>, recovery: Option<&str>) -> (r: (Option<String>, Option<String>))
    ensures
        (opt_view(r.0), opt_view(r.1)) == row_checkpoints_spec(kind, opt_str(checkpoint), opt_str(recovery)),
{
    match kind {
        RowKind::Saved => (owned(checkpoint), owned(checkpoint)),
        RowKind::Loaded | RowKind::Reverted => (owned(recovery), owned(checkpoint)),
        _ => (None, None),
    }
}

fn owned(t: Option<&str>) -> (r: Option<String>)
    ensures
        opt_view(r) == opt_str(t),
{
    match t {
        Some(x) => Some(string_of(&chars_of(x))),
        None => None,
    }
}

/// The label and save time a row shows, from the checkpoint it is about: a
/// Saved or Loaded row shows both, a Reverted row only the save time, other
/// rows neither.
pub open spec fn row_label_spec(kind: RowKind, label: Option<Seq<char>>, created_at: Option<Seq<char>>) -> (Option<Seq<char>>, Option<Seq<char>>) {
    match kind {
        RowKind::Saved | RowKind::Loaded => (label, created_at),
        RowKind::Reverted => (None, created_at),
        _ => (None, None),
    }
}

/// A row's label and save time; `label` and `created_at` are those of the
/// checkpoint it is about, if it was found.
pub fn row_label(kind: RowKind, label: Option<&str>, created_at: Option<&str>) -> (r: (Option<String>, Option<String>))
    ensures
        (opt_view(r.0), opt_view(r.1)) == row_label_spec(kind, opt_str(label), opt_str(created_at)),
{
    match kind {
        RowKind::Saved | RowKind::Loaded => (owned(label), owned(created_at)),
        RowKind::Reverted => (None, owned(created_at)),
        _ => (None, None),
    }
}

// ---- what an operation checks before it starts ------------------------------------

/// The store checks every operation makes first: a location that still needs
/// the user's permission (`access_needed` names its category), then a store
/// that can't be reached.
pub open spec fn store_refusal_spec(access_needed: Option<Seq<char>>, store_available: bool) -> Option<(ErrorKind, Seq<char>)> {
    match access_needed {
        Some(category) => Some((ErrorKind::AccessNeeded, category)),
        None => if !store_available {
            Some((ErrorKind::StoreUnavailable, "the checkpoint store can't be reached"@))
        } else {
            None
        },
    }
}

/// Why an operation is refused before it reads anything.
pub fn store_refusal(access_needed: Option<&str>, store_available: bool) -> (r: Option<(ErrorKind, String)>)
    ensures
        match r {
            Some((k, m)) => store_refusal_spec(opt_str(access_needed), store_available) == Some((k, m@)),
            None => store_refusal_spec(opt_str(access_needed), store_available) is None,
        },
{
    match access_needed {
        Some(category) => Some((ErrorKind::AccessNeeded, string_of(&chars_of(category)))),
        None => {
            if !store_available {
                Some((ErrorKind::StoreUnavailable, string_of(&chars_of("the checkpoint store can't be reached"))))
            } else {
                None
            }
        },
    }
}

/// A Save needs every save location readable (`unknown_target` says one
/// can't be read) and some location that matches something.
pub open spec fn save_refusal_spec(unknown_target: bool, has_data: bool) -> Option<(ErrorKind, Seq<char>)> {
    if unknown_target {
        Some((ErrorKind::TargetUnavailable, "the save location can't be read"@))
    } else if !has_data {
        Some((ErrorKind::NoGameData, "no save location matches anything yet"@))
    } else {
        None
    }
}

/// Why a Save is refused, once the game's save locations are known.
pub fn save_refusal(unknown_target: bool, has_data: bool) -> (r: Option<(ErrorKind, &'static str)>)
    ensures
        match r {
            Some((k, m)) => save_refusal_spec(unknown_target, has_data) == Some((k, m@)),
            None => save_refusal_spec(unknown_target, has_data) is None,
        },
{
    if unknown_target {
        Some((ErrorKind::TargetUnavailable, "the save location can't be read"))
    } else if !has_data {
        Some((ErrorKind::NoGameData, "no save location matches anything yet"))
    } else {
        None
    }
}

/// The checkpoint a request names: a Delete, a Load of a given checkpoint
/// and a Revert need it to exist for the game (`found` holds its kind), a
/// Load needs a saved checkpoint and a Revert a recovery checkpoint; a Load
/// of the latest needs one to exist (`has_latest`).
pub open spec fn named_refusal_spec(request: Request, found: Option<Seq<char>>, has_latest: bool) -> Option<(ErrorKind, Seq<char>)> {
    let gone = Some((ErrorKind::CheckpointChanged, "the checkpoint no longer exists"@));
    match request {
        Request::Delete { .. } => if found is None { gone } else { None },
        Request::Load { checkpoint: None } => if !has_latest {
            Some((ErrorKind::NoSaves, "no saved checkpoint to load"@))
        } else {
            None
        },
        Request::Load { checkpoint: Some(_) } => match found {
            None => gone,
            Some(kind) => if kind != "saved"@ {
                Some((ErrorKind::InvalidRequest, "Load restores saved checkpoints; use Revert"@))
            } else {
                None
            },
        },
        Request::Revert { .. } => match found {
            None => gone,
            Some(kind) => if kind != "recovery"@ {
                Some((ErrorKind::InvalidRequest, "Revert restores recovery checkpoints"@))
            } else {
                None
            },
        },
        _ => None,
    }
}

/// Why a request is refused for the checkpoint it names.
pub fn named_refusal(request: &Request, found: Option<&str>, has_latest: bool) -> (r: Option<(ErrorKind, &'static str)>)
    ensures
        match r {
            Some((k, m)) => named_refusal_spec(*request, opt_str(found), has_latest) == Some((k, m@)),
            None => named_refusal_spec(*request, opt_str(found), has_latest) is None,
        },
{
    proof {
        reveal_strlit("saved");
        reveal_strlit("recovery");
    }
    match request {
        Request::Delete { .. } => {
            if found.is_none() {
                return Some((ErrorKind::CheckpointChanged, "the checkpoint no longer exists"));
            }
            None
        },
        Request::Load { checkpoint: None } => {
            if !has_latest {
                return Some((ErrorKind::NoSaves, "no saved checkpoint to load"));
            }
            None
        },
        Request::Load { checkpoint: Some(_) } => match found {
            None => Some((ErrorKind::CheckpointChanged, "the checkpoint no longer exists")),
            Some(kind) => {
                if !crate::text::eq_lit(&chars_of(kind), "saved") {
                    Some((ErrorKind::InvalidRequest, "Load restores saved checkpoints; use Revert"))
                } else {
                    None
                }
            },
        },
        Request::Revert { .. } => match found {
            None => Some((ErrorKind::CheckpointChanged, "the checkpoint no longer exists")),
            Some(kind) => {
                if !crate::text::eq_lit(&chars_of(kind), "recovery") {
                    Some((ErrorKind::InvalidRequest, "Revert restores recovery checkpoints"))
                } else {
                    None
                }
            },
        },
        _ => None,
    }
}

/// A Load or Revert restores a checkpoint only while its recorded state is
/// `ok`, it shares a save location with the game's current ones (`common`),
/// and its folder is still the generation that was recorded.
pub open spec fn restore_refusal_spec(state: Seq<char>, common: bool, verdict: Verdict) -> Option<(ErrorKind, Seq<char>)> {
    if state != "ok"@ {
        Some((ErrorKind::CheckpointUnreadable, "the checkpoint can't be read now"@))
    } else if !common {
        Some((ErrorKind::DifferentSaveSet, "the checkpoint was made for other save locations"@))
    } else {
        match verdict {
            Verdict::Same => None,
            Verdict::Unknown => Some((ErrorKind::CheckpointUnreadable, "the checkpoint can't be read"@)),
            _ => Some((ErrorKind::CheckpointChanged, "the checkpoint changed outside SaveScummer"@)),
        }
    }
}

/// Why a checkpoint that was found is not restored.
pub fn restore_refusal(state: &str, common: bool, verdict: Verdict) -> (r: Option<(ErrorKind, &'static str)>)
    ensures
        match r {
            Some((k, m)) => restore_refusal_spec(state@, common, verdict) == Some((k, m@)),
            None => restore_refusal_spec(state@, common, verdict) is None,
        },
{
    proof {
        reveal_strlit("ok");
    }
    if !crate::text::eq_lit(&chars_of(state), "ok") {
        return Some((ErrorKind::CheckpointUnreadable, "the checkpoint can't be read now"));
    }
    if !common {
        return Some((ErrorKind::DifferentSaveSet, "the checkpoint was made for other save locations"));
    }
    match verdict {
        Verdict::Same => None,
        Verdict::Unknown => Some((ErrorKind::CheckpointUnreadable, "the checkpoint can't be read")),
        _ => Some((ErrorKind::CheckpointChanged, "the checkpoint changed outside SaveScummer")),
    }
}

/// Moving the store is taken, checked in order, only for a full path
/// (`absolute`), while the host is ready, with no operation running, no
/// store move and no delete under way (`running`), with the store reachable,
/// for a location neither inside the store nor holding it (`nested`), and
/// for an empty location (`target_empty`).
pub open spec fn move_refusal_spec(absolute: bool, phase: Phase, running: bool, store_available: bool, nested: bool, target_empty: bool) -> Option<(ErrorKind, Seq<char>)> {
    if !absolute {
        Some((ErrorKind::InvalidConfig, "use a full path"@))
    } else if phase != Phase::Ready {
        Some((ErrorKind::Starting, "the host isn't ready"@))
    } else if running {
        Some((ErrorKind::Busy, "operations are running"@))
    } else if !store_available {
        Some((ErrorKind::StoreUnavailable, "the checkpoint store can't be reached"@))
    } else if nested {
        Some((ErrorKind::InvalidConfig, "the new location can't be inside the old one, or contain it"@))
    } else if !target_empty {
        Some((ErrorKind::InvalidConfig, "the new location must be empty"@))
    } else {
        None
    }
}

/// Why a request to move the checkpoint store is refused.
pub fn move_refusal(absolute: bool, phase: Phase, running: bool, store_available: bool, nested: bool, target_empty: bool) -> (r: Option<(ErrorKind, &'static str)>)
    ensures
        match r {
            Some((k, m)) => move_refusal_spec(absolute, phase, running, store_available, nested, target_empty) == Some((k, m@)),
            None => move_refusal_spec(absolute, phase, running, store_available, nested, target_empty) is None,
        },
{
    if !absolute {
        return Some((ErrorKind::InvalidConfig, "use a full path"));
    }
    if phase != Phase::Ready {
        return Some((ErrorKind::Starting, "the host isn't ready"));
    }
    if running {
        return Some((ErrorKind::Busy, "operations are running"));
    }
    if !store_available {
        return Some((ErrorKind::StoreUnavailable, "the checkpoint store can't be reached"));
    }
    if nested {
        return Some((ErrorKind::InvalidConfig, "the new location can't be inside the old one, or contain it"));
    }
    if !target_empty {
        return Some((ErrorKind::InvalidConfig, "the new location must be empty"));
    }
    None
}


// ---- installs that came and went -------------------------------------------------

/// A game's install state after a scan: whether it is installed, its first
/// install (store and folder) and its executable, as plain values.
#[derive(Debug, Clone)]
pub struct InstallState {
    pub id: String,
    pub name: String,
    pub installed: bool,
    pub first_install: Option<(crate::model::Store, String)>,
    pub executable: Option<String>,
}

/// How a store's name is written in the log (its variant name).
pub open spec fn store_label(s: crate::model::Store) -> Seq<char> {
    match s {
        crate::model::Store::Steam => "Steam"@,
        crate::model::Store::Gog => "Gog"@,
        crate::model::Store::Epic => "Epic"@,
        crate::model::Store::Standalone => "Standalone"@,
    }
}

fn store_label_of(s: crate::model::Store) -> (r: &'static str)
    ensures
        r@ == store_label(s),
{
    match s {
        crate::model::Store::Steam => "Steam",
        crate::model::Store::Gog => "Gog",
        crate::model::Store::Epic => "Epic",
        crate::model::Store::Standalone => "Standalone",
    }
}

/// Whether the game was installed before the scan, when it was known then.
pub open spec fn was_installed(before: Seq<(String, bool)>, id: Seq<char>) -> Option<bool>
    decreases before.len(),
{
    if before.len() == 0 {
        None
    } else if before[0].0@ == id {
        Some(before[0].1)
    } else {
        was_installed(before.drop_first(), id)
    }
}

/// Where an installed game is: its first install's store and folder, or
/// its executable.
pub open spec fn install_place(g: InstallState) -> Seq<char> {
    match g.first_install {
        Some((store, dir)) => store_label(store) + ", "@ + dir@,
        None => match g.executable {
            Some(e) => e@,
            None => Seq::empty(),
        },
    }
}

/// The log line for a game whose installed state changed in the scan.
pub open spec fn install_line(g: InstallState, before: Seq<(String, bool)>) -> Option<Seq<char>> {
    let known = was_installed(before, g.id@);
    let was = match known {
        Some(b) => b,
        None => false,
    };
    if g.installed == was {
        None
    } else if g.installed {
        Some("installed"@ + (if known is Some {
            " again"@
        } else {
            Seq::empty()
        }) + ": "@ + g.name@ + " ("@ + g.id@ + ") at "@ + install_place(g))
    } else {
        Some("uninstalled: "@ + g.name@ + " ("@ + g.id@ + "); its history and checkpoints are kept"@)
    }
}

fn lookup_installed(before: &Vec<(String, bool)>, id: &String) -> (r: Option<bool>)
    ensures
        r == was_installed(before@, id@),
{
    let want = chars_of(id.as_str());
    let mut i: usize = 0;
    assert(before@.skip(0) == before@);
    while i < before.len()
        invariant
            i <= before@.len(),
            want@ == id@,
            was_installed(before@, id@) == was_installed(before@.skip(i as int), id@),
        decreases before.len() - i,
    {
        assert(before@.skip(i as int)[0] == before@[i as int]);
        if chars_eq(&chars_of(before[i].0.as_str()), &want) {
            return Some(before[i].1);
        }
        assert(before@.skip(i as int).drop_first() == before@.skip(i + 1));
        i = i + 1;
    }
    assert(before@.skip(i as int).len() == 0);
    None
}

fn line_for(g: &InstallState, before: &Vec<(String, bool)>) -> (r: Option<Vec<char>>)
    ensures
        match r {
            Some(v) => install_line(*g, before@) == Some(v@),
            None => install_line(*g, before@) is None,
        },
{
    let known = lookup_installed(before, &g.id);
    let was = match known {
        Some(b) => b,
        None => false,
    };
    if g.installed == was {
        return None;
    }
    if g.installed {
        let mut out = chars_of("installed");
        if known.is_some() {
            push_str(&mut out, " again");
        }
        push_str(&mut out, ": ");
        push_str(&mut out, g.name.as_str());
        push_str(&mut out, " (");
        push_str(&mut out, g.id.as_str());
        push_str(&mut out, ") at ");
        let ghost head = out@;
        match &g.first_install {
            Some((store, dir)) => {
                push_str(&mut out, store_label_of(*store));
                push_str(&mut out, ", ");
                push_str(&mut out, dir.as_str());
            },
            None => match &g.executable {
                Some(e) => push_str(&mut out, e.as_str()),
                None => {},
            },
        }
        assert(out@ =~= head + install_place(*g));
        Some(out)
    } else {
        let mut out = chars_of("uninstalled: ");
        push_str(&mut out, g.name.as_str());
        push_str(&mut out, " (");
        push_str(&mut out, g.id.as_str());
        push_str(&mut out, "); its history and checkpoints are kept");
        Some(out)
    }
}

/// Log lines for games whose installed state changed in this scan, each
/// once, sorted: `before` says which games were installed before it (a game
/// it doesn't name was unknown, so not installed).
pub fn install_changes(games: &Vec<InstallState>, before: &Vec<(String, bool)>) -> (r: Vec<String>)
    ensures
        increasing_texts(strs(r@)),
        forall|x: Seq<char>|
            #[trigger] strs(r@).contains(x) <==> exists|k: int|
                0 <= k < games@.len() && install_line(#[trigger] games@[k], before@) == Some(x),
{
    let mut out: Vec<String> = Vec::new();
    let mut i: usize = 0;
    while i < games.len()
        invariant
            i <= games@.len(),
            increasing_texts(strs(out@)),
            forall|x: Seq<char>|
                #[trigger] strs(out@).contains(x) <==> exists|k: int|
                    0 <= k < i && install_line(#[trigger] games@[k], before@) == Some(x),
        decreases games.len() - i,
    {
        let ghost prev = strs(out@);
        match line_for(&games[i], before) {
            Some(line) => {
                crate::translate::insert_text(&mut out, &line);
                proof {
                    assert forall|x: Seq<char>|
                        #[trigger] strs(out@).contains(x) <==> exists|k: int|
                            0 <= k < i + 1 && install_line(#[trigger] games@[k], before@) == Some(x) by {
                        if x == line@ {
                            assert(install_line(games@[i as int], before@) == Some(x));
                        }
                        if exists|k: int| 0 <= k < i + 1 && install_line(#[trigger] games@[k], before@) == Some(x) {
                            let k = choose|k: int| 0 <= k < i + 1 && install_line(#[trigger] games@[k], before@) == Some(x);
                            if k < i {
                                assert(prev.contains(x));
                            }
                        }
                    }
                }
            },
            None => {
                proof {
                    assert forall|x: Seq<char>|
                        #[trigger] strs(out@).contains(x) <==> exists|k: int|
                            0 <= k < i + 1 && install_line(#[trigger] games@[k], before@) == Some(x) by {
                        if exists|k: int| 0 <= k < i + 1 && install_line(#[trigger] games@[k], before@) == Some(x) {
                            let k = choose|k: int| 0 <= k < i + 1 && install_line(#[trigger] games@[k], before@) == Some(x);
                            if k < i {
                                assert(prev.contains(x));
                            }
                        }
                    }
                }
            },
        }
        i = i + 1;
    }
    out
}


// ---- the flush preview -----------------------------------------------------------

/// Something a flush would delete: a checkpoint folder or a leftover
/// temporary one.
#[derive(Debug, Clone)]
pub struct FlushItem {
    pub path: String,
    /// `saved`, `recovery` or `temporary`.
    pub kind: String,
    pub label: Option<String>,
}

/// One page of what a flush would delete, with the counts of all of it.
#[derive(Debug, Clone)]
pub struct FlushPreview {
    pub saved: usize,
    pub recovery: usize,
    pub temporary: usize,
    pub size: u64,
    pub items: Vec<FlushItem>,
    pub next: Option<String>,
}

/// The kind a checkpoint is listed under: one being deleted counts as
/// temporary.
pub open spec fn flush_kind_spec(state: Seq<char>, kind: Seq<char>) -> Seq<char> {
    if state == "deleting"@ {
        "temporary"@
    } else {
        kind
    }
}

pub fn flush_kind(state: &str, kind: &str) -> (r: String)
    ensures
        r@ == flush_kind_spec(state@, kind@),
{
    if crate::text::eq_lit(&chars_of(state), "deleting") {
        string_of(&chars_of("temporary"))
    } else {
        string_of(&chars_of(kind))
    }
}

/// How many items are of the kind.
pub open spec fn count_kind(items: Seq<FlushItem>, kind: Seq<char>) -> nat
    decreases items.len(),
{
    if items.len() == 0 {
        0
    } else {
        count_kind(items.drop_last(), kind) + if items.last().kind@ == kind {
            1nat
        } else {
            0nat
        }
    }
}

fn count_of(items: &Vec<FlushItem>, kind: &str) -> (r: usize)
    ensures
        r == count_kind(items@, kind@),
{
    let want = chars_of(kind);
    let mut n: usize = 0;
    let mut i: usize = 0;
    while i < items.len()
        invariant
            i <= items@.len(),
            want@ == kind@,
            n == count_kind(items@.take(i as int), kind@),
            n <= i,
        decreases items.len() - i,
    {
        assert(items@.take(i + 1).drop_last() == items@.take(i as int));
        if chars_eq(&chars_of(items[i].kind.as_str()), &want) {
            n = n + 1;
        }
        i = i + 1;
    }
    assert(items@.take(items.len() as int) == items@);
    n
}

/// Where a page starts: the position as a number, else the first item.
pub open spec fn page_offset(position: Option<Seq<char>>) -> usize {
    match position {
        Some(p) => match crate::text::parse_usize_spec(p) {
            Some(o) => o,
            None => 0,
        },
        None => 0,
    }
}

fn clone_item(item: &FlushItem) -> (r: FlushItem)
    ensures
        r == *item,
{
    FlushItem {
        path: item.path.clone(),
        kind: item.kind.clone(),
        label: match &item.label {
            Some(l) => Some(l.clone()),
            None => None,
        },
    }
}

/// A page of what a flush of a game would delete: the counts of each kind
/// over all items, the items from the position on, at most a page of them,
/// and where the next page starts while items remain. `size` is what all of
/// it takes on disk.
pub fn flush_page(items: &Vec<FlushItem>, size: u64, position: Option<&str>, limit: Option<usize>) -> (r: FlushPreview)
    requires
        page_offset(crate::host::opt_str(position)) + MAX_PAGE <= usize::MAX,
    ensures
        r.saved == count_kind(items@, "saved"@),
        r.recovery == count_kind(items@, "recovery"@),
        r.temporary == count_kind(items@, "temporary"@),
        r.size == size,
        ({
            let offset = page_offset(opt_str(position));
            let limit = page_limit_spec(limit);
            let from = if offset < items@.len() {
                offset as int
            } else {
                items@.len() as int
            };
            let to = if offset + limit < items@.len() {
                offset + limit
            } else {
                items@.len() as int
            };
            &&& r.items@ == items@.subrange(from, to)
            &&& match r.next {
                Some(n) => offset + limit < items@.len() && n@ == decimal((offset + limit) as nat),
                None => !(offset + limit < items@.len()),
            }
        }),
{
    let saved = count_of(items, "saved");
    let recovery = count_of(items, "recovery");
    let temporary = count_of(items, "temporary");
    let offset: usize = match position {
        Some(p) => match crate::text::parse_usize(&chars_of(p)) {
            Some(o) => o,
            None => 0,
        },
        None => 0,
    };
    assert(offset == page_offset(opt_str(position)));
    let limit = page_limit(limit);
    let from: usize = if offset < items.len() {
        offset
    } else {
        items.len()
    };
    let to: usize = if offset + limit < items.len() {
        offset + limit
    } else {
        items.len()
    };
    let mut page: Vec<FlushItem> = Vec::new();
    let mut i: usize = from;
    while i < to
        invariant
            from <= i <= to <= items@.len(),
            page@ == items@.subrange(from as int, i as int),
        decreases to - i,
    {
        page.push(clone_item(&items[i]));
        assert(page@ =~= items@.subrange(from as int, i + 1));
        i = i + 1;
    }
    let next = if offset + limit < items.len() {
        Some(string_of(&decimal_of((offset + limit) as u64)))
    } else {
        None
    };
    FlushPreview { saved, recovery, temporary, size, items: page, next }
}


// ---- finding a game ----------------------------------------------------------------

/// What picking a game by what the user typed looks at.
#[derive(Debug, Clone)]
pub struct GameKey {
    pub id: String,
    pub name: String,
    pub installed: bool,
    pub catalog_id: Option<String>,
}

/// The installed games the selector names, by name (ignoring ASCII case)
/// or by catalog id, in order.
pub open spec fn named_by(games: Seq<GameKey>, selector: Seq<char>) -> Seq<GameKey>
    decreases games.len(),
{
    if games.len() == 0 {
        Seq::empty()
    } else {
        let g = games.last();
        let prev = named_by(games.drop_last(), selector);
        if g.installed && (crate::text::eq_ignore_ascii_case_spec(g.name@, selector) || opt_view(g.catalog_id)
            == Some(selector)) {
            prev.push(g)
        } else {
            prev
        }
    }
}

/// The games' ids joined with `", "`.
pub open spec fn joined_ids(games: Seq<GameKey>) -> Seq<char>
    decreases games.len(),
{
    if games.len() == 0 {
        Seq::empty()
    } else if games.len() == 1 {
        games[0].id@
    } else {
        joined_ids(games.drop_last()) + ", "@ + games.last().id@
    }
}

/// Which game a selector means: a game id as it is; else the one installed
/// game it names; none is not found, several are an invalid request that
/// lists them.
pub open spec fn find_game_spec(games: Seq<GameKey>, selector: Seq<char>) -> Result<Seq<char>, (ErrorKind, Seq<char>)> {
    if exists|k: int| 0 <= k < games.len() && #[trigger] games[k].id@ == selector {
        Ok(selector)
    } else {
        let m = named_by(games, selector);
        if m.len() == 1 {
            Ok(m[0].id@)
        } else if m.len() == 0 {
            Err((ErrorKind::NotFound, "no game "@ + crate::model::debug_str(selector)))
        } else {
            Err((ErrorKind::InvalidRequest, crate::model::debug_str(selector) + " matches several games: "@ + joined_ids(m)))
        }
    }
}

fn clone_key(g: &GameKey) -> (r: GameKey)
    ensures
        r == *g,
{
    GameKey {
        id: g.id.clone(),
        name: g.name.clone(),
        installed: g.installed,
        catalog_id: match &g.catalog_id {
            Some(c) => Some(c.clone()),
            None => None,
        },
    }
}

/// The game a selector means, among the host's games (ids distinct).
pub fn find_game(games: &Vec<GameKey>, selector: &str) -> (r: Result<String, (ErrorKind, String)>)
    ensures
        match r {
            Ok(id) => find_game_spec(games@, selector@) == Ok::<Seq<char>, (ErrorKind, Seq<char>)>(id@),
            Err((k, m)) => find_game_spec(games@, selector@) == Err::<Seq<char>, (ErrorKind, Seq<char>)>((k, m@)),
        },
{
    let want = chars_of(selector);
    let mut i: usize = 0;
    while i < games.len()
        invariant
            i <= games@.len(),
            want@ == selector@,
            forall|k: int| 0 <= k < i ==> #[trigger] games@[k].id@ != selector@,
        decreases games.len() - i,
    {
        if chars_eq(&chars_of(games[i].id.as_str()), &want) {
            return Ok(string_of(&want));
        }
        i = i + 1;
    }
    let mut matches: Vec<GameKey> = Vec::new();
    let mut j: usize = 0;
    while j < games.len()
        invariant
            j <= games@.len(),
            want@ == selector@,
            matches@ == named_by(games@.take(j as int), selector@),
        decreases games.len() - j,
    {
        assert(games@.take(j + 1).drop_last() == games@.take(j as int));
        let g = &games[j];
        let by_catalog = match &g.catalog_id {
            Some(c) => chars_eq(&chars_of(c.as_str()), &want),
            None => false,
        };
        if g.installed && (crate::text::eq_ignore_ascii_case(&chars_of(g.name.as_str()), &want) || by_catalog) {
            matches.push(clone_key(g));
        }
        j = j + 1;
    }
    assert(games@.take(games.len() as int) == games@);
    if matches.len() == 1 {
        return Ok(matches[0].id.clone());
    }
    let quoted = crate::model::debug_quoted_chars(&want);
    if matches.len() == 0 {
        let mut m = chars_of("no game ");
        push_all(&mut m, &quoted);
        return Err((ErrorKind::NotFound, string_of(&m)));
    }
    let mut m = quoted;
    push_str(&mut m, " matches several games: ");
    let ghost head = m@;
    let mut k: usize = 0;
    while k < matches.len()
        invariant
            k <= matches@.len(),
            m@ == head + joined_ids(matches@.take(k as int)),
        decreases matches.len() - k,
    {
        assert(matches@.take(k + 1).drop_last() == matches@.take(k as int));
        if k > 0 {
            push_str(&mut m, ", ");
        }
        push_str(&mut m, matches[k].id.as_str());
        proof {
            if k == 0 {
                assert(m@ =~= head + joined_ids(matches@.take(1)));
            } else {
                assert(m@ =~= head + joined_ids(matches@.take(k + 1)));
            }
        }
        k = k + 1;
    }
    assert(matches@.take(matches.len() as int) == matches@);
    Err((ErrorKind::InvalidRequest, string_of(&m)))
}

} // verus!
