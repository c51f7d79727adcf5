//! Catalog builder: deterministic translation of `games.csv` + `addendum.yaml`
//! against a pinned Ludusavi manifest into `catalog.json` plus a report.
//!
//! Offline and host-free; the bundle model and validator are the resolver's
//! own, so builder output and resolver input cannot drift.

use sha2::Digest;
use vstd::prelude::*;
use crate::games::{fit_spec, GameRow, ProductFit};
use crate::manifest::Entry;
use crate::model::{
    debug_quoted_chars, debug_str, ids_empty, platform_name, Bundle, Detect, Game, IdList, Platform,
    PlatformFiles, SaveCandidate, Source, When, SCHEMA,
};
use crate::placeholders::{opt_view, strs};
use crate::resolve::is_exact_name;
use crate::text::{
    chars_eq, chars_of, contains_seq, eq_ignore_ascii_case, has_char, is_blank, last_index,
    lemma_last_index, push_all, push_str, rfind_char, slice_chars, split_all, split_chars,
    char_views, string_of, trim_spec,
};
use crate::translate::{
    buckets_of, cview, cviews, describe_spec, gog_sources, id_list_spec, increasing_texts, last_part,
    launch_of, launch_warnings, launches, lemma_id_list_exact, lemma_ordered_texts, ordered_texts, platform_rank_spec,
    save_spec, steam_sources, CandView, DropReason,
};
use crate::manifest::LaunchItem;
use crate::identity::derive_spec;
use crate::paths::{lemma_text_order, lemma_text_order_trans, text_compare, text_order};

verus! {

/// Convenience for tests and the command line: an empty addendum.
pub const EMPTY_ADDENDUM: &'static str = "{}\n";

/// Errors and warnings collected while building, and the number of games
/// built.
#[derive(Debug, Clone, Default)]
pub struct BuildReport {
    pub errors: Vec<String>,
    pub warnings: Vec<String>,
    pub games: usize,
}

impl BuildReport {
    pub fn warn(&mut self, message: String)
        ensures
            final(self).warnings@ == old(self).warnings@.push(message),
            final(self).errors@ == old(self).errors@,
            final(self).games == old(self).games,
    {
        self.warnings.push(message);
    }

    pub fn error(&mut self, message: String)
        ensures
            final(self).errors@ == old(self).errors@.push(message),
            final(self).warnings@ == old(self).warnings@,
            final(self).games == old(self).games,
    {
        self.errors.push(message);
    }

    pub fn is_clean(&self) -> (r: bool)
        ensures
            r == (self.errors@.len() == 0),
    {
        self.errors.len() == 0
    }
}

/// One `addendum.yaml` entry: the bundle entry's shape, keyed by the `Name`
/// column in `games.csv`.
#[derive(Debug, Clone, Default)]
pub struct AddendumEntry {
    pub id: Option<String>,
    pub detect: Option<Detect>,
    pub executables: PlatformFiles,
    pub save: Vec<SaveCandidate>,
}

/// Whether an addendum entry gives anything at all.
pub open spec fn has_data_spec(e: AddendumEntry) -> bool {
    e.id is Some || (e.detect matches Some(d) && !(ids_empty(d.steam) && ids_empty(d.gog)))
        || e.executables@.len() > 0 || e.save@.len() > 0
}

pub fn addendum_has_data(entry: &AddendumEntry) -> (r: bool)
    ensures
        r == has_data_spec(*entry),
{
    entry.id.is_some() || match &entry.detect {
        Some(d) => !d.is_empty(),
        None => false,
    } || entry.executables.len() > 0 || entry.save.len() > 0
}

// ---- executables per platform ----------------------------------------------

/// The files listed for a platform: those of its first entry.
pub open spec fn slot(files: Seq<(Platform, Vec<String>)>, p: Platform) -> Option<Seq<Seq<char>>>
    decreases files.len(),
{
    if files.len() == 0 {
        None
    } else if files[0].0 == p {
        Some(strs(files[0].1@))
    } else {
        slot(files.drop_first(), p)
    }
}

pub open spec fn rank(p: Platform) -> int {
    match p {
        Platform::Windows => 0,
        Platform::Macos => 1,
        Platform::Linux => 2,
    }
}

/// Entries in platform order, each platform once.
pub open spec fn files_ordered(files: Seq<(Platform, Vec<String>)>) -> bool {
    forall|a: int, b: int| 0 <= a < b < files.len() ==> rank(#[trigger] files[a].0) < rank(#[trigger] files[b].0)
}

fn files_for(files: &PlatformFiles, p: Platform) -> (r: Option<Vec<String>>)
    ensures
        match r {
            Some(v) => slot(files@, p) == Some(strs(v@)),
            None => slot(files@, p) is None,
        },
{
    let mut i: usize = 0;
    assert(files@.skip(0) == files@);
    while i < files.len()
        invariant
            i <= files.len(),
            slot(files@, p) == slot(files@.skip(i as int), p),
        decreases files.len() - i,
    {
        assert(files@.skip(i as int)[0] == files@[i as int]);
        if files[i].0 == p {
            return Some(clone_strings(&files[i].1));
        }
        assert(files@.skip(i as int).drop_first() == files@.skip(i + 1));
        i = i + 1;
    }
    assert(files@.skip(i as int).len() == 0);
    None
}

fn clone_strings(v: &Vec<String>) -> (r: Vec<String>)
    ensures
        r@ == v@,
{
    let mut r: Vec<String> = Vec::new();
    let mut i: usize = 0;
    while i < v.len()
        invariant
            i <= v.len(),
            r@ == v@.take(i as int),
        decreases v.len() - i,
    {
        r.push(v[i].clone());
        i = i + 1;
        assert(r@ == v@.take(i as int));
    }
    assert(v@.take(v.len() as int) == v@);
    r
}

/// A platform's files after the addendum: the addendum fills a platform the
/// base lists nothing for (an addendum platform always ends up present).
pub open spec fn overlay_slot(base: Option<Seq<Seq<char>>>, add: Option<Seq<Seq<char>>>) -> Option<Seq<Seq<char>>> {
    match add {
        None => base,
        Some(a) => match base {
            Some(b) => if b.len() == 0 {
                Some(a)
            } else {
                Some(b)
            },
            None => Some(a),
        },
    }
}

proof fn lemma_slot_push(files: Seq<(Platform, Vec<String>)>, p: Platform, v: Vec<String>, q: Platform)
    requires
        slot(files, p) is None,
    ensures
        slot(files.push((p, v)), q) == if q == p { Some(strs(v@)) } else { slot(files, q) },
    decreases files.len(),
{
    let pushed = files.push((p, v));
    if files.len() > 0 {
        assert(pushed[0] == files[0]);
        assert(pushed.drop_first() == files.drop_first().push((p, v)));
        lemma_slot_push(files.drop_first(), p, v, q);
        if files[0].0 != q {
            assert(slot(pushed, q) == slot(pushed.drop_first(), q));
            assert(slot(files, q) == slot(files.drop_first(), q));
        }
    } else {
        assert(pushed[0] == (p, v));
        assert(pushed.drop_first() =~= Seq::<(Platform, Vec<String>)>::empty());
        assert(slot(pushed.drop_first(), q) is None);
        assert(slot(files, q) is None);
    }
}

fn push_slot(files: &mut PlatformFiles, p: Platform, v: Option<Vec<String>>)
    requires
        slot(old(files)@, p) is None,
        files_ordered(old(files)@),
        forall|k: int| 0 <= k < old(files)@.len() ==> rank(#[trigger] old(files)@[k].0) < rank(p),
    ensures
        files_ordered(final(files)@),
        forall|k: int| 0 <= k < final(files)@.len() ==> rank(#[trigger] final(files)@[k].0) <= rank(p),
        forall|q: Platform| #[trigger] slot(final(files)@, q) == if q == p {
            match v {
                Some(v) => Some(strs(v@)),
                None => None,
            }
        } else {
            slot(old(files)@, q)
        },
{
    match v {
        Some(v) => {
            let ghost before = files@;
            files.push((p, v));
            proof {
                assert forall|q: Platform| #[trigger] slot(files@, q) == if q == p { Some(strs(v@)) } else { slot(before, q) } by {
                    lemma_slot_push(before, p, v, q);
                }
            }
        },
        None => {
            assert forall|q: Platform| #[trigger] slot(files@, q) == if q == p { None } else { slot(old(files)@, q) } by {
                if q == p {
                }
            }
        },
    }
}

fn overlay_files(base: &Option<Vec<String>>, add: &Option<Vec<String>>) -> (r: Option<Vec<String>>)
    ensures
        (match r {
            Some(v) => Some(strs(v@)),
            None => None,
        }) == overlay_slot(
            match base {
                Some(b) => Some(strs(b@)),
                None => None,
            },
            match add {
                Some(a) => Some(strs(a@)),
                None => None,
            },
        ),
{
    match add {
        None => match base {
            Some(b) => Some(clone_strings(b)),
            None => None,
        },
        Some(a) => match base {
            Some(b) => {
                if b.len() == 0 {
                    Some(clone_strings(a))
                } else {
                    Some(clone_strings(b))
                }
            },
            None => Some(clone_strings(a)),
        },
    }
}

/// An optional id list as plain values.
pub open spec fn ids_view(o: Option<IdList>) -> Option<Seq<u64>> {
    match o {
        Some(l) => Some(l.0@),
        None => None,
    }
}

/// A detection as plain values: the Steam ids and the GOG ids.
pub open spec fn detect_view(d: Detect) -> (Option<Seq<u64>>, Option<Seq<u64>>) {
    (ids_view(d.steam), ids_view(d.gog))
}

/// The detection after the addendum: each store the base lacks comes from
/// the addendum.
pub open spec fn overlay_detect_spec(base: Detect, add: Option<Detect>) -> (Option<Seq<u64>>, Option<Seq<u64>>) {
    match add {
        Some(extra) => (
            if base.steam is None {
                ids_view(extra.steam)
            } else {
                ids_view(base.steam)
            },
            if base.gog is None {
                ids_view(extra.gog)
            } else {
                ids_view(base.gog)
            },
        ),
        None => detect_view(base),
    }
}

fn copy_ids(v: &Vec<u64>) -> (r: Vec<u64>)
    ensures
        r@ == v@,
{
    let mut r: Vec<u64> = Vec::new();
    let mut i: usize = 0;
    while i < v.len()
        invariant
            i <= v.len(),
            r@ == v@.take(i as int),
        decreases v.len() - i,
    {
        r.push(v[i]);
        i = i + 1;
        assert(r@ == v@.take(i as int));
    }
    assert(v@.take(v.len() as int) == v@);
    r
}

fn clone_ids(o: &Option<IdList>) -> (r: Option<IdList>)
    ensures
        ids_view(r) == ids_view(*o),
{
    match o {
        Some(l) => Some(IdList(copy_ids(&l.0))),
        None => None,
    }
}

/// Addendum overlay: `detect` and `executables` are filled here; `save` is
/// handled by [`overlay_save`].
pub fn overlay(detect: &mut Detect, executables: &mut PlatformFiles, addendum: &AddendumEntry)
    ensures
        detect_view(*final(detect)) == overlay_detect_spec(*old(detect), addendum.detect),
        files_ordered(final(executables)@),
        forall|p: Platform| #[trigger] slot(final(executables)@, p) == overlay_slot(
            slot(old(executables)@, p),
            slot(addendum.executables@, p),
        ),
{
    if let Some(extra) = &addendum.detect {
        if detect.steam.is_none() {
            detect.steam = clone_ids(&extra.steam);
        }
        if detect.gog.is_none() {
            detect.gog = clone_ids(&extra.gog);
        }
    }
    let mut out: PlatformFiles = Vec::new();
    let w = overlay_files(&files_for(executables, Platform::Windows), &files_for(&addendum.executables, Platform::Windows));
    push_slot(&mut out, Platform::Windows, w);
    let m = overlay_files(&files_for(executables, Platform::Macos), &files_for(&addendum.executables, Platform::Macos));
    push_slot(&mut out, Platform::Macos, m);
    let l = overlay_files(&files_for(executables, Platform::Linux), &files_for(&addendum.executables, Platform::Linux));
    push_slot(&mut out, Platform::Linux, l);
    *executables = out;
}


// ---- executables as slots ---------------------------------------------------

/// The entry at `k` is the first for its platform.
proof fn lemma_slot_at(files: Seq<(Platform, Vec<String>)>, k: int)
    requires
        0 <= k < files.len(),
        forall|j: int| 0 <= j < k ==> #[trigger] files[j].0 != files[k].0,
    ensures
        slot(files, files[k].0) == Some(strs(files[k].1@)),
    decreases k,
{
    if k > 0 {
        let rest = files.drop_first();
        assert forall|j: int| 0 <= j < k - 1 implies #[trigger] rest[j].0 != rest[k - 1].0 by {
            assert(rest[j] == files[j + 1]);
        }
        lemma_slot_at(rest, k - 1);
        assert(rest[k - 1] == files[k]);
    }
}

/// A platform no entry names has no slot.
proof fn lemma_slot_absent(files: Seq<(Platform, Vec<String>)>, p: Platform)
    requires
        forall|k: int| 0 <= k < files.len() ==> #[trigger] files[k].0 != p,
    ensures
        slot(files, p) is None,
    decreases files.len(),
{
    if files.len() > 0 {
        let rest = files.drop_first();
        assert forall|k: int| 0 <= k < rest.len() implies #[trigger] rest[k].0 != p by {
            assert(rest[k] == files[k + 1]);
        }
        lemma_slot_absent(rest, p);
    }
}

/// In ordered files the slot of a platform is its one entry, if any.
proof fn lemma_ordered_slot(files: Seq<(Platform, Vec<String>)>, p: Platform)
    requires
        files_ordered(files),
    ensures
        (exists|k: int| 0 <= k < files.len() && #[trigger] files[k].0 == p) ==> slot(files, p) == Some(
            strs(files[choose|k: int| 0 <= k < files.len() && #[trigger] files[k].0 == p].1@),
        ),
        !(exists|k: int| 0 <= k < files.len() && #[trigger] files[k].0 == p) ==> slot(files, p) is None,
        forall|k: int| 0 <= k < files.len() && #[trigger] files[k].0 == p ==> slot(files, p) == Some(strs(files[k].1@)),
{
    assert forall|k: int| 0 <= k < files.len() && #[trigger] files[k].0 == p implies slot(files, p) == Some(strs(files[k].1@)) by {
        assert forall|j: int| 0 <= j < k implies #[trigger] files[j].0 != files[k].0 by {
            assert(rank(files[j].0) < rank(files[k].0));
        }
        lemma_slot_at(files, k);
    }
    if !(exists|k: int| 0 <= k < files.len() && #[trigger] files[k].0 == p) {
        lemma_slot_absent(files, p);
    }
}

/// The texts a launch entry runs on the platform, in order; absent when it
/// runs none.
pub open spec fn launch_slot(launch: Seq<(String, Vec<LaunchItem>)>, p: Platform) -> Option<Seq<Seq<char>>> {
    if exists|rel: Seq<char>| #[trigger] launches(launch, p, rel) {
        Some(ordered_texts(Set::new(|rel: Seq<char>| launches(launch, p, rel))))
    } else {
        None
    }
}

/// The buckets of [`crate::translate::executables`] are ordered, and each
/// platform's slot is what the launch entries run on it.
proof fn lemma_buckets(files: Seq<(Platform, Vec<String>)>, launch: Seq<(String, Vec<LaunchItem>)>)
    requires
        buckets_of(files, launch),
    ensures
        files_ordered(files),
        forall|p: Platform| #[trigger] slot(files, p) == launch_slot(launch, p),
{
    assert(files_ordered(files)) by {
        assert forall|a: int, b: int| 0 <= a < b < files.len() implies rank(#[trigger] files[a].0) < rank(#[trigger] files[b].0) by {
            assert(platform_rank_spec(files[a].0) < platform_rank_spec(files[b].0));
        }
    }
    assert forall|p: Platform| #[trigger] slot(files, p) == launch_slot(launch, p) by {
        lemma_ordered_slot(files, p);
        if exists|k: int| 0 <= k < files.len() && #[trigger] files[k].0 == p {
            let k = choose|k: int| 0 <= k < files.len() && #[trigger] files[k].0 == p;
            let v = strs(files[k].1@);
            assert(increasing_texts(v) && v.len() > 0);
            let set = Set::new(|rel: Seq<char>| launches(launch, p, rel));
            assert forall|x: Seq<char>| #[trigger] v.contains(x) <==> set.contains(x) by {
                assert(v.contains(x) <==> launches(launch, files[k].0, x));
            }
            assert(v.contains(v[0]));
            assert(launches(launch, p, v[0]));
            lemma_ordered_texts(v, set);
        } else {
            assert forall|rel: Seq<char>| !#[trigger] launches(launch, p, rel) by {
                if launches(launch, p, rel) {
                    let k = choose|k: int| 0 <= k < files.len() && #[trigger] files[k].0 == p;
                }
            }
        }
    }
}

/// The values kept for a platform: those of its first entry.
pub open spec fn vfirst(kept: Seq<(Platform, Seq<Seq<char>>)>, p: Platform) -> Option<Seq<Seq<char>>>
    decreases kept.len(),
{
    if kept.len() == 0 {
        None
    } else if kept[0].0 == p {
        Some(kept[0].1)
    } else {
        vfirst(kept.drop_first(), p)
    }
}

/// Entries in platform order, each platform once.
pub open spec fn kept_ordered(kept: Seq<(Platform, Seq<Seq<char>>)>) -> bool {
    forall|a: int, b: int| 0 <= a < b < kept.len() ==> rank(#[trigger] kept[a].0) < rank(#[trigger] kept[b].0)
}

/// A slot after invalid executables are dropped: absent when none is left.
pub open spec fn kept_of(o: Option<Seq<Seq<char>>>) -> Option<Seq<Seq<char>>> {
    match o {
        None => None,
        Some(v) => if valid_values(v).len() > 0 {
            Some(valid_values(v))
        } else {
            None
        },
    }
}

proof fn lemma_vfirst_at(kept: Seq<(Platform, Seq<Seq<char>>)>, k: int)
    requires
        0 <= k < kept.len(),
        forall|j: int| 0 <= j < k ==> #[trigger] kept[j].0 != kept[k].0,
    ensures
        vfirst(kept, kept[k].0) == Some(kept[k].1),
    decreases k,
{
    if k > 0 {
        let rest = kept.drop_first();
        assert forall|j: int| 0 <= j < k - 1 implies #[trigger] rest[j].0 != rest[k - 1].0 by {
            assert(rest[j] == kept[j + 1]);
        }
        lemma_vfirst_at(rest, k - 1);
        assert(rest[k - 1] == kept[k]);
    }
}

proof fn lemma_vfirst_absent(kept: Seq<(Platform, Seq<Seq<char>>)>, p: Platform)
    requires
        forall|k: int| 0 <= k < kept.len() ==> #[trigger] kept[k].0 != p,
    ensures
        vfirst(kept, p) is None,
    decreases kept.len(),
{
    if kept.len() > 0 {
        let rest = kept.drop_first();
        assert forall|k: int| 0 <= k < rest.len() implies #[trigger] rest[k].0 != p by {
            assert(rest[k] == kept[k + 1]);
        }
        lemma_vfirst_absent(rest, p);
    }
}

proof fn lemma_vfirst_push(kept: Seq<(Platform, Seq<Seq<char>>)>, e: (Platform, Seq<Seq<char>>), q: Platform)
    requires
        vfirst(kept, e.0) is None,
    ensures
        vfirst(kept.push(e), q) == if q == e.0 { Some(e.1) } else { vfirst(kept, q) },
    decreases kept.len(),
{
    let pushed = kept.push(e);
    if kept.len() > 0 {
        assert(pushed[0] == kept[0]);
        assert(kept[0].0 != e.0);
        assert(vfirst(kept, e.0) == vfirst(kept.drop_first(), e.0));
        assert(pushed.drop_first() == kept.drop_first().push(e));
        lemma_vfirst_push(kept.drop_first(), e, q);
        if kept[0].0 != q {
            assert(vfirst(pushed, q) == vfirst(pushed.drop_first(), q));
            assert(vfirst(kept, q) == vfirst(kept.drop_first(), q));
        }
    } else {
        assert(pushed[0] == e);
        assert(pushed.drop_first() =~= Seq::<(Platform, Seq<Seq<char>>)>::empty());
    }
}

/// Dropping invalid executables keeps the platform order, and each slot is
/// the valid part of the old one.
proof fn lemma_kept_slots(files: Seq<(Platform, Vec<String>)>)
    requires
        files_ordered(files),
    ensures
        kept_ordered(kept_entries(files)),
        forall|p: Platform| #[trigger] vfirst(kept_entries(files), p) == kept_of(slot(files, p)),
    decreases files.len(),
{
    if files.len() > 0 {
        let f0 = files.drop_last();
        let last = files.last();
        assert(files_ordered(f0)) by {
            assert forall|a: int, b: int| 0 <= a < b < f0.len() implies rank(#[trigger] f0[a].0) < rank(#[trigger] f0[b].0) by {
                assert(f0[a] == files[a] && f0[b] == files[b]);
            }
        }
        lemma_kept_slots(f0);
        assert forall|k: int| 0 <= k < f0.len() implies #[trigger] f0[k].0 != last.0 by {
            assert(f0[k] == files[k]);
            assert(rank(files[k].0) < rank(files[files.len() - 1].0));
        }
        lemma_slot_absent(f0, last.0);
        assert(files =~= f0.push(last));
        let k0 = kept_entries(f0);
        let vals = valid_values(strs(last.1@));
        assert forall|q: Platform| #[trigger] slot(files, q) == if q == last.0 { Some(strs(last.1@)) } else { slot(f0, q) } by {
            lemma_slot_push(f0, last.0, last.1, q);
        }
        assert(vfirst(k0, last.0) is None);
        if vals.len() > 0 {
            assert(kept_entries(files) == k0.push((last.0, vals)));
            assert forall|q: Platform| #[trigger] vfirst(kept_entries(files), q) == kept_of(slot(files, q)) by {
                lemma_vfirst_push(k0, (last.0, vals), q);
            }
            let kf = kept_entries(files);
            assert forall|a: int, b: int| 0 <= a < b < kf.len() implies rank(#[trigger] kf[a].0) < rank(#[trigger] kf[b].0) by {
                if b == kf.len() - 1 {
                    assert(kf[a] == k0[a]);
                    let q = k0[a].0;
                    assert forall|j: int| 0 <= j < a implies #[trigger] k0[j].0 != k0[a].0 by {
                        assert(rank(k0[j].0) < rank(k0[a].0));
                    }
                    lemma_vfirst_at(k0, a);
                    assert(kept_of(slot(f0, q)) is Some);
                    if !(exists|k: int| 0 <= k < f0.len() && #[trigger] f0[k].0 == q) {
                        lemma_slot_absent(f0, q);
                    }
                    let k = choose|k: int| 0 <= k < f0.len() && #[trigger] f0[k].0 == q;
                    assert(f0[k] == files[k]);
                    assert(rank(files[k].0) < rank(files[files.len() - 1].0));
                } else {
                    assert(kf[a] == k0[a] && kf[b] == k0[b]);
                }
            }
        } else {
            assert(kept_entries(files) == k0);
        }
    }
}

/// Output that lists, per kept entry in order, its values sorted: ordered,
/// with each slot the sorted kept values.
proof fn lemma_normalized_slots(out: Seq<(Platform, Vec<String>)>, kept: Seq<(Platform, Seq<Seq<char>>)>)
    requires
        kept_ordered(kept),
        out.len() == kept.len(),
        forall|k: int|
            0 <= k < out.len() ==> {
                &&& #[trigger] out[k].0 == kept[k].0
                &&& increasing_texts(strs(out[k].1@))
                &&& forall|x: Seq<char>| #[trigger] strs(out[k].1@).contains(x) <==> kept[k].1.contains(x)
            },
    ensures
        files_ordered(out),
        forall|p: Platform| #[trigger] slot(out, p) == match vfirst(kept, p) {
            None => None,
            Some(v) => Some(ordered_texts(v.to_set())),
        },
{
    assert(files_ordered(out)) by {
        assert forall|a: int, b: int| 0 <= a < b < out.len() implies rank(#[trigger] out[a].0) < rank(#[trigger] out[b].0) by {
            assert(out[a].0 == kept[a].0 && out[b].0 == kept[b].0);
        }
    }
    assert forall|p: Platform| #[trigger] slot(out, p) == match vfirst(kept, p) {
        None => None,
        Some(v) => Some(ordered_texts(v.to_set())),
    } by {
        lemma_ordered_slot(out, p);
        if exists|k: int| 0 <= k < out.len() && #[trigger] out[k].0 == p {
            let k = choose|k: int| 0 <= k < out.len() && #[trigger] out[k].0 == p;
            assert(out[k].0 == kept[k].0);
            assert forall|j: int| 0 <= j < k implies #[trigger] kept[j].0 != kept[k].0 by {
                assert(rank(kept[j].0) < rank(kept[k].0));
            }
            lemma_vfirst_at(kept, k);
            let v = strs(out[k].1@);
            assert forall|x: Seq<char>| #[trigger] v.contains(x) <==> kept[k].1.to_set().contains(x) by {
                assert(v.contains(x) <==> kept[k].1.contains(x));
            }
            lemma_ordered_texts(v, kept[k].1.to_set());
        } else {
            assert forall|k: int| 0 <= k < kept.len() implies #[trigger] kept[k].0 != p by {
                assert(out[k].0 == kept[k].0);
            }
            lemma_vfirst_absent(kept, p);
        }
    }
}

// ---- save candidates -------------------------------------------------------

/// Some candidate applies to the OS: it names no OS, or this one.
pub open spec fn covers_os_spec(save: Seq<CandView>, os: Platform) -> bool {
    exists|k: int|
        0 <= k < save.len() && match #[trigger] save[k].0 {
            None => true,
            Some(w) => w.os is None || w.os == Some(os),
        }
}

pub fn covers_os(save: &[SaveCandidate], os: Platform) -> (r: bool)
    ensures
        r == covers_os_spec(cviews(save@), os),
{
    let mut i: usize = 0;
    while i < save.len()
        invariant
            i <= save.len(),
            forall|k: int|
                0 <= k < i ==> !match #[trigger] cviews(save@)[k].0 {
                    None => true,
                    Some(w) => w.os is None || w.os == Some(os),
                },
        decreases save.len() - i,
    {
        let hit = match save[i].when {
            None => true,
            Some(w) => w.os.is_none() || w.os == Some(os),
        };
        assert(cviews(save@)[i as int] == cview(save@[i as int]));
        if hit {
            assert(0 <= i < cviews(save@).len() && match cviews(save@)[i as int].0 {
                None => true,
                Some(w) => w.os is None || w.os == Some(os),
            });
            return true;
        }
        i = i + 1;
    }
    false
}

/// The addendum candidate added for an OS the result does not cover yet.
pub open spec fn fill_os(result: Seq<CandView>, c: CandView, os: Platform) -> Seq<CandView> {
    if !covers_os_spec(result, os) {
        result.push(
            (
                Some(
                    When {
                        os: Some(os),
                        store: match c.0 {
                            Some(w) => w.store,
                            None => None,
                        },
                    },
                ),
                c.1,
            ),
        )
    } else {
        result
    }
}

/// Addendum candidates folded into the manifest's: one naming an OS is
/// added when no candidate covers that OS yet; one naming none is added
/// once per OS not yet covered, pinned to that OS.
pub open spec fn add_saves(result: Seq<CandView>, adds: Seq<CandView>) -> Seq<CandView>
    decreases adds.len(),
{
    if adds.len() == 0 {
        result
    } else {
        let prev = add_saves(result, adds.drop_last());
        let c = adds.last();
        let os = match c.0 {
            Some(w) => w.os,
            None => None,
        };
        match os {
            Some(os) => if !covers_os_spec(prev, os) {
                prev.push(c)
            } else {
                prev
            },
            None => fill_os(fill_os(fill_os(prev, c, Platform::Windows), c, Platform::Macos), c, Platform::Linux),
        }
    }
}

/// Manifest save candidates replace the addendum for every OS the manifest
/// covers; the addendum keeps only OSes the manifest produced nothing for.
pub open spec fn overlay_save_spec(manifest_save: Seq<CandView>, addendum: Option<AddendumEntry>) -> Seq<CandView> {
    if manifest_save.len() == 0 {
        match addendum {
            Some(a) => cviews(a.save@),
            None => Seq::empty(),
        }
    } else {
        match addendum {
            None => manifest_save,
            Some(a) => add_saves(manifest_save, cviews(a.save@)),
        }
    }
}

fn clone_candidate(c: &SaveCandidate) -> (r: SaveCandidate)
    ensures
        cview(r) == cview(*c),
{
    SaveCandidate { when: c.when, dir: c.dir.clone() }
}

fn clone_candidates(v: &Vec<SaveCandidate>) -> (r: Vec<SaveCandidate>)
    ensures
        cviews(r@) == cviews(v@),
{
    let mut r: Vec<SaveCandidate> = Vec::new();
    let mut i: usize = 0;
    while i < v.len()
        invariant
            i <= v.len(),
            cviews(r@) == cviews(v@.take(i as int)),
        decreases v.len() - i,
    {
        let ghost before = r@;
        r.push(clone_candidate(&v[i]));
        assert(cviews(r@) =~= cviews(before).push(cview(v@[i as int])));
        assert(cviews(v@.take(i + 1)) =~= cviews(v@.take(i as int)).push(cview(v@[i as int])));
        i = i + 1;
    }
    assert(v@.take(v.len() as int) == v@);
    r
}

fn fill_os_exec(result: &mut Vec<SaveCandidate>, c: &SaveCandidate, os: Platform)
    ensures
        cviews(final(result)@) == fill_os(cviews(old(result)@), cview(*c), os),
{
    if !covers_os(result.as_slice(), os) {
        let store = match c.when {
            Some(w) => w.store,
            None => None,
        };
        let ghost before = result@;
        result.push(SaveCandidate { when: Some(When { os: Some(os), store }), dir: c.dir.clone() });
        assert(cviews(result@) =~= cviews(before).push(cview(result@.last())));
    }
}

/// Manifest save candidates replace the addendum for every OS the manifest
/// covers; the addendum keeps only OSes the manifest produced nothing for.
pub fn overlay_save(manifest_save: Vec<SaveCandidate>, addendum: Option<&AddendumEntry>) -> (r: Vec<SaveCandidate>)
    ensures
        cviews(r@) == overlay_save_spec(
            cviews(manifest_save@),
            match addendum {
                Some(a) => Some(*a),
                None => None,
            },
        ),
{
    if manifest_save.len() == 0 {
        return match addendum {
            Some(a) => clone_candidates(&a.save),
            None => {
                let empty: Vec<SaveCandidate> = Vec::new();
                assert(cviews(empty@) =~= Seq::<CandView>::empty());
                empty
            },
        };
    }
    let addendum = match addendum {
        None => {
            return manifest_save;
        },
        Some(a) => a,
    };
    let ghost start = cviews(manifest_save@);
    let mut result = manifest_save;
    let mut i: usize = 0;
    while i < addendum.save.len()
        invariant
            i <= addendum.save.len(),
            cviews(result@) == add_saves(start, cviews(addendum.save@).take(i as int)),
        decreases addendum.save.len() - i,
    {
        let ghost adds = cviews(addendum.save@).take(i + 1);
        assert(adds.drop_last() == cviews(addendum.save@).take(i as int));
        assert(adds.last() == cview(addendum.save@[i as int]));
        let candidate = &addendum.save[i];
        let os = match candidate.when {
            Some(w) => w.os,
            None => None,
        };
        match os {
            Some(os) => {
                if !covers_os(result.as_slice(), os) {
                    let ghost before = result@;
                    result.push(clone_candidate(candidate));
                    assert(cviews(result@) =~= cviews(before).push(cview(*candidate)));
                }
            },
            None => {
                fill_os_exec(&mut result, candidate, Platform::Windows);
                fill_os_exec(&mut result, candidate, Platform::Macos);
                fill_os_exec(&mut result, candidate, Platform::Linux);
            },
        }
        i = i + 1;
    }
    assert(cviews(addendum.save@).take(addendum.save.len() as int) == cviews(addendum.save@));
    result
}

// ---- executables -----------------------------------------------------------

/// An executable path the bundle may hold: non-blank, relative, without a
/// drive colon or a `..` segment.
pub open spec fn valid_exec(v: Seq<char>) -> bool {
    !(trim_spec(v).len() == 0 || (v.len() > 0 && v[0] == '/') || v.contains(':') || split_all(
        v,
        '/',
    ).contains(".."@))
}

/// The valid values, in order.
pub open spec fn valid_values(vals: Seq<Seq<char>>) -> Seq<Seq<char>>
    decreases vals.len(),
{
    if vals.len() == 0 {
        Seq::empty()
    } else if valid_exec(vals.last()) {
        valid_values(vals.drop_last()).push(vals.last())
    } else {
        valid_values(vals.drop_last())
    }
}

/// The entries that keep a valid value, with their valid values.
pub open spec fn kept_entries(files: Seq<(Platform, Vec<String>)>) -> Seq<(Platform, Seq<Seq<char>>)>
    decreases files.len(),
{
    if files.len() == 0 {
        Seq::empty()
    } else {
        let prev = kept_entries(files.drop_last());
        let vals = valid_values(strs(files.last().1@));
        if vals.len() > 0 {
            prev.push((files.last().0, vals))
        } else {
            prev
        }
    }
}

/// The warning for an invalid executable.
pub open spec fn exec_warning(name: Seq<char>, p: Platform, value: Seq<char>) -> Seq<char> {
    name + ": ignoring invalid "@ + platform_name(p) + " executable "@ + debug_str(value)
}

/// The warnings for the invalid values of one platform, in order.
pub open spec fn value_warnings(name: Seq<char>, p: Platform, vals: Seq<Seq<char>>) -> Seq<Seq<char>>
    decreases vals.len(),
{
    if vals.len() == 0 {
        Seq::empty()
    } else if valid_exec(vals.last()) {
        value_warnings(name, p, vals.drop_last())
    } else {
        value_warnings(name, p, vals.drop_last()).push(exec_warning(name, p, vals.last()))
    }
}

/// The warnings for every invalid value, in order.
pub open spec fn exec_warnings(name: Seq<char>, files: Seq<(Platform, Vec<String>)>) -> Seq<Seq<char>>
    decreases files.len(),
{
    if files.len() == 0 {
        Seq::empty()
    } else {
        exec_warnings(name, files.drop_last()) + value_warnings(name, files.last().0, strs(files.last().1@))
    }
}

fn valid_executable(v: &[char]) -> (r: bool)
    ensures
        r == valid_exec(v@),
{
    if is_blank(v) || (v.len() > 0 && v[0] == '/') || has_char(v, ':') {
        return false;
    }
    let parts = split_chars(v, '/');
    let mut i: usize = 0;
    while i < parts.len()
        invariant
            i <= parts.len(),
            char_views(parts@) == split_all(v@, '/'),
            forall|k: int| 0 <= k < i ==> #[trigger] char_views(parts@)[k] != ".."@,
        decreases parts.len() - i,
    {
        assert(char_views(parts@)[i as int] == parts@[i as int]@);
        if crate::text::eq_lit(&parts[i], "..") {
            assert(split_all(v@, '/')[i as int] == ".."@);
            assert(split_all(v@, '/').contains(".."@));
            return false;
        }
        i = i + 1;
    }
    true
}

fn platform_text(p: Platform) -> (r: &'static str)
    ensures
        r@ == platform_name(p),
{
    p.as_str()
}

/// Inserts `x` into a strictly increasing list of texts unless present.
fn insert_sorted(set: &mut Vec<String>, x: &String)
    requires
        increasing_texts(strs(old(set)@)),
    ensures
        increasing_texts(strs(final(set)@)),
        forall|y: Seq<char>| #[trigger] strs(final(set)@).contains(y) <==> strs(old(set)@).contains(y) || y == x@,
{
    crate::translate::insert_text(set, &chars_of(x.as_str()));
}

/// Drops invalid executables (with a warning each) and empty platforms;
/// each platform's list comes out sorted and without repeats.
#[verifier::spinoff_prover]
pub fn normalize_executables(executables: PlatformFiles, name: &str, report: &mut BuildReport) -> (r: Result<PlatformFiles, String>)
    ensures
        r matches Ok(files) && files@.len() == kept_entries(executables@).len() && (forall|k: int|
            0 <= k < files@.len() ==> {
                &&& #[trigger] files@[k].0 == kept_entries(executables@)[k].0
                &&& increasing_texts(strs(files@[k].1@))
                &&& forall|x: Seq<char>| #[trigger] strs(files@[k].1@).contains(x) <==> kept_entries(executables@)[k].1.contains(x)
            }),
        strs(final(report).warnings@) == strs(old(report).warnings@) + exec_warnings(name@, executables@),
        final(report).errors@ == old(report).errors@,
        final(report).games == old(report).games,
{
    let ghost start = strs(report.warnings@);
    let mut normalized: PlatformFiles = Vec::new();
    let mut i: usize = 0;
    while i < executables.len()
        invariant
            i <= executables.len(),
            normalized@.len() == kept_entries(executables@.take(i as int)).len(),
            forall|k: int|
                0 <= k < normalized@.len() ==> {
                    &&& #[trigger] normalized@[k].0 == kept_entries(executables@.take(i as int))[k].0
                    &&& increasing_texts(strs(normalized@[k].1@))
                    &&& forall|x: Seq<char>| #[trigger] strs(normalized@[k].1@).contains(x) <==> kept_entries(executables@.take(i as int))[k].1.contains(x)
                },
            strs(report.warnings@) == start + exec_warnings(name@, executables@.take(i as int)),
            report.errors@ == old(report).errors@,
            report.games == old(report).games,
        decreases executables.len() - i,
    {
        let platform = executables[i].0;
        let values = &executables[i].1;
        let ghost t = executables@.take(i + 1);
        assert(t.drop_last() == executables@.take(i as int));
        assert(t.last() == executables@[i as int]);
        let ghost w0 = strs(report.warnings@);
        let mut set: Vec<String> = Vec::new();
        let mut j: usize = 0;
        while j < values.len()
            invariant
                j <= values.len(),
                values@ == executables@[i as int].1@,
                increasing_texts(strs(set@)),
                forall|x: Seq<char>| #[trigger] strs(set@).contains(x) <==> valid_values(strs(values@).take(j as int)).contains(x),
                strs(report.warnings@) == w0 + value_warnings(name@, platform, strs(values@).take(j as int)),
                platform == executables@[i as int].0,
                report.errors@ == old(report).errors@,
                report.games == old(report).games,
            decreases values.len() - j,
        {
            let v = chars_of(values[j].as_str());
            let ghost u = strs(values@).take(j + 1);
            assert(u.drop_last() == strs(values@).take(j as int));
            assert(u.last() == values@[j as int]@);
            if !valid_executable(&v) {
                let mut m = chars_of(name);
                push_str(&mut m, ": ignoring invalid ");
                push_str(&mut m, platform_text(platform));
                push_str(&mut m, " executable ");
                push_all(&mut m, &debug_quoted_chars(&v));
                let ghost before = report.warnings@;
                report.warn(string_of(&m));
                assert(strs(report.warnings@) =~= strs(before).push(m@));
            } else {
                insert_sorted(&mut set, &values[j]);
                proof {
                    assert forall|x: Seq<char>| #[trigger] valid_values(u).contains(x) <==> valid_values(strs(values@).take(j as int)).contains(x) || x == v@ by {
                        let p = valid_values(strs(values@).take(j as int));
                        assert(valid_values(u) == p.push(v@));
                        if valid_values(u).contains(x) {
                            let k = choose|k: int| 0 <= k < p.len() + 1 && valid_values(u)[k] == x;
                            if k < p.len() {
                                assert(p[k] == x);
                            }
                        }
                        if p.contains(x) {
                            let k = choose|k: int| 0 <= k < p.len() && p[k] == x;
                            assert(valid_values(u)[k] == x);
                        }
                        if x == v@ {
                            assert(valid_values(u)[p.len() as int] == x);
                        }
                    }
                }
            }
            j = j + 1;
        }
        assert(strs(values@).take(values.len() as int) == strs(values@));
        if set.len() > 0 {
            proof {
                let vals = valid_values(strs(values@));
                assert(strs(set@).contains(strs(set@)[0]));
                assert(vals.len() > 0);
            }
            let ghost before = normalized@;
            normalized.push((platform, set));
            proof {
                let prev = kept_entries(executables@.take(i as int));
                let vals = valid_values(strs(values@));
                assert(kept_entries(t) == prev.push((platform, vals)));
                assert forall|k: int| 0 <= k < normalized@.len() implies {
                    &&& #[trigger] normalized@[k].0 == kept_entries(t)[k].0
                    &&& increasing_texts(strs(normalized@[k].1@))
                    &&& forall|x: Seq<char>| #[trigger] strs(normalized@[k].1@).contains(x) <==> kept_entries(t)[k].1.contains(x)
                } by {
                    if k < before.len() {
                        assert(normalized@[k] == before[k]);
                        assert(kept_entries(t)[k] == prev[k]);
                    } else {
                        assert(normalized@[k].1@ == set@);
                        assert(kept_entries(t)[k] == (platform, vals));
                    }
                }
            }
        } else {
            proof {
                let vals = valid_values(strs(values@));
                if vals.len() > 0 {
                    assert(vals.contains(vals[0]));
                    assert(strs(set@).contains(vals[0]));
                }
                assert(kept_entries(t) == kept_entries(executables@.take(i as int)));
            }
        }
        i = i + 1;
    }
    assert(executables@.take(executables.len() as int) == executables@);
    Ok(normalized)
}

/// Whether some candidate's last path part is an exact save-directory name.
pub open spec fn has_exact_spec(save: Seq<CandView>) -> bool {
    exists|k: int| 0 <= k < save.len() && #[trigger] is_exact_name(last_part(save[k].1))
}

/// The warning for several candidates with no exact name among them.
pub open spec fn ambiguity_warning(name: Seq<char>, save: Seq<CandView>) -> Option<Seq<char>> {
    if save.len() > 1 && !has_exact_spec(save) {
        Some(name + ": "@ + crate::text::decimal(save.len()) + " save candidates with no exact-name signal; runtime activity decides"@)
    } else {
        None
    }
}

/// Warns when several candidates leave the choice to runtime activity.
pub fn warn_if_ambiguous(row: &GameRow, save: &[SaveCandidate], report: &mut BuildReport)
    ensures
        strs(final(report).warnings@) == strs(old(report).warnings@) + match ambiguity_warning(row.name@, cviews(save@)) {
            Some(w) => seq![w],
            None => Seq::<Seq<char>>::empty(),
        },
        final(report).errors@ == old(report).errors@,
        final(report).games == old(report).games,
{
    let ghost cs = cviews(save@);
    let mut has_exact = false;
    let mut i: usize = 0;
    while i < save.len()
        invariant
            i <= save.len(),
            cs == cviews(save@),
            has_exact == exists|k: int| 0 <= k < i && #[trigger] is_exact_name(last_part(cs[k].1)),
        decreases save.len() - i,
    {
        let dir = chars_of(save[i].dir.as_str());
        assert(cs[i as int].1 == dir@);
        let slash = rfind_char(&dir, '/');
        proof {
            lemma_last_index(dir@, '/');
        }
        let last = match slash {
            Some(j) => {
                assert(last_index(dir@, '/') == Some(j as int));
                assert(j < dir.len());
                slice_chars(&dir, j + 1, dir.len())
            },
            None => slice_chars(&dir, 0, dir.len()),
        };
        assert(last@ == last_part(dir@));
        if crate::resolve::exact_name_of(&last) {
            has_exact = true;
        }
        i = i + 1;
    }
    if save.len() > 1 && !has_exact {
        let mut m = chars_of(row.name.as_str());
        push_str(&mut m, ": ");
        push_all(&mut m, &crate::text::decimal_of(save.len() as u64));
        push_str(&mut m, " save candidates with no exact-name signal; runtime activity decides");
        let ghost before = report.warnings@;
        report.warn(string_of(&m));
        assert(strs(report.warnings@) =~= strs(before) + seq![m@]);
    } else {
        assert(strs(report.warnings@) =~= strs(report.warnings@) + Seq::<Seq<char>>::empty());
    }
}


// ---- the manifest hash -----------------------------------------------------

/// What SHA-256 gives for some bytes.
pub uninterp spec fn sha256_of(bytes: Seq<u8>) -> Seq<u8>;

/// `sha2::Sha256::digest`: the 32-byte digest of the bytes.
#[verifier::external_body]
fn sha256_digest(bytes: &[u8]) -> (r: Vec<u8>)
    ensures
        r@ == sha256_of(bytes@),
        r@.len() == 32,
{
    sha2::Sha256::digest(bytes).to_vec()
}

/// The SHA-256 digest of a text's UTF-8 bytes.
pub open spec fn sha256_text(text: Seq<char>) -> Seq<u8> {
    sha256_of(vstd::utf8::encode_utf8(text))
}

/// A lowercase hexadecimal digit.
pub open spec fn hex_digit(d: int) -> char {
    if d < 10 {
        (48 + d) as char
    } else {
        (87 + d) as char
    }
}

/// Bytes as lowercase hexadecimal, two digits each.
pub open spec fn hex_spec(bytes: Seq<u8>) -> Seq<char>
    decreases bytes.len(),
{
    if bytes.len() == 0 {
        Seq::empty()
    } else {
        hex_spec(bytes.drop_last()).push(hex_digit(bytes.last() as int / 16)).push(hex_digit(bytes.last() as int % 16))
    }
}

fn hex_char(d: u8) -> (r: char)
    requires
        d < 16,
    ensures
        r == hex_digit(d as int),
{
    if d < 10 {
        crate::text::char_from_ascii(48 + d as u32)
    } else {
        crate::text::char_from_ascii(87 + d as u32)
    }
}

/// The SHA-256 digest of a text, in lowercase hexadecimal.
pub(crate) fn sha256_hex(data: &[u8]) -> (r: String)
    ensures
        r@ == hex_spec(sha256_of(data@)),
{
    let bytes = sha256_digest(data);
    let mut out: Vec<char> = Vec::new();
    let mut i: usize = 0;
    while i < bytes.len()
        invariant
            i <= bytes.len(),
            out@ == hex_spec(bytes@.take(i as int)),
        decreases bytes.len() - i,
    {
        let b = bytes[i];
        assert(bytes@.take(i + 1).drop_last() == bytes@.take(i as int));
        out.push(hex_char(b / 16));
        out.push(hex_char(b % 16));
        i = i + 1;
    }
    assert(bytes@.take(bytes.len() as int) == bytes@);
    string_of(&out)
}

/// `catalog/manifest.lock`.
#[derive(Debug, Clone, PartialEq, Eq)]
pub struct Lock {
    pub repo: String,
    pub revision: String,
    pub sha256: String,
}

impl Lock {
    /// A lock from the fields read off `manifest.lock`; each must be
    /// present, and the digest is kept lowercase.
    pub fn from_parts(repo: Option<String>, revision: Option<String>, sha256: Option<String>) -> (r: Result<Lock, String>)
        ensures
            repo is None ==> (r matches Err(m) && m@ == "manifest.lock is missing repo"@),
            repo is Some && revision is None ==> (r matches Err(m) && m@ == "manifest.lock is missing revision"@),
            repo is Some && revision is Some && sha256 is None ==> (r matches Err(m) && m@ == "manifest.lock is missing sha256"@),
            r matches Ok(l) ==> repo matches Some(a) && revision matches Some(b) && sha256 matches Some(c) && l.repo == a
                && l.revision == b && l.sha256@ == crate::broad::str_lowercase(c@),
            repo is Some && revision is Some && sha256 is Some ==> r is Ok,
    {
        let repo = match repo {
            Some(v) => v,
            None => {
                return Err(string_of(&chars_of("manifest.lock is missing repo")));
            },
        };
        let revision = match revision {
            Some(v) => v,
            None => {
                return Err(string_of(&chars_of("manifest.lock is missing revision")));
            },
        };
        let sha256 = match sha256 {
            Some(v) => v,
            None => {
                return Err(string_of(&chars_of("manifest.lock is missing sha256")));
            },
        };
        Ok(Lock { repo, revision, sha256: crate::broad::lowercase(sha256.as_str()) })
    }
}

/// The texts a build reads.
pub struct Inputs<'a> {
    pub games_csv: &'a str,
    pub addendum_yaml: &'a str,
    pub manifest_yaml: &'a str,
    pub lock: &'a Lock,
}

#[derive(Debug)]
pub struct BuildOutput {
    pub bundle: Bundle,
    pub report: BuildReport,
}

#[derive(Debug)]
pub enum BuildError {
    Input(String),
    Hash { expected: String, actual: String },
    Failed { report: BuildReport },
}

/// The readable message of a build error.
pub open spec fn build_error_message(e: BuildError) -> Seq<char> {
    match e {
        BuildError::Input(m) => m@,
        BuildError::Hash { expected, actual } => "manifest sha256 mismatch: lock expects "@ + expected@
            + ", input is "@ + actual@,
        BuildError::Failed { report } => "catalog build failed with "@ + crate::text::decimal(
            report.errors@.len(),
        ) + " error(s)"@,
    }
}

impl BuildError {
    /// The readable message.
    pub fn message(&self) -> (r: String)
        ensures
            r@ == build_error_message(*self),
    {
        match self {
            BuildError::Input(m) => string_of(&chars_of(m.as_str())),
            BuildError::Hash { expected, actual } => {
                let mut m = chars_of("manifest sha256 mismatch: lock expects ");
                push_str(&mut m, expected.as_str());
                push_str(&mut m, ", input is ");
                push_str(&mut m, actual.as_str());
                string_of(&m)
            },
            BuildError::Failed { report } => {
                let mut m = chars_of("catalog build failed with ");
                push_all(&mut m, &crate::text::decimal_of(report.errors.len() as u64));
                push_str(&mut m, " error(s)");
                string_of(&m)
            },
        }
    }
}

/// Checks the manifest against the digest `manifest.lock` pins.
pub fn check_manifest_hash(manifest_yaml: &str, lock: &Lock) -> (r: Result<(), BuildError>)
    ensures
        r is Ok <==> hex_spec(sha256_text(manifest_yaml@)) == lock.sha256@,
        r matches Err(e) ==> (e matches BuildError::Hash { expected, actual } && expected@ == lock.sha256@
            && actual@ == hex_spec(sha256_text(manifest_yaml@))),
{
    let actual = sha256_hex(manifest_yaml.as_bytes());
    if !chars_eq(&chars_of(actual.as_str()), &chars_of(lock.sha256.as_str())) {
        return Err(BuildError::Hash { expected: lock.sha256.clone(), actual });
    }
    Ok(())
}


// ---- one game ----------------------------------------------------------------

/// The manifest entry stored under the name: the first with that key.
pub open spec fn entry_named(m: Seq<(String, Entry)>, name: Seq<char>) -> Option<Entry>
    decreases m.len(),
{
    if m.len() == 0 {
        None
    } else if m[0].0@ == name {
        Some(m[0].1)
    } else {
        entry_named(m.drop_first(), name)
    }
}

/// The addendum entry stored under the name: the first with that key.
pub open spec fn addendum_named(m: Seq<(String, AddendumEntry)>, name: Seq<char>) -> Option<AddendumEntry>
    decreases m.len(),
{
    if m.len() == 0 {
        None
    } else if m[0].0@ == name {
        Some(m[0].1)
    } else {
        addendum_named(m.drop_first(), name)
    }
}

fn find_entry<'a>(m: &'a Vec<(String, Entry)>, name: &str) -> (r: Option<&'a Entry>)
    ensures
        match r {
            Some(e) => entry_named(m@, name@) == Some(*e),
            None => entry_named(m@, name@) is None,
        },
{
    let want = chars_of(name);
    let mut i: usize = 0;
    assert(m@.skip(0) == m@);
    while i < m.len()
        invariant
            i <= m.len(),
            want@ == name@,
            entry_named(m@, name@) == entry_named(m@.skip(i as int), name@),
        decreases m.len() - i,
    {
        assert(m@.skip(i as int)[0] == m@[i as int]);
        if chars_eq(&chars_of(m[i].0.as_str()), &want) {
            return Some(&m[i].1);
        }
        assert(m@.skip(i as int).drop_first() == m@.skip(i + 1));
        i = i + 1;
    }
    assert(m@.skip(i as int).len() == 0);
    None
}

fn find_addendum<'a>(m: &'a Vec<(String, AddendumEntry)>, name: &str) -> (r: Option<&'a AddendumEntry>)
    ensures
        match r {
            Some(e) => addendum_named(m@, name@) == Some(*e),
            None => addendum_named(m@, name@) is None,
        },
{
    let want = chars_of(name);
    let mut i: usize = 0;
    assert(m@.skip(0) == m@);
    while i < m.len()
        invariant
            i <= m.len(),
            want@ == name@,
            addendum_named(m@, name@) == addendum_named(m@.skip(i as int), name@),
        decreases m.len() - i,
    {
        assert(m@.skip(i as int)[0] == m@[i as int]);
        if chars_eq(&chars_of(m[i].0.as_str()), &want) {
            return Some(&m[i].1);
        }
        assert(m@.skip(i as int).drop_first() == m@.skip(i + 1));
        i = i + 1;
    }
    assert(m@.skip(i as int).len() == 0);
    None
}

/// Where a game's save candidates come from, with the manifest's dropped
/// reasons: the manifest entry, else the addendum; `None` when neither has
/// the name.
pub open spec fn source_save(name: Seq<char>, manifest: Seq<(String, Entry)>, addenda: Seq<(String, AddendumEntry)>) -> Option<(Seq<CandView>, Seq<DropReason>)> {
    match entry_named(manifest, name) {
        Some(e) => Some(save_spec(e)),
        None => match addendum_named(addenda, name) {
            Some(a) => Some((cviews(a.save@), Seq::empty())),
            None => None,
        },
    }
}

/// The candidates of the game's source, before the addendum overlay.
pub open spec fn source_candidates(name: Seq<char>, manifest: Seq<(String, Entry)>, addenda: Seq<(String, AddendumEntry)>) -> Seq<CandView> {
    match source_save(name, manifest, addenda) {
        Some((save, _)) => save,
        None => Seq::empty(),
    }
}

/// The dropped reasons, described and joined with `, `.
pub open spec fn join_reasons(drops: Seq<DropReason>) -> Seq<char>
    decreases drops.len(),
{
    if drops.len() == 0 {
        Seq::empty()
    } else if drops.len() == 1 {
        describe_spec(drops[0])
    } else {
        join_reasons(drops.drop_last()) + ", "@ + describe_spec(drops.last())
    }
}

/// Why a game has no usable save directory.
pub open spec fn drop_detail(drops: Seq<DropReason>) -> Seq<char> {
    if drops.len() == 0 {
        "no save candidates"@
    } else {
        join_reasons(drops)
    }
}

fn detail_of(drops: &Vec<DropReason>) -> (r: Vec<char>)
    ensures
        r@ == drop_detail(drops@),
{
    if drops.len() == 0 {
        return chars_of("no save candidates");
    }
    let mut out: Vec<char> = Vec::new();
    let mut i: usize = 0;
    while i < drops.len()
        invariant
            i <= drops.len(),
            out@ == join_reasons(drops@.take(i as int)),
        decreases drops.len() - i,
    {
        assert(drops@.take(i + 1).drop_last() == drops@.take(i as int));
        if i > 0 {
            push_str(&mut out, ", ");
        }
        push_str(&mut out, drops[i].describe());
        i = i + 1;
    }
    assert(drops@.take(drops.len() as int) == drops@);
    out
}

/// The detection a game's `detect` field stands for: none means empty.
pub open spec fn detect_or_empty(d: Option<Detect>) -> Detect {
    match d {
        Some(d) => d,
        None => Detect { steam: None, gog: None },
    }
}

/// The addendum's own id, when it has an entry.
pub open spec fn addendum_id_of(a: Option<AddendumEntry>) -> Option<Seq<char>> {
    match a {
        Some(e) => opt_view(e.id),
        None => None,
    }
}

/// A platform's executables from the manifest entry: what its launch
/// entries run there.
pub open spec fn base_exec_slot(name: Seq<char>, manifest: Seq<(String, Entry)>, p: Platform) -> Option<Seq<Seq<char>>> {
    match entry_named(manifest, name) {
        Some(e) => launch_slot(launch_of(e), p),
        None => None,
    }
}

/// A platform's executables from the addendum entry.
pub open spec fn add_exec_slot(name: Seq<char>, addenda: Seq<(String, AddendumEntry)>, p: Platform) -> Option<Seq<Seq<char>>> {
    match addendum_named(addenda, name) {
        Some(a) => slot(a.executables@, p),
        None => None,
    }
}

/// A platform's executables in the built game: the addendum fills what the
/// manifest lacks, invalid values go, the rest is sorted without repeats,
/// and a platform left with none is absent.
pub open spec fn game_exec_slot(name: Seq<char>, manifest: Seq<(String, Entry)>, addenda: Seq<(String, AddendumEntry)>, p: Platform) -> Option<Seq<Seq<char>>> {
    match kept_of(overlay_slot(base_exec_slot(name, manifest, p), add_exec_slot(name, addenda, p))) {
        None => None,
        Some(v) => Some(ordered_texts(v.to_set())),
    }
}

/// The manifest entry's detection ids.
pub open spec fn base_detect(name: Seq<char>, manifest: Seq<(String, Entry)>) -> (Option<Seq<u64>>, Option<Seq<u64>>) {
    match entry_named(manifest, name) {
        Some(e) => (id_list_spec(steam_sources(e)), id_list_spec(gog_sources(e))),
        None => (None, None),
    }
}

/// The built game's detection ids: the addendum fills each store the
/// manifest names none for.
pub open spec fn game_detect(name: Seq<char>, manifest: Seq<(String, Entry)>, addenda: Seq<(String, AddendumEntry)>) -> (Option<Seq<u64>>, Option<Seq<u64>>) {
    let base = base_detect(name, manifest);
    match addendum_named(addenda, name) {
        Some(a) => match a.detect {
            Some(extra) => (
                if base.0 is None {
                    ids_view(extra.steam)
                } else {
                    base.0
                },
                if base.1 is None {
                    ids_view(extra.gog)
                } else {
                    base.1
                },
            ),
            None => base,
        },
        None => base,
    }
}

/// No ids.
pub open spec fn view_empty(v: Option<Seq<u64>>) -> bool {
    match v {
        None => true,
        Some(s) => s.len() == 0,
    }
}

/// `g` is the game built for the row: its name and info, its save
/// candidates as the overlay leaves them, its executables and detection as
/// the manifest and the addendum give them, its id derived from its
/// detection, and a detection present only when it names an id.
pub open spec fn game_built(g: Game, row: GameRow, manifest: Seq<(String, Entry)>, addenda: Seq<(String, AddendumEntry)>) -> bool {
    let a = addendum_named(addenda, row.name@);
    let d = game_detect(row.name@, manifest, addenda);
    &&& source_save(row.name@, manifest, addenda) is Some
    &&& g.name@ == row.name@
    &&& g.info@ == row.info@
    &&& cviews(g.save@) == overlay_save_spec(source_candidates(row.name@, manifest, addenda), a)
    &&& cviews(g.save@).len() > 0
    &&& g.id@ == derive_spec(row.name@, detect_or_empty(g.detect), addendum_id_of(a))
    &&& (g.detect matches Some(d) ==> !(ids_empty(d.steam) && ids_empty(d.gog)))
    &&& match g.detect {
        Some(x) => detect_view(x) == d,
        None => view_empty(d.0) && view_empty(d.1),
    }
    &&& files_ordered(g.executables@)
    &&& forall|p: Platform| #[trigger] slot(g.executables@, p) == game_exec_slot(row.name@, manifest, addenda, p)
}

/// Executables as plain values.
pub open spec fn exec_view(files: Seq<(Platform, Vec<String>)>) -> Seq<(Platform, Seq<Seq<char>>)> {
    files.map_values(|e: (Platform, Vec<String>)| (e.0, strs(e.1@)))
}

/// An optional detection as plain values.
pub open spec fn opt_detect_view(d: Option<Detect>) -> Option<(Option<Seq<u64>>, Option<Seq<u64>>)> {
    match d {
        Some(x) => Some(detect_view(x)),
        None => None,
    }
}

/// A game as plain values: id, name, info, detection, executables and save
/// candidates.
pub type GameView = (
    Seq<char>,
    Seq<char>,
    Seq<char>,
    Option<(Option<Seq<u64>>, Option<Seq<u64>>)>,
    Seq<(Platform, Seq<Seq<char>>)>,
    Seq<CandView>,
);

pub open spec fn game_view(g: Game) -> GameView {
    (g.id@, g.name@, g.info@, opt_detect_view(g.detect), exec_view(g.executables@), cviews(g.save@))
}

/// Ordered executables are determined by their slots.
proof fn lemma_exec_view_unique(f1: Seq<(Platform, Vec<String>)>, f2: Seq<(Platform, Vec<String>)>)
    requires
        files_ordered(f1),
        files_ordered(f2),
        forall|p: Platform| #[trigger] slot(f1, p) == slot(f2, p),
    ensures
        exec_view(f1) == exec_view(f2),
{
    let lt = |a: (Platform, Seq<Seq<char>>), b: (Platform, Seq<Seq<char>>)| rank(a.0) < rank(b.0);
    let v1 = exec_view(f1);
    let v2 = exec_view(f2);
    assert forall|x: (Platform, Seq<Seq<char>>)| #[trigger] v1.contains(x) <==> slot(f1, x.0) == Some(x.1) by {
        lemma_ordered_slot(f1, x.0);
        if v1.contains(x) {
            let k = choose|k: int| 0 <= k < v1.len() && v1[k] == x;
            assert(f1[k].0 == x.0);
        }
        if slot(f1, x.0) == Some(x.1) {
            let k = choose|k: int| 0 <= k < f1.len() && #[trigger] f1[k].0 == x.0;
            assert(v1[k] == x);
        }
    }
    assert forall|x: (Platform, Seq<Seq<char>>)| #[trigger] v2.contains(x) <==> slot(f2, x.0) == Some(x.1) by {
        lemma_ordered_slot(f2, x.0);
        if v2.contains(x) {
            let k = choose|k: int| 0 <= k < v2.len() && v2[k] == x;
            assert(f2[k].0 == x.0);
        }
        if slot(f2, x.0) == Some(x.1) {
            let k = choose|k: int| 0 <= k < f2.len() && #[trigger] f2[k].0 == x.0;
            assert(v2[k] == x);
        }
    }
    assert forall|x: (Platform, Seq<Seq<char>>)| #[trigger] v1.contains(x) <==> v2.contains(x) by {
        assert(v1.contains(x) <==> slot(f1, x.0) == Some(x.1));
        assert(v2.contains(x) <==> slot(f2, x.0) == Some(x.1));
    }
    assert forall|a: (Platform, Seq<Seq<char>>), b: (Platform, Seq<Seq<char>>)|
        v1.contains(a) && v1.contains(b) && a != b implies #[trigger] lt(a, b) || lt(b, a) by {
        assert(slot(f1, a.0) == Some(a.1));
        assert(slot(f1, b.0) == Some(b.1));
    }
    assert(crate::paths::sorted_by(v1, lt)) by {
        assert forall|i: int, j: int| 0 <= i < j < v1.len() implies lt(#[trigger] v1[i], #[trigger] v1[j]) by {
            assert(rank(f1[i].0) < rank(f1[j].0));
        }
    }
    assert(crate::paths::sorted_by(v2, lt)) by {
        assert forall|i: int, j: int| 0 <= i < j < v2.len() implies lt(#[trigger] v2[i], #[trigger] v2[j]) by {
            assert(rank(f2[i].0) < rank(f2[j].0));
        }
    }
    crate::paths::lemma_sorted_unique(v1, v2, lt);
}

/// Games as plain values.
pub open spec fn game_views(games: Seq<Game>) -> Seq<GameView> {
    games.map_values(|g: Game| game_view(g))
}

/// Two games built for the same row are the same game.
pub proof fn lemma_game_built_unique(
    g1: Game,
    g2: Game,
    row: GameRow,
    manifest: Seq<(String, Entry)>,
    addenda: Seq<(String, AddendumEntry)>,
)
    requires
        game_built(g1, row, manifest, addenda),
        game_built(g2, row, manifest, addenda),
    ensures
        game_view(g1) == game_view(g2),
{
    lemma_exec_view_unique(g1.executables@, g2.executables@);
    let d = game_detect(row.name@, manifest, addenda);
    match (g1.detect, g2.detect) {
        (Some(x), None) => {
            assert(view_empty(d.0) && view_empty(d.1));
            assert(detect_view(x) == d);
        },
        (None, Some(y)) => {
            assert(view_empty(d.0) && view_empty(d.1));
            assert(detect_view(y) == d);
        },
        _ => {},
    }
}

/// The error a row gets when no game can be built for it.
pub open spec fn game_error(row: GameRow, manifest: Seq<(String, Entry)>, addenda: Seq<(String, AddendumEntry)>) -> Option<Seq<char>> {
    match source_save(row.name@, manifest, addenda) {
        None => Some("name unresolved in the manifest and no addendum entry"@),
        Some((save, drops)) => if overlay_save_spec(save, addendum_named(addenda, row.name@)).len() == 0 {
            Some("no usable save directory ("@ + drop_detail(drops) + ")"@)
        } else {
            None
        },
    }
}

/// The warnings for one platform's executables, when it lists any.
pub open spec fn slot_warnings(name: Seq<char>, p: Platform, s: Option<Seq<Seq<char>>>) -> Seq<Seq<char>> {
    match s {
        Some(v) => value_warnings(name, p, v),
        None => Seq::empty(),
    }
}

/// A platform's executables before they are checked: the manifest's, with
/// the addendum filling a platform the manifest lists nothing for.
pub open spec fn merged_exec_slot(name: Seq<char>, manifest: Seq<(String, Entry)>, addenda: Seq<(String, AddendumEntry)>, p: Platform) -> Option<Seq<Seq<char>>> {
    overlay_slot(base_exec_slot(name, manifest, p), add_exec_slot(name, addenda, p))
}

/// The warnings for invalid executables, platform by platform.
pub open spec fn game_exec_warnings(name: Seq<char>, manifest: Seq<(String, Entry)>, addenda: Seq<(String, AddendumEntry)>) -> Seq<Seq<char>> {
    slot_warnings(name, Platform::Windows, merged_exec_slot(name, manifest, addenda, Platform::Windows))
        + slot_warnings(name, Platform::Macos, merged_exec_slot(name, manifest, addenda, Platform::Macos))
        + slot_warnings(name, Platform::Linux, merged_exec_slot(name, manifest, addenda, Platform::Linux))
}

/// The warning for an addendum entry that the manifest entry makes
/// useless, when it gives anything.
pub open spec fn shadow_warnings(name: Seq<char>, a: Option<AddendumEntry>) -> Seq<Seq<char>> {
    match a {
        Some(x) => if has_data_spec(x) {
            seq!["addendum entry "@ + debug_str(name) + " is shadowed by the manifest entry; delete it"@]
        } else {
            Seq::empty()
        },
        None => Seq::empty(),
    }
}

/// An optional warning as a list.
pub open spec fn opt_warning(w: Option<Seq<char>>) -> Seq<Seq<char>> {
    match w {
        Some(x) => seq![x],
        None => Seq::empty(),
    }
}

/// The warnings building a row's game gives, in order: from a manifest
/// entry, a shadowed addendum entry and launch paths outside the install
/// folder; then, when the game can be built, an ambiguous save set and the
/// invalid executables.
pub open spec fn game_warnings(row: GameRow, manifest: Seq<(String, Entry)>, addenda: Seq<(String, AddendumEntry)>) -> Seq<Seq<char>> {
    let name = row.name@;
    let a = addendum_named(addenda, name);
    let head = match entry_named(manifest, name) {
        Some(e) => shadow_warnings(name, a) + launch_warnings(launch_of(e)),
        None => Seq::empty(),
    };
    if game_error(row, manifest, addenda) is Some {
        head
    } else {
        head + opt_warning(ambiguity_warning(name, overlay_save_spec(source_candidates(name, manifest, addenda), a)))
            + game_exec_warnings(name, manifest, addenda)
    }
}

/// The warnings of a list of entries: those of its first entry, then the
/// rest's.
proof fn lemma_exec_warnings_first(name: Seq<char>, files: Seq<(Platform, Vec<String>)>)
    requires
        files.len() > 0,
    ensures
        exec_warnings(name, files) == value_warnings(name, files[0].0, strs(files[0].1@)) + exec_warnings(
            name,
            files.drop_first(),
        ),
    decreases files.len(),
{
    let head = value_warnings(name, files[0].0, strs(files[0].1@));
    if files.len() == 1 {
        assert(files.drop_last().len() == 0);
        assert(files.drop_first().len() == 0);
        assert(exec_warnings(name, files) == exec_warnings(name, files.drop_last()) + value_warnings(
            name,
            files.last().0,
            strs(files.last().1@),
        ));
        assert(exec_warnings(name, files) =~= head);
    } else {
        let init = files.drop_last();
        lemma_exec_warnings_first(name, init);
        assert(init[0] == files[0]);
        let rest = files.drop_first();
        assert(rest.drop_last() =~= init.drop_first());
        assert(rest.last() == files.last());
        let tail = value_warnings(name, files.last().0, strs(files.last().1@));
        assert(exec_warnings(name, rest) == exec_warnings(name, rest.drop_last()) + tail);
        assert(exec_warnings(name, files) == exec_warnings(name, init) + tail);
        assert(exec_warnings(name, files) =~= head + exec_warnings(name, rest));
    }
}

/// The warnings of ordered entries, platform by platform.
proof fn lemma_exec_warnings_slots(name: Seq<char>, files: Seq<(Platform, Vec<String>)>)
    requires
        files_ordered(files),
    ensures
        exec_warnings(name, files) == slot_warnings(name, Platform::Windows, slot(files, Platform::Windows))
            + slot_warnings(name, Platform::Macos, slot(files, Platform::Macos)) + slot_warnings(
            name,
            Platform::Linux,
            slot(files, Platform::Linux),
        ),
    decreases files.len(),
{
    let w = Platform::Windows;
    let m = Platform::Macos;
    let l = Platform::Linux;
    if files.len() == 0 {
        assert(exec_warnings(name, files) =~= Seq::<Seq<char>>::empty());
        assert(slot_warnings(name, w, slot(files, w)) + slot_warnings(name, m, slot(files, m)) + slot_warnings(
            name,
            l,
            slot(files, l),
        ) =~= Seq::<Seq<char>>::empty());
    } else {
        let rest = files.drop_first();
        assert(files_ordered(rest)) by {
            assert forall|a: int, b: int| 0 <= a < b < rest.len() implies rank(#[trigger] rest[a].0) < rank(#[trigger] rest[b].0) by {
                assert(rest[a] == files[a + 1] && rest[b] == files[b + 1]);
            }
        }
        lemma_exec_warnings_slots(name, rest);
        lemma_exec_warnings_first(name, files);
        let f0 = files[0].0;
        let head = value_warnings(name, f0, strs(files[0].1@));
        assert forall|k: int| 0 <= k < rest.len() implies rank(f0) < rank(#[trigger] rest[k].0) by {
            assert(rest[k] == files[k + 1]);
        }
        let sw = slot_warnings(name, w, slot(rest, w));
        let sm = slot_warnings(name, m, slot(rest, m));
        let sl = slot_warnings(name, l, slot(rest, l));
        match f0 {
            Platform::Windows => {
                assert forall|k: int| 0 <= k < rest.len() implies #[trigger] rest[k].0 != w by {}
                lemma_slot_absent(rest, w);
                assert(exec_warnings(name, files) =~= head + sm + sl);
            },
            Platform::Macos => {
                assert forall|k: int| 0 <= k < rest.len() implies #[trigger] rest[k].0 != w by {}
                assert forall|k: int| 0 <= k < rest.len() implies #[trigger] rest[k].0 != m by {}
                lemma_slot_absent(rest, w);
                lemma_slot_absent(rest, m);
                assert(exec_warnings(name, files) =~= head + sl);
                assert(slot_warnings(name, w, slot(files, w)) + slot_warnings(name, m, slot(files, m))
                    + slot_warnings(name, l, slot(files, l)) =~= head + sl);
            },
            Platform::Linux => {
                assert forall|k: int| 0 <= k < rest.len() implies #[trigger] rest[k].0 != w by {}
                assert forall|k: int| 0 <= k < rest.len() implies #[trigger] rest[k].0 != m by {}
                assert forall|k: int| 0 <= k < rest.len() implies #[trigger] rest[k].0 != l by {}
                lemma_slot_absent(rest, w);
                lemma_slot_absent(rest, m);
                lemma_slot_absent(rest, l);
                assert(exec_warnings(name, files) =~= head);
                assert(slot_warnings(name, w, slot(files, w)) + slot_warnings(name, m, slot(files, m))
                    + slot_warnings(name, l, slot(files, l)) =~= head);
            },
        }
    }
}

proof fn lemma_derive_empty(name: Seq<char>, d: Detect, a: Option<Seq<char>>)
    requires
        ids_empty(d.steam) && ids_empty(d.gog),
    ensures
        derive_spec(name, d, a) == derive_spec(name, Detect { steam: None, gog: None }, a),
{
}

/// Builds one game's bundle entry from its manifest entry and its addendum
/// entry, warning about a shadowed addendum, launch paths outside the
/// install folder, ambiguous save sets and invalid executables.
pub fn build_game(row: &GameRow, manifest: &Vec<(String, Entry)>, addenda: &Vec<(String, AddendumEntry)>, report: &mut BuildReport) -> (r: Result<Game, String>)
    ensures
        match r {
            Ok(g) => game_error(*row, manifest@, addenda@) is None && game_built(g, *row, manifest@, addenda@),
            Err(m) => game_error(*row, manifest@, addenda@) == Some(m@),
        },
        strs(final(report).warnings@) == strs(old(report).warnings@) + game_warnings(*row, manifest@, addenda@),
        final(report).errors@ == old(report).errors@,
        final(report).games == old(report).games,
{
    let ghost start = strs(report.warnings@);
    let addendum = find_addendum(addenda, row.name.as_str());
    let ghost a = addendum_named(addenda@, row.name@);
    assert(a == match addendum {
        Some(x) => Some(*x),
        None => None::<AddendumEntry>,
    });
    let entry = find_entry(manifest, row.name.as_str());
    let mut detect: Detect;
    let mut executables: PlatformFiles;
    let save: Vec<SaveCandidate>;
    let drops: Vec<DropReason>;
    match entry {
        Some(entry) => {
            if let Some(x) = addendum {
                if addendum_has_data(x) {
                    let mut m = chars_of("addendum entry ");
                    push_all(&mut m, &debug_quoted_chars(&chars_of(row.name.as_str())));
                    push_str(&mut m, " is shadowed by the manifest entry; delete it");
                    let ghost before = report.warnings@;
                    report.warn(string_of(&m));
                    assert(strs(report.warnings@) =~= strs(before).push(m@));
                }
            }
            assert(strs(report.warnings@) =~= start + shadow_warnings(row.name@, a));
            detect = crate::translate::detect(entry);
            proof {
                lemma_id_list_exact(steam_sources(*entry), detect.steam);
                lemma_id_list_exact(gog_sources(*entry), detect.gog);
            }
            let (e, mut warnings) = crate::translate::executables(entry);
            proof {
                lemma_buckets(e@, launch_of(*entry));
            }
            executables = e;
            let ghost before = report.warnings@;
            let ghost added = warnings@;
            report.warnings.append(&mut warnings);
            assert(strs(report.warnings@) =~= strs(before) + strs(added));
            assert(strs(report.warnings@) =~= start + (shadow_warnings(row.name@, a) + launch_warnings(
                launch_of(*entry),
            )));
            let (s, d) = crate::translate::save(entry);
            save = s;
            drops = d;
        },
        None => {
            if addendum.is_none() {
                assert(strs(report.warnings@) =~= start + game_warnings(*row, manifest@, addenda@));
                return Err(string_of(&chars_of("name unresolved in the manifest and no addendum entry")));
            }
            assert(strs(report.warnings@) =~= start + Seq::<Seq<char>>::empty());
            // The overlay below fills detection and executables from the
            // addendum entry.
            detect = Detect { steam: None, gog: None };
            executables = Vec::new();
            save = match addendum {
                Some(x) => clone_candidates(&x.save),
                None => Vec::new(),
            };
            drops = Vec::new();
            assert(drops@ =~= Seq::<DropReason>::empty());
        },
    }
    assert(detect_view(detect) == base_detect(row.name@, manifest@));
    assert(files_ordered(executables@));
    assert(forall|p: Platform| #[trigger] slot(executables@, p) == base_exec_slot(row.name@, manifest@, p));
    if let Some(x) = addendum {
        overlay(&mut detect, &mut executables, x);
    }
    assert(detect_view(detect) == game_detect(row.name@, manifest@, addenda@));
    assert(files_ordered(executables@));
    assert(forall|p: Platform| #[trigger] slot(executables@, p) == overlay_slot(
        base_exec_slot(row.name@, manifest@, p),
        add_exec_slot(row.name@, addenda@, p),
    ));
    let save = overlay_save(save, addendum);
    let ghost head = match entry_named(manifest@, row.name@) {
        Some(e) => shadow_warnings(row.name@, a) + launch_warnings(launch_of(e)),
        None => Seq::empty(),
    };
    assert(strs(report.warnings@) == start + head);
    if save.len() == 0 {
        let mut m = chars_of("no usable save directory (");
        push_all(&mut m, &detail_of(&drops));
        push_str(&mut m, ")");
        return Err(string_of(&m));
    }
    warn_if_ambiguous(row, save.as_slice(), report);
    let ghost amb = opt_warning(ambiguity_warning(row.name@, cviews(save@)));
    assert(strs(report.warnings@) == start + head + amb);
    let addendum_id: Option<&str> = match addendum {
        Some(x) => match &x.id {
            Some(i) => Some(i.as_str()),
            None => None,
        },
        None => None,
    };
    let id = crate::identity::derive(row.name.as_str(), &detect, addendum_id);
    let empty = detect.is_empty();
    proof {
        if empty {
            lemma_derive_empty(row.name@, detect, addendum_id_of(a));
        }
    }
    let detect_field = if empty {
        None
    } else {
        Some(detect)
    };
    let ghost before = executables@;
    proof {
        lemma_kept_slots(before);
        lemma_exec_warnings_slots(row.name@, before);
        assert(exec_warnings(row.name@, before) == game_exec_warnings(row.name@, manifest@, addenda@));
    }
    let executables = match normalize_executables(executables, row.name.as_str(), report) {
        Ok(e) => e,
        Err(m) => {
            return Err(m);
        },
    };
    proof {
        lemma_normalized_slots(executables@, kept_entries(before));
        assert(strs(report.warnings@) =~= start + game_warnings(*row, manifest@, addenda@));
    }
    Ok(Game {
        id,
        name: row.name.clone(),
        info: row.info.clone(),
        detect: detect_field,
        executables,
        save,
    })
}


// ---- the whole build -------------------------------------------------------

/// A bundle as a build returns it: the current schema, the lock's source,
/// and valid.
pub open spec fn bundle_valid_output(b: Bundle, lock: Lock) -> bool {
    &&& b.schema == SCHEMA
    &&& b.source.repo@ == lock.repo@
    &&& b.source.revision@ == lock.revision@
    &&& crate::model::bundle_valid(b)
}

/// Ids strictly increasing in text order.
pub open spec fn ids_increasing(games: Seq<Game>) -> bool {
    forall|a: int, b: int| 0 <= a < b < games.len() ==> text_order(#[trigger] games[a].id@, #[trigger] games[b].id@) < 0
}

/// Some `Keep` row has the lowercased name.
pub open spec fn keep_named(rows: Seq<GameRow>, lower: Seq<char>) -> bool {
    exists|k: int|
        0 <= k < rows.len() && fit_spec(#[trigger] rows[k].product_fit@) == Some(ProductFit::Keep)
            && crate::broad::str_lowercase(rows[k].name@) == lower
}

/// The game is the one built for some `Keep` row.
pub open spec fn built_for_keep_row(g: Game, rows: Seq<GameRow>, manifest: Seq<(String, Entry)>, addenda: Seq<(String, AddendumEntry)>) -> bool {
    exists|k: int|
        0 <= k < rows.len() && fit_spec(rows[k].product_fit@) == Some(ProductFit::Keep) && #[trigger] game_built(g, rows[k], manifest, addenda)
}

/// Every game is the one built for some `Keep` row.
pub open spec fn games_from_rows(games: Seq<Game>, rows: Seq<GameRow>, manifest: Seq<(String, Entry)>, addenda: Seq<(String, AddendumEntry)>) -> bool {
    forall|j: int| 0 <= j < games.len() ==> #[trigger] built_for_keep_row(games[j], rows, manifest, addenda)
}

fn keep_has(rows: &[GameRow], lower: &[char]) -> (r: bool)
    ensures
        r == keep_named(rows@, lower@),
{
    let mut k: usize = 0;
    while k < rows.len()
        invariant
            k <= rows.len(),
            forall|j: int|
                0 <= j < k ==> !(fit_spec(#[trigger] rows@[j].product_fit@) == Some(ProductFit::Keep)
                    && crate::broad::str_lowercase(rows@[j].name@) == lower@),
        decreases rows.len() - k,
    {
        if rows[k].fit() == Some(ProductFit::Keep) {
            let l = crate::broad::lowercase(rows[k].name.as_str());
            if chars_eq(&chars_of(l.as_str()), lower) {
                return true;
            }
        }
        k = k + 1;
    }
    false
}

fn has_id(games: &Vec<Game>, id: &String) -> (r: bool)
    ensures
        r == exists|j: int| 0 <= j < games@.len() && #[trigger] games@[j].id@ == id@,
{
    let want = chars_of(id.as_str());
    let mut j: usize = 0;
    while j < games.len()
        invariant
            j <= games.len(),
            want@ == id@,
            forall|q: int| 0 <= q < j ==> #[trigger] games@[q].id@ != id@,
        decreases games.len() - j,
    {
        if chars_eq(&chars_of(games[j].id.as_str()), &want) {
            return true;
        }
        j = j + 1;
    }
    false
}

/// The game is one of those listed.
pub open spec fn is_one_of(g: Game, games: Seq<Game>) -> bool {
    exists|k: int| 0 <= k < games.len() && g == #[trigger] games[k]
}

/// Every game of `r` is one of `v`.
pub open spec fn taken_from(r: Seq<Game>, v: Seq<Game>) -> bool {
    forall|j: int| 0 <= j < r.len() ==> #[trigger] is_one_of(r[j], v)
}

/// Sorts games by id; their ids are distinct.
fn sort_games(v: Vec<Game>) -> (r: Vec<Game>)
    requires
        forall|a: int, b: int| 0 <= a < b < v@.len() ==> #[trigger] v@[a].id@ != #[trigger] v@[b].id@,
    ensures
        ids_increasing(r@),
        r@.len() == v@.len(),
        taken_from(r@, v@),
{
    let ghost orig = v@;
    let mut rest = v;
    let mut sorted: Vec<Game> = Vec::new();
    let ghost mut from: Seq<int> = Seq::empty();
    let mut i: usize = 0;
    assert(orig.len() == rest.len());
    while rest.len() > 0
        invariant
            i <= orig.len() <= usize::MAX,
            rest@ == orig.skip(i as int),
            sorted@.len() == i,
            from.len() == i,
            ids_increasing(sorted@),
            forall|j: int| 0 <= j < i ==> 0 <= #[trigger] from[j] < i && sorted@[j] == orig[from[j]],
            forall|a: int, b: int| 0 <= a < b < orig.len() ==> #[trigger] orig[a].id@ != #[trigger] orig[b].id@,
        decreases rest.len(),
    {
        let x = rest.remove(0);
        assert(x == orig[i as int]);
        assert(orig.skip(i as int).drop_first() == orig.skip(i + 1));
        let xid = chars_of(x.id.as_str());
        let mut p: usize = sorted.len();
        while p > 0 && text_compare(&chars_of(sorted[p - 1].id.as_str()), &xid) > 0
            invariant
                p <= sorted.len(),
                xid@ == x.id@,
                forall|j: int| p <= j < sorted.len() ==> text_order(#[trigger] sorted@[j].id@, x.id@) > 0,
            decreases p,
        {
            p = p - 1;
        }
        let ghost before = sorted@;
        let ghost before_from = from;
        proof {
            if p > 0 {
                let w = before[p - 1];
                assert(0 <= from[p - 1] < i && w == orig[from[p - 1]]);
                assert(w.id@ != x.id@);
                lemma_text_order(w.id@, x.id@);
            }
        }
        sorted.insert(p, x);
        proof {
            from = before_from.insert(p as int, i as int);
            let after = sorted@;
            assert(after == before.take(p as int).push(x) + before.skip(p as int));
            assert forall|a: int, b: int| 0 <= a < b < after.len() implies text_order(#[trigger] after[a].id@, #[trigger] after[b].id@) < 0 by {
                if b < p {
                    assert(after[a] == before[a] && after[b] == before[b]);
                } else if b == p {
                    assert(after[a] == before[a]);
                    if a < p - 1 {
                        lemma_text_order_trans(before[a].id@, before[p - 1].id@, x.id@);
                    }
                } else if a < p {
                    assert(after[a] == before[a] && after[b] == before[b - 1]);
                    lemma_text_order(before[b - 1].id@, x.id@);
                    if a < p - 1 {
                        lemma_text_order_trans(before[a].id@, before[p - 1].id@, x.id@);
                    }
                    lemma_text_order_trans(before[a].id@, x.id@, before[b - 1].id@);
                } else if a == p {
                    assert(after[b] == before[b - 1]);
                    lemma_text_order(before[b - 1].id@, x.id@);
                } else {
                    assert(after[a] == before[a - 1] && after[b] == before[b - 1]);
                }
            }
            assert forall|j: int| 0 <= j < i + 1 implies 0 <= #[trigger] from[j] < i + 1 && sorted@[j] == orig[from[j]] by {
                if j < p {
                    assert(from[j] == before_from[j]);
                    assert(after[j] == before[j]);
                } else if j == p {
                    assert(from[j] == i);
                } else {
                    assert(from[j] == before_from[j - 1]);
                    assert(after[j] == before[j - 1]);
                }
            }
        }
        i = i + 1;
    }
    assert(orig.skip(i as int).len() == 0);
    assert(i == orig.len());
    assert forall|j: int| 0 <= j < sorted@.len() implies #[trigger] is_one_of(sorted@[j], orig) by {
        assert(0 <= from[j] < orig.len() && sorted@[j] == orig[from[j]]);
    }
    sorted
}

/// How many rows are `Keep` rows.
pub open spec fn keep_count(rows: Seq<GameRow>) -> nat
    decreases rows.len(),
{
    if rows.len() == 0 {
        0
    } else {
        keep_count(rows.drop_last()) + if fit_spec(rows.last().product_fit@) == Some(ProductFit::Keep) {
            1nat
        } else {
            0nat
        }
    }
}

/// A `Keep` row whose game can be built.
pub open spec fn buildable(row: GameRow, manifest: Seq<(String, Entry)>, addenda: Seq<(String, AddendumEntry)>) -> bool {
    fit_spec(row.product_fit@) == Some(ProductFit::Keep) && game_error(row, manifest, addenda) is None
}

/// How many rows are `Keep` rows whose game can be built.
pub open spec fn buildable_count(rows: Seq<GameRow>, manifest: Seq<(String, Entry)>, addenda: Seq<(String, AddendumEntry)>) -> nat
    decreases rows.len(),
{
    if rows.len() == 0 {
        0
    } else {
        buildable_count(rows.drop_last(), manifest, addenda) + if buildable(rows.last(), manifest, addenda) {
            1nat
        } else {
            0nat
        }
    }
}

/// Two rows whose games can be built would get the same id.
pub open spec fn ids_clash(rows: Seq<GameRow>, manifest: Seq<(String, Entry)>, addenda: Seq<(String, AddendumEntry)>) -> bool {
    exists|k1: int, k2: int, x1: GameView, x2: GameView|
        buildable_rows(rows, manifest, addenda).contains(k1) && buildable_rows(rows, manifest, addenda).contains(k2)
            && k1 != k2 && #[trigger] built_view(x1, rows[k1], manifest, addenda) && #[trigger] built_view(
            x2,
            rows[k2],
            manifest,
            addenda,
        ) && x1.0 == x2.0
}

/// When a build fails with its errors: in strict mode a `Keep` row whose
/// game cannot be built, and in either mode two games with one id.
pub open spec fn build_fails(rows: Seq<GameRow>, manifest: Seq<(String, Entry)>, addenda: Seq<(String, AddendumEntry)>, lenient: bool) -> bool {
    ||| !lenient && exists|k: int|
        0 <= k < rows.len() && fit_spec(#[trigger] rows[k].product_fit@) == Some(ProductFit::Keep)
            && game_error(rows[k], manifest, addenda) is Some
    ||| ids_clash(rows, manifest, addenda)
}

/// `b` is the bundle the rows build: the current schema, the lock's source,
/// and one game per row whose game can be built, sorted by id.
pub open spec fn built_bundle(b: Bundle, rows: Seq<GameRow>, manifest: Seq<(String, Entry)>, addenda: Seq<(String, AddendumEntry)>, lock: Lock) -> bool {
    &&& b.schema == SCHEMA
    &&& b.source.repo@ == lock.repo@
    &&& b.source.revision@ == lock.revision@
    &&& ids_increasing(b.games@)
    &&& games_from_rows(b.games@, rows, manifest, addenda)
    &&& b.games@.len() == buildable_count(rows, manifest, addenda)
}

/// The game is built for a `Keep` row before `i`.
pub open spec fn built_below(g: Game, rows: Seq<GameRow>, i: int, manifest: Seq<(String, Entry)>, addenda: Seq<(String, AddendumEntry)>) -> bool {
    exists|k: int|
        0 <= k < i && fit_spec(rows[k].product_fit@) == Some(ProductFit::Keep) && #[trigger] game_built(g, rows[k], manifest, addenda)
}

/// The warnings for addendum entries that no `Keep` row names, in order.
pub open spec fn orphan_warnings(rows: Seq<GameRow>, addenda: Seq<(String, AddendumEntry)>) -> Seq<Seq<char>>
    decreases addenda.len(),
{
    if addenda.len() == 0 {
        Seq::empty()
    } else {
        let name = addenda.last().0@;
        orphan_warnings(rows, addenda.drop_last()) + if keep_named(rows, crate::broad::str_lowercase(name)) {
            Seq::empty()
        } else {
            seq!["addendum entry "@ + debug_str(name) + " has no matching Keep row; ignored"@]
        }
    }
}

/// The id of the game built for the row.
pub open spec fn built_id(row: GameRow, manifest: Seq<(String, Entry)>, addenda: Seq<(String, AddendumEntry)>) -> Seq<char> {
    (choose|x: GameView| built_view(x, row, manifest, addenda)).0
}

proof fn lemma_built_id(g: Game, row: GameRow, manifest: Seq<(String, Entry)>, addenda: Seq<(String, AddendumEntry)>)
    requires
        game_built(g, row, manifest, addenda),
    ensures
        g.id@ == built_id(row, manifest, addenda),
        buildable(row, manifest, addenda) || fit_spec(row.product_fit@) != Some(ProductFit::Keep),
{
    assert(built_view(game_view(g), row, manifest, addenda));
    let x = choose|x: GameView| built_view(x, row, manifest, addenda);
    let g2 = choose|g2: Game| #[trigger] game_built(g2, row, manifest, addenda) && game_view(g2) == x;
    lemma_game_built_unique(g, g2, row, manifest, addenda);
}

/// An earlier row's game has the id of the last row's game.
pub open spec fn id_taken(rows: Seq<GameRow>, manifest: Seq<(String, Entry)>, addenda: Seq<(String, AddendumEntry)>) -> bool {
    exists|k: int|
        0 <= k < rows.len() - 1 && #[trigger] buildable(rows[k], manifest, addenda) && built_id(rows[k], manifest, addenda)
            == built_id(rows.last(), manifest, addenda)
}

/// The warnings a row gives: those of building its game, and in lenient
/// mode the reason it could not be built.
pub open spec fn row_warnings(row: GameRow, manifest: Seq<(String, Entry)>, addenda: Seq<(String, AddendumEntry)>, lenient: bool) -> Seq<Seq<char>> {
    if fit_spec(row.product_fit@) == Some(ProductFit::Keep) {
        game_warnings(row, manifest, addenda) + match game_error(row, manifest, addenda) {
            Some(e) => if lenient {
                seq![row.name@ + ": unresolved ("@ + e + ")"@]
            } else {
                Seq::empty()
            },
            None => Seq::empty(),
        }
    } else {
        Seq::empty()
    }
}

/// The warnings of the rows, in row order.
pub open spec fn rows_warnings(rows: Seq<GameRow>, manifest: Seq<(String, Entry)>, addenda: Seq<(String, AddendumEntry)>, lenient: bool) -> Seq<Seq<char>>
    decreases rows.len(),
{
    if rows.len() == 0 {
        Seq::empty()
    } else {
        rows_warnings(rows.drop_last(), manifest, addenda, lenient) + row_warnings(rows.last(), manifest, addenda, lenient)
    }
}

/// Every warning of a build: addendum entries without a row first, then
/// the rows'.
pub open spec fn build_warnings(rows: Seq<GameRow>, addenda: Seq<(String, AddendumEntry)>, manifest: Seq<(String, Entry)>, lenient: bool) -> Seq<Seq<char>> {
    orphan_warnings(rows, addenda) + rows_warnings(rows, manifest, addenda, lenient)
}

/// The error the last row gives: in strict mode why its game cannot be
/// built; in either mode an id an earlier row's game already has.
pub open spec fn last_row_errors(rows: Seq<GameRow>, manifest: Seq<(String, Entry)>, addenda: Seq<(String, AddendumEntry)>, lenient: bool) -> Seq<Seq<char>> {
    let row = rows.last();
    if fit_spec(row.product_fit@) == Some(ProductFit::Keep) {
        match game_error(row, manifest, addenda) {
            Some(e) => if lenient {
                Seq::empty()
            } else {
                seq![row.name@ + ": "@ + e]
            },
            None => if id_taken(rows, manifest, addenda) {
                seq![row.name@ + ": duplicate catalog id "@ + built_id(row, manifest, addenda)]
            } else {
                Seq::empty()
            },
        }
    } else {
        Seq::empty()
    }
}

/// Every error of a build, in row order.
pub open spec fn build_errors(rows: Seq<GameRow>, manifest: Seq<(String, Entry)>, addenda: Seq<(String, AddendumEntry)>, lenient: bool) -> Seq<Seq<char>>
    decreases rows.len(),
{
    if rows.len() == 0 {
        Seq::empty()
    } else {
        build_errors(rows.drop_last(), manifest, addenda, lenient) + last_row_errors(rows, manifest, addenda, lenient)
    }
}

/// What a build from parsed inputs gives: a valid bundle whose games, sorted
/// by id, are those built from `Keep` rows (one per row whose game can be
/// built; in strict mode that is every `Keep` row) and a report without
/// errors whose warnings are [`build_warnings`]; or, exactly when
/// [`build_fails`], a failure that carries [`build_errors`] and those
/// warnings; or else the first problem of the built bundle when it is
/// invalid.
/// So a build succeeds exactly when it does not fail and the bundle it
/// builds is valid.
pub open spec fn parsed_outcome(
    r: Result<BuildOutput, BuildError>,
    rows: Seq<GameRow>,
    addenda: Seq<(String, AddendumEntry)>,
    manifest: Seq<(String, Entry)>,
    lock: Lock,
    lenient: bool,
) -> bool {
    &&& r matches Ok(out) ==> {
        &&& bundle_valid_output(out.bundle, lock)
        &&& ids_increasing(out.bundle.games@)
        &&& games_from_rows(out.bundle.games@, rows, manifest, addenda)
        &&& out.report.errors@.len() == 0
        &&& strs(out.report.warnings@) == build_warnings(rows, addenda, manifest, lenient)
        &&& out.report.games == out.bundle.games@.len()
        &&& out.bundle.games@.len() == buildable_count(rows, manifest, addenda)
        &&& (!lenient ==> out.bundle.games@.len() == keep_count(rows))
    }
    &&& r matches Err(BuildError::Failed { report }) ==> {
        &&& report.errors@.len() > 0
        &&& strs(report.errors@) == build_errors(rows, manifest, addenda, lenient)
        &&& strs(report.warnings@) == build_warnings(rows, addenda, manifest, lenient)
    }
    &&& (r matches Err(BuildError::Failed { .. })) <==> build_fails(rows, manifest, addenda, lenient)
    &&& r matches Err(BuildError::Input(m)) ==> exists|b: Bundle|
        built_bundle(b, rows, manifest, addenda, lock) && (#[trigger] crate::model::bundle_problem(b) matches Some(p)
            && m@ == "invalid bundle: "@ + p)
    &&& !(r matches Err(BuildError::Hash { .. }))
    &&& r is Ok <==> !build_fails(rows, manifest, addenda, lenient) && forall|b: Bundle|
        #[trigger] built_bundle(b, rows, manifest, addenda, lock) ==> crate::model::bundle_problem(b) is None
}

/// Builds the bundle from the parsed inputs. Every `Keep` row becomes a
/// game or a problem: an error, or in lenient mode a warning; addendum
/// entries without a `Keep` row, shadowed addendum entries and doubtful
/// save sets are warnings. Games come out sorted by id, and the bundle is
/// validated before it is returned.
#[verifier::rlimit(40)]
pub fn build_parsed(
    rows: &[GameRow],
    addenda: &Vec<(String, AddendumEntry)>,
    manifest: &Vec<(String, Entry)>,
    lock: &Lock,
    lenient: bool,
) -> (r: Result<BuildOutput, BuildError>)
    ensures
        parsed_outcome(r, rows@, addenda@, manifest@, *lock, lenient),
{
    let mut report = BuildReport { errors: Vec::new(), warnings: Vec::new(), games: 0 };
    let mut n: usize = 0;
    while n < addenda.len()
        invariant
            n <= addenda.len(),
            report.errors@.len() == 0,
            strs(report.warnings@) == orphan_warnings(rows@, addenda@.take(n as int)),
        decreases addenda.len() - n,
    {
        assert(addenda@.take(n + 1).drop_last() == addenda@.take(n as int));
        assert(addenda@.take(n + 1).last() == addenda@[n as int]);
        let ghost before = report.warnings@;
        let lower = crate::broad::lowercase(addenda[n].0.as_str());
        if !keep_has(rows, &chars_of(lower.as_str())) {
            let mut m = chars_of("addendum entry ");
            push_all(&mut m, &debug_quoted_chars(&chars_of(addenda[n].0.as_str())));
            push_str(&mut m, " has no matching Keep row; ignored");
            report.warn(string_of(&m));
            assert(strs(report.warnings@) =~= strs(before).push(m@));
        }
        assert(strs(report.warnings@) =~= orphan_warnings(rows@, addenda@.take(n + 1)));
        n = n + 1;
    }
    assert(addenda@.take(addenda.len() as int) == addenda@);
    assert(rows_warnings(rows@.take(0), manifest@, addenda@, lenient) =~= Seq::<Seq<char>>::empty());
    assert(strs(report.warnings@) =~= orphan_warnings(rows@, addenda@) + rows_warnings(rows@.take(0), manifest@, addenda@, lenient));
    assert(strs(report.errors@) =~= build_errors(rows@.take(0), manifest@, addenda@, lenient));
    let mut games: Vec<Game> = Vec::new();
    let mut failed = false;
    let mut i: usize = 0;
    while i < rows.len()
        invariant
            i <= rows.len(),
            games_from_rows(games@, rows@, manifest@, addenda@),
            forall|j: int| 0 <= j < games@.len() ==> #[trigger] built_below(games@[j], rows@, i as int, manifest@, addenda@),
            forall|a: int, b: int| 0 <= a < b < games@.len() ==> #[trigger] games@[a].id@ != #[trigger] games@[b].id@,
            failed == (report.errors@.len() > 0),
            failed ==> build_fails(rows@, manifest@, addenda@, lenient),
            !lenient && !failed ==> games@.len() == keep_count(rows@.take(i as int)),
            !failed ==> games@.len() == buildable_count(rows@.take(i as int), manifest@, addenda@),
            !lenient && (exists|k: int|
                0 <= k < i && fit_spec(#[trigger] rows@[k].product_fit@) == Some(ProductFit::Keep)
                    && game_error(rows@[k], manifest@, addenda@) is Some) ==> report.errors@.len() > 0,
            strs(report.warnings@) == orphan_warnings(rows@, addenda@) + rows_warnings(rows@.take(i as int), manifest@, addenda@, lenient),
            strs(report.errors@) == build_errors(rows@.take(i as int), manifest@, addenda@, lenient),
            forall|k: int|
                0 <= k < i && #[trigger] buildable(rows@[k], manifest@, addenda@) ==> exists|j: int|
                    0 <= j < games@.len() && games@[j].id@ == built_id(rows@[k], manifest@, addenda@),
        decreases rows.len() - i,
    {
        assert(rows@.take(i + 1).drop_last() == rows@.take(i as int));
        assert(rows@.take(i + 1).last() == rows@[i as int]);
        let ghost next = rows@.take(i + 1);
        assert(rows_warnings(next, manifest@, addenda@, lenient) == rows_warnings(rows@.take(i as int), manifest@, addenda@, lenient)
            + row_warnings(rows@[i as int], manifest@, addenda@, lenient));
        assert(build_errors(next, manifest@, addenda@, lenient) == build_errors(rows@.take(i as int), manifest@, addenda@, lenient)
            + last_row_errors(next, manifest@, addenda@, lenient));
        let row = &rows[i];
        if row.fit() == Some(ProductFit::Keep) {
            let before_errors = report.errors.len();
            match build_game(row, manifest, addenda, &mut report) {
                Ok(game) => {
                    proof {
                        lemma_built_id(game, rows@[i as int], manifest@, addenda@);
                        assert(row_warnings(rows@[i as int], manifest@, addenda@, lenient) =~= game_warnings(*row, manifest@, addenda@));
                    }
                    if has_id(&games, &game.id) {
                        proof {
                            let j0 = choose|j: int| 0 <= j < games@.len() && #[trigger] games@[j].id@ == game.id@;
                            assert(built_below(games@[j0], rows@, i as int, manifest@, addenda@));
                            let k0 = choose|k: int|
                                0 <= k < i && fit_spec(rows@[k].product_fit@) == Some(ProductFit::Keep) && #[trigger] game_built(
                                    games@[j0],
                                    rows@[k],
                                    manifest@,
                                    addenda@,
                                );
                            lemma_built_id(games@[j0], rows@[k0], manifest@, addenda@);
                            assert(next[k0] == rows@[k0]);
                            assert(buildable(next[k0], manifest@, addenda@));
                            assert(id_taken(next, manifest@, addenda@));
                        }
                        proof {
                            let j = choose|j: int| 0 <= j < games@.len() && #[trigger] games@[j].id@ == game.id@;
                            assert(built_below(games@[j], rows@, i as int, manifest@, addenda@));
                            let k1 = choose|k: int|
                                0 <= k < i && fit_spec(rows@[k].product_fit@) == Some(ProductFit::Keep) && #[trigger] game_built(
                                    games@[j],
                                    rows@[k],
                                    manifest@,
                                    addenda@,
                                );
                            assert(buildable_rows(rows@, manifest@, addenda@).contains(k1));
                            assert(buildable_rows(rows@, manifest@, addenda@).contains(i as int));
                            assert(built_view(game_view(games@[j]), rows@[k1], manifest@, addenda@));
                            assert(built_view(game_view(game), rows@[i as int], manifest@, addenda@));
                            assert(ids_clash(rows@, manifest@, addenda@));
                        }
                        let mut m = chars_of(row.name.as_str());
                        push_str(&mut m, ": duplicate catalog id ");
                        push_str(&mut m, game.id.as_str());
                        let ghost eb = report.errors@;
                        report.error(string_of(&m));
                        assert(strs(report.errors@) =~= strs(eb).push(m@));
                        failed = true;
                    } else {
                        proof {
                            if id_taken(next, manifest@, addenda@) {
                                let k = choose|k: int|
                                    0 <= k < next.len() - 1 && #[trigger] buildable(next[k], manifest@, addenda@) && built_id(
                                        next[k],
                                        manifest@,
                                        addenda@,
                                    ) == built_id(next.last(), manifest@, addenda@);
                                assert(next[k] == rows@[k]);
                                assert(buildable(rows@[k], manifest@, addenda@));
                                let j = choose|j: int|
                                    0 <= j < games@.len() && games@[j].id@ == built_id(rows@[k], manifest@, addenda@);
                                assert(games@[j].id@ == game.id@);
                            }
                        }
                        let ghost before = games@;
                        games.push(game);
                        proof {
                            assert forall|k: int|
                                0 <= k < i + 1 && #[trigger] buildable(rows@[k], manifest@, addenda@) implies exists|j: int|
                                    0 <= j < games@.len() && games@[j].id@ == built_id(rows@[k], manifest@, addenda@) by {
                                if k < i {
                                    let j = choose|j: int|
                                        0 <= j < before.len() && before[j].id@ == built_id(rows@[k], manifest@, addenda@);
                                    assert(games@[j] == before[j]);
                                } else {
                                    assert(games@[before.len() as int].id@ == built_id(rows@[k], manifest@, addenda@));
                                }
                            }
                            assert forall|j: int| 0 <= j < games@.len() implies #[trigger] built_for_keep_row(games@[j], rows@, manifest@, addenda@) by {
                                if j < before.len() {
                                    assert(games@[j] == before[j]);
                                    assert(built_for_keep_row(before[j], rows@, manifest@, addenda@));
                                } else {
                                    assert(game_built(games@[j], rows@[i as int], manifest@, addenda@));
                                }
                            }
                            assert forall|j: int| 0 <= j < games@.len() implies #[trigger] built_below(games@[j], rows@, i + 1, manifest@, addenda@) by {
                                if j < before.len() {
                                    assert(games@[j] == before[j]);
                                    assert(built_below(before[j], rows@, i as int, manifest@, addenda@));
                                    let k = choose|k: int|
                                        0 <= k < i && fit_spec(rows@[k].product_fit@) == Some(ProductFit::Keep) && #[trigger] game_built(
                                            before[j],
                                            rows@[k],
                                            manifest@,
                                            addenda@,
                                        );
                                    assert(game_built(games@[j], rows@[k], manifest@, addenda@));
                                } else {
                                    assert(game_built(games@[j], rows@[i as int], manifest@, addenda@));
                                }
                            }
                            assert forall|a: int, b: int| 0 <= a < b < games@.len() implies #[trigger] games@[a].id@ != #[trigger] games@[b].id@ by {
                                if b == before.len() {
                                    assert(games@[a] == before[a]);
                                } else {
                                    assert(games@[a] == before[a] && games@[b] == before[b]);
                                }
                            }
                        }
                    }
                },
                Err(message) => {
                    if lenient {
                        let mut m = chars_of(row.name.as_str());
                        push_str(&mut m, ": unresolved (");
                        push_str(&mut m, message.as_str());
                        push_str(&mut m, ")");
                        let ghost wb = report.warnings@;
                        report.warn(string_of(&m));
                        assert(strs(report.warnings@) =~= strs(wb).push(m@));
                    } else {
                        let mut m = chars_of(row.name.as_str());
                        push_str(&mut m, ": ");
                        push_str(&mut m, message.as_str());
                        let ghost eb = report.errors@;
                        report.error(string_of(&m));
                        assert(strs(report.errors@) =~= strs(eb).push(m@));
                        failed = true;
                    }
                },
            }
        }
        proof {
            assert(strs(report.warnings@) =~= orphan_warnings(rows@, addenda@) + rows_warnings(next, manifest@, addenda@, lenient));
            assert(strs(report.errors@) =~= build_errors(next, manifest@, addenda@, lenient));
        }
        proof {
            assert forall|j: int| 0 <= j < games@.len() implies #[trigger] built_below(games@[j], rows@, i + 1, manifest@, addenda@) by {
                if !built_below(games@[j], rows@, i + 1, manifest@, addenda@) {
                    if built_below(games@[j], rows@, i as int, manifest@, addenda@) {
                        let k = choose|k: int|
                            0 <= k < i && fit_spec(rows@[k].product_fit@) == Some(ProductFit::Keep) && #[trigger] game_built(
                                games@[j],
                                rows@[k],
                                manifest@,
                                addenda@,
                            );
                        assert(0 <= k < i + 1);
                    }
                }
            }
            if !lenient && (exists|k: int|
                0 <= k < i + 1 && fit_spec(#[trigger] rows@[k].product_fit@) == Some(ProductFit::Keep)
                    && game_error(rows@[k], manifest@, addenda@) is Some) {
                let k = choose|k: int|
                    0 <= k < i + 1 && fit_spec(#[trigger] rows@[k].product_fit@) == Some(ProductFit::Keep)
                        && game_error(rows@[k], manifest@, addenda@) is Some;
                if k < i {
                    assert(report.errors@.len() > 0);
                }
            }
        }
        i = i + 1;
    }
    assert(rows@.take(rows.len() as int) == rows@);
    let ghost pre = games@;
    let games = sort_games(games);
    proof {
        assert forall|j: int| 0 <= j < games@.len() implies #[trigger] built_for_keep_row(games@[j], rows@, manifest@, addenda@) by {
            assert(is_one_of(games@[j], pre));
            let q = choose|q: int| 0 <= q < pre.len() && games@[j] == #[trigger] pre[q];
            assert(built_for_keep_row(pre[q], rows@, manifest@, addenda@));
        }
    }
    let bundle = Bundle {
        schema: SCHEMA,
        source: Source { repo: lock.repo.clone(), revision: lock.revision.clone() },
        games,
    };
    if !report.is_clean() {
        return Err(BuildError::Failed { report });
    }
    proof {
        lemma_games_cover(bundle.games@, rows@, manifest@, addenda@);
        assert(built_bundle(bundle, rows@, manifest@, addenda@, *lock));
    }
    match bundle.validate() {
        Ok(()) => {},
        Err(e) => {
            let message = e.message();
            return Err(BuildError::Input(message));
        },
    }
    proof {
        assert forall|b: Bundle| #[trigger] built_bundle(b, rows@, manifest@, addenda@, *lock) implies crate::model::bundle_problem(b) is None by {
            lemma_built_bundles_agree(bundle, b, rows@, manifest@, addenda@, *lock);
        }
    }
    report.games = bundle.games.len();
    Ok(BuildOutput { bundle, report })
}

/// What a build from its inputs gives: the manifest must be the one the
/// lock pins; then `games.csv` is read, and the addendum and the manifest
/// must have been read (`addenda` and `manifest` are those files as the
/// caller parsed them, or the parser's complaint); the first problem in
/// that order is the error. Then the build from the parsed inputs.
pub open spec fn build_outcome(
    r: Result<BuildOutput, BuildError>,
    games_csv: Seq<char>,
    manifest_yaml: Seq<char>,
    lock: Lock,
    addenda: Result<Seq<(String, AddendumEntry)>, Seq<char>>,
    manifest: Result<Seq<(String, Entry)>, Seq<char>>,
    lenient: bool,
) -> bool {
    if hex_spec(sha256_text(manifest_yaml)) != lock.sha256@ {
        r matches Err(BuildError::Hash { expected, actual }) && expected@ == lock.sha256@ && actual@ == hex_spec(
            sha256_text(manifest_yaml),
        )
    } else {
        match crate::games::games_spec(games_csv) {
            Err(e) => r matches Err(BuildError::Input(m)) && m@ == e,
            Ok(rows) => match addenda {
                Err(e) => r matches Err(BuildError::Input(m)) && m@ == e,
                Ok(a) => match manifest {
                    Err(e) => r matches Err(BuildError::Input(m)) && m@ == e,
                    Ok(m) => built_from_rows(r, rows, a, m, lock, lenient),
                },
            },
        }
    }
}

/// The build from rows read as `rows`.
pub open spec fn built_from_rows(
    r: Result<BuildOutput, BuildError>,
    rows: Seq<crate::games::RowText>,
    addenda: Seq<(String, AddendumEntry)>,
    manifest: Seq<(String, Entry)>,
    lock: Lock,
    lenient: bool,
) -> bool {
    exists|parsed: Seq<GameRow>|
        crate::games::row_texts(parsed) == rows && #[trigger] parsed_outcome(r, parsed, addenda, manifest, lock, lenient)
}

/// A parser's answer as plain values.
pub open spec fn parsed_view<T>(p: Result<Vec<T>, String>) -> Result<Seq<T>, Seq<char>> {
    match p {
        Ok(v) => Ok(v@),
        Err(e) => Err(e@),
    }
}

fn build_from(
    inputs: &Inputs,
    addenda: &Result<Vec<(String, AddendumEntry)>, String>,
    manifest: &Result<Vec<(String, Entry)>, String>,
    lenient: bool,
) -> (r: Result<BuildOutput, BuildError>)
    ensures
        build_outcome(
            r,
            inputs.games_csv@,
            inputs.manifest_yaml@,
            *inputs.lock,
            parsed_view(*addenda),
            parsed_view(*manifest),
            lenient,
        ),
{
    match check_manifest_hash(inputs.manifest_yaml, inputs.lock) {
        Ok(()) => {},
        Err(e) => {
            return Err(e);
        },
    }
    let rows = match crate::games::parse(inputs.games_csv) {
        Ok(rows) => rows,
        Err(e) => {
            return Err(BuildError::Input(e));
        },
    };
    let adds = match addenda {
        Ok(a) => a,
        Err(e) => {
            return Err(BuildError::Input(e.clone()));
        },
    };
    let entries = match manifest {
        Ok(m) => m,
        Err(e) => {
            return Err(BuildError::Input(e.clone()));
        },
    };
    let r = build_parsed(rows.as_slice(), adds, entries, inputs.lock, lenient);
    assert(parsed_view(*addenda) == Ok::<Seq<(String, AddendumEntry)>, Seq<char>>(adds@));
    assert(parsed_view(*manifest) == Ok::<Seq<(String, Entry)>, Seq<char>>(entries@));
    assert(crate::games::games_spec(inputs.games_csv@) == Ok::<Seq<crate::games::RowText>, Seq<char>>(crate::games::row_texts(rows@)));
    assert(built_from_rows(r, crate::games::row_texts(rows@), adds@, entries@, *inputs.lock, lenient));
    r
}

/// The build: the manifest must be the one the lock pins, `games.csv` must
/// read, and then every `Keep` row must become a game.
pub fn build(
    inputs: &Inputs,
    addenda: &Result<Vec<(String, AddendumEntry)>, String>,
    manifest: &Result<Vec<(String, Entry)>, String>,
) -> (r: Result<BuildOutput, BuildError>)
    ensures
        build_outcome(
            r,
            inputs.games_csv@,
            inputs.manifest_yaml@,
            *inputs.lock,
            parsed_view(*addenda),
            parsed_view(*manifest),
            false,
        ),
{
    build_from(inputs, addenda, manifest, false)
}

/// The build for bootstrapping and inspection: games that cannot be built
/// are left out with a warning instead of stopping the build.
pub fn build_lenient(
    inputs: &Inputs,
    addenda: &Result<Vec<(String, AddendumEntry)>, String>,
    manifest: &Result<Vec<(String, Entry)>, String>,
) -> (r: Result<BuildOutput, BuildError>)
    ensures
        build_outcome(
            r,
            inputs.games_csv@,
            inputs.manifest_yaml@,
            *inputs.lock,
            parsed_view(*addenda),
            parsed_view(*manifest),
            true,
        ),
{
    build_from(inputs, addenda, manifest, true)
}

// ---- determinism ---------------------------------------------------------------

/// The indices of the rows whose game can be built.
pub open spec fn buildable_rows(rows: Seq<GameRow>, manifest: Seq<(String, Entry)>, addenda: Seq<(String, AddendumEntry)>) -> Set<int> {
    Set::new(|k: int| 0 <= k < rows.len() && buildable(rows[k], manifest, addenda))
}

proof fn lemma_buildable_rows(rows: Seq<GameRow>, manifest: Seq<(String, Entry)>, addenda: Seq<(String, AddendumEntry)>)
    ensures
        buildable_rows(rows, manifest, addenda).finite(),
        buildable_rows(rows, manifest, addenda).len() == buildable_count(rows, manifest, addenda),
    decreases rows.len(),
{
    if rows.len() == 0 {
        assert(buildable_rows(rows, manifest, addenda) =~= Set::<int>::empty());
    } else {
        let r0 = rows.drop_last();
        let n = rows.len() - 1;
        lemma_buildable_rows(r0, manifest, addenda);
        let s0 = buildable_rows(r0, manifest, addenda);
        assert(!s0.contains(n));
        if buildable(rows[n], manifest, addenda) {
            assert(buildable_rows(rows, manifest, addenda) =~= s0.insert(n));
        } else {
            assert(buildable_rows(rows, manifest, addenda) =~= s0);
        }
    }
}

/// `x` is the view of the game built for the row.
pub open spec fn built_view(x: GameView, row: GameRow, manifest: Seq<(String, Entry)>, addenda: Seq<(String, AddendumEntry)>) -> bool {
    exists|g: Game| #[trigger] game_built(g, row, manifest, addenda) && game_view(g) == x
}

/// The games of a build, as views: exactly the games of the rows that can
/// be built.
proof fn lemma_games_cover(games: Seq<Game>, rows: Seq<GameRow>, manifest: Seq<(String, Entry)>, addenda: Seq<(String, AddendumEntry)>)
    requires
        games_from_rows(games, rows, manifest, addenda),
        ids_increasing(games),
        games.len() == buildable_count(rows, manifest, addenda),
    ensures
        forall|x: GameView| #[trigger] game_views(games).contains(x) <==> exists|k: int|
            #[trigger] buildable_rows(rows, manifest, addenda).contains(k) && built_view(x, rows[k], manifest, addenda),
        !ids_clash(rows, manifest, addenda),
{
    let n = games.len() as int;
    let rs = buildable_rows(rows, manifest, addenda);
    lemma_buildable_rows(rows, manifest, addenda);
    let f = |i: int|
        choose|k: int|
            0 <= k < rows.len() && fit_spec(rows[k].product_fit@) == Some(ProductFit::Keep) && #[trigger] game_built(
                games[i],
                rows[k],
                manifest,
                addenda,
            );
    let dom = vstd::set_lib::set_int_range(0, n);
    assert forall|i: int| 0 <= i < n implies #[trigger] rs.contains(f(i)) && game_built(games[i], rows[f(i)], manifest, addenda) by {
        assert(built_for_keep_row(games[i], rows, manifest, addenda));
    }
    assert(vstd::relations::injective_on(f, dom)) by {
        assert forall|i: int, j: int| dom.contains(i) && dom.contains(j) && #[trigger] f(i) == #[trigger] f(j) implies i == j by {
            assert(rs.contains(f(i)) && rs.contains(f(j)));
            lemma_game_built_unique(games[i], games[j], rows[f(i)], manifest, addenda);
            if i != j {
                crate::paths::lemma_text_order(games[i].id@, games[j].id@);
                if i < j {
                    assert(text_order(games[i].id@, games[j].id@) < 0);
                } else {
                    assert(text_order(games[j].id@, games[i].id@) < 0);
                }
            }
        }
    }
    vstd::set_lib::lemma_int_range(0, n);
    let image = dom.map(f);
    vstd::set_lib::lemma_map_size(dom, image, f);
    assert(image.subset_of(rs)) by {
        assert forall|k: int| image.contains(k) implies rs.contains(k) by {
            let i = choose|i: int| dom.contains(i) && f(i) == k;
            assert(rs.contains(f(i)));
        }
    }
    vstd::set_lib::lemma_subset_equality(image, rs);
    let views = game_views(games);
    assert forall|x: GameView| #[trigger] views.contains(x) <==> exists|k: int|
        #[trigger] rs.contains(k) && built_view(x, rows[k], manifest, addenda) by {
        if views.contains(x) {
            let i = choose|i: int| 0 <= i < views.len() && views[i] == x;
            assert(rs.contains(f(i)) && game_built(games[i], rows[f(i)], manifest, addenda));
            assert(built_view(x, rows[f(i)], manifest, addenda));
        }
        if exists|k: int| #[trigger] rs.contains(k) && built_view(x, rows[k], manifest, addenda) {
            let k = choose|k: int| #[trigger] rs.contains(k) && built_view(x, rows[k], manifest, addenda);
            assert(image.contains(k));
            let i = choose|i: int| dom.contains(i) && f(i) == k;
            assert(game_built(games[i], rows[k], manifest, addenda));
            let g = choose|g: Game| #[trigger] game_built(g, rows[k], manifest, addenda) && game_view(g) == x;
            lemma_game_built_unique(games[i], g, rows[k], manifest, addenda);
            assert(views[i] == x);
        }
    }
    if ids_clash(rows, manifest, addenda) {
        let (k1, k2, x1, x2) = choose|k1: int, k2: int, x1: GameView, x2: GameView|
            rs.contains(k1) && rs.contains(k2) && k1 != k2 && #[trigger] built_view(x1, rows[k1], manifest, addenda)
                && #[trigger] built_view(x2, rows[k2], manifest, addenda) && x1.0 == x2.0;
        assert(image.contains(k1) && image.contains(k2));
        let i1 = choose|i: int| dom.contains(i) && f(i) == k1;
        let i2 = choose|i: int| dom.contains(i) && f(i) == k2;
        let h1 = choose|g: Game| #[trigger] game_built(g, rows[k1], manifest, addenda) && game_view(g) == x1;
        let h2 = choose|g: Game| #[trigger] game_built(g, rows[k2], manifest, addenda) && game_view(g) == x2;
        lemma_game_built_unique(games[i1], h1, rows[k1], manifest, addenda);
        lemma_game_built_unique(games[i2], h2, rows[k2], manifest, addenda);
        crate::paths::lemma_text_order(games[i1].id@, games[i2].id@);
        if i1 < i2 {
            assert(text_order(games[i1].id@, games[i2].id@) < 0);
        } else {
            assert(text_order(games[i2].id@, games[i1].id@) < 0);
        }
    }
}

/// The build is deterministic: any two successful builds of the same parsed
/// inputs, strict or lenient, give the same bundle.
pub proof fn law_build_is_deterministic(
    r1: Result<BuildOutput, BuildError>,
    r2: Result<BuildOutput, BuildError>,
    rows: Seq<GameRow>,
    addenda: Seq<(String, AddendumEntry)>,
    manifest: Seq<(String, Entry)>,
    lock: Lock,
    lenient1: bool,
    lenient2: bool,
)
    requires
        parsed_outcome(r1, rows, addenda, manifest, lock, lenient1),
        parsed_outcome(r2, rows, addenda, manifest, lock, lenient2),
        r1 is Ok,
        r2 is Ok,
    ensures
        r1->Ok_0.bundle.schema == r2->Ok_0.bundle.schema,
        r1->Ok_0.bundle.source.repo@ == r2->Ok_0.bundle.source.repo@,
        r1->Ok_0.bundle.source.revision@ == r2->Ok_0.bundle.source.revision@,
        game_views(r1->Ok_0.bundle.games@) == game_views(r2->Ok_0.bundle.games@),
{
    lemma_built_bundles_agree(r1->Ok_0.bundle, r2->Ok_0.bundle, rows, manifest, addenda, lock);
}

// ---- validity goes by the games' values ---------------------------------------

proof fn lemma_exec_list_problem_view(id: Seq<char>, p: Platform, a: Seq<String>, b: Seq<String>)
    requires
        strs(a) == strs(b),
    ensures
        crate::model::exec_list_problem(id, p, a) == crate::model::exec_list_problem(id, p, b),
    decreases a.len(),
{
    assert(a.len() == strs(a).len() && b.len() == strs(b).len());
    if a.len() > 0 {
        assert(strs(a)[0] == a[0]@ && strs(b)[0] == b[0]@);
        assert(strs(a.drop_first()) =~= strs(a).drop_first());
        assert(strs(b.drop_first()) =~= strs(b).drop_first());
        lemma_exec_list_problem_view(id, p, a.drop_first(), b.drop_first());
    }
}

proof fn lemma_exec_problem_view(id: Seq<char>, a: Seq<(Platform, Vec<String>)>, b: Seq<(Platform, Vec<String>)>)
    requires
        exec_view(a) == exec_view(b),
    ensures
        crate::model::exec_problem(id, a) == crate::model::exec_problem(id, b),
    decreases a.len(),
{
    assert(a.len() == exec_view(a).len() && b.len() == exec_view(b).len());
    if a.len() > 0 {
        assert(exec_view(a)[0] == exec_view(b)[0]);
        lemma_exec_list_problem_view(id, a[0].0, a[0].1@, b[0].1@);
        assert(exec_view(a.drop_first()) =~= exec_view(a).drop_first());
        assert(exec_view(b.drop_first()) =~= exec_view(b).drop_first());
        lemma_exec_problem_view(id, a.drop_first(), b.drop_first());
    }
}

proof fn lemma_save_problem_view(id: Seq<char>, a: Seq<SaveCandidate>, b: Seq<SaveCandidate>)
    requires
        cviews(a) == cviews(b),
    ensures
        crate::model::save_problem(id, a) == crate::model::save_problem(id, b),
    decreases a.len(),
{
    assert(a.len() == cviews(a).len() && b.len() == cviews(b).len());
    if a.len() > 0 {
        assert(cviews(a)[0] == cviews(b)[0]);
        assert(cviews(a.drop_first()) =~= cviews(a).drop_first());
        assert(cviews(b.drop_first()) =~= cviews(b).drop_first());
        lemma_save_problem_view(id, a.drop_first(), b.drop_first());
    }
}

proof fn lemma_games_problem_view(a: Seq<Game>, b: Seq<Game>, i: int)
    requires
        game_views(a) == game_views(b),
    ensures
        crate::model::games_problem(a, i) == crate::model::games_problem(b, i),
    decreases a.len() - i,
{
    assert(a.len() == game_views(a).len() && b.len() == game_views(b).len());
    if 0 <= i < a.len() {
        assert(game_views(a)[i] == game_views(b)[i]);
        lemma_exec_problem_view(a[i].id@, a[i].executables@, b[i].executables@);
        lemma_save_problem_view(a[i].id@, a[i].save@, b[i].save@);
        assert(crate::model::id_taken(a.take(i), a[i].id@) == crate::model::id_taken(b.take(i), b[i].id@)) by {
            let x = a[i].id@;
            assert(b[i].id@ == x);
            if crate::model::id_taken(a.take(i), x) {
                let k = choose|k: int| 0 <= k < a.take(i).len() && #[trigger] a.take(i)[k].id@ == x;
                assert(game_views(a)[k] == game_views(b)[k]);
                assert(b.take(i)[k].id@ == x);
            }
            if crate::model::id_taken(b.take(i), x) {
                let k = choose|k: int| 0 <= k < b.take(i).len() && #[trigger] b.take(i)[k].id@ == x;
                assert(game_views(a)[k] == game_views(b)[k]);
                assert(a.take(i)[k].id@ == x);
            }
        }
        lemma_games_problem_view(a, b, i + 1);
    }
}

/// Two bundles a build may give for the same inputs have the same games.
proof fn lemma_built_bundles_agree(
    b1: Bundle,
    b2: Bundle,
    rows: Seq<GameRow>,
    manifest: Seq<(String, Entry)>,
    addenda: Seq<(String, AddendumEntry)>,
    lock: Lock,
)
    requires
        built_bundle(b1, rows, manifest, addenda, lock),
        built_bundle(b2, rows, manifest, addenda, lock),
    ensures
        game_views(b1.games@) == game_views(b2.games@),
        crate::model::bundle_problem(b1) == crate::model::bundle_problem(b2),
{
    let g1 = b1.games@;
    let g2 = b2.games@;
    lemma_games_cover(g1, rows, manifest, addenda);
    lemma_games_cover(g2, rows, manifest, addenda);
    let v1 = game_views(g1);
    let v2 = game_views(g2);
    assert forall|x: GameView| #[trigger] v1.contains(x) <==> v2.contains(x) by {
    }
    let lt = |a: GameView, b: GameView| text_order(a.0, b.0) < 0;
    assert forall|a: GameView, b: GameView| #[trigger] lt(a, b) implies !lt(b, a) by {
        crate::paths::lemma_text_order(a.0, b.0);
    }
    assert forall|a: GameView, b: GameView| v1.contains(a) && v1.contains(b) && a != b implies #[trigger] lt(a, b) || lt(b, a) by {
        let i = choose|i: int| 0 <= i < v1.len() && v1[i] == a;
        let j = choose|j: int| 0 <= j < v1.len() && v1[j] == b;
        crate::paths::lemma_text_order(a.0, b.0);
        if i < j {
            assert(text_order(g1[i].id@, g1[j].id@) < 0);
        } else if j < i {
            assert(text_order(g1[j].id@, g1[i].id@) < 0);
        }
    }
    assert(crate::paths::sorted_by(v1, lt)) by {
        assert forall|i: int, j: int| 0 <= i < j < v1.len() implies lt(#[trigger] v1[i], #[trigger] v1[j]) by {
            assert(text_order(g1[i].id@, g1[j].id@) < 0);
        }
    }
    assert(crate::paths::sorted_by(v2, lt)) by {
        assert forall|i: int, j: int| 0 <= i < j < v2.len() implies lt(#[trigger] v2[i], #[trigger] v2[j]) by {
            assert(text_order(g2[i].id@, g2[j].id@) < 0);
        }
    }
    crate::paths::lemma_sorted_unique(v1, v2, lt);
    lemma_games_problem_view(g1, g2, 0);
}

} // verus!
