//! The downloaded catalog's folder: a newer bundle is checked, stored and
//! swapped in, and the previous one is kept as the last good copy.
//!
//! Files in `<data dir>/catalog/`:
//!
//! - `catalog.json`, the newest downloaded bundle;
//! - `catalog.previous.json`, the one before it, the last good copy;
//! - `catalog.meta.json`, the URL, ETag and SHA-256 of both.
//!
//! A bundle file is used only when its SHA-256 is one the meta file
//! recorded, so a file cut short by a crash or edited by hand is never read.
//! Storing is a fixed series of steps, each of which leaves a usable bundle
//! behind when there was one before.

use vstd::prelude::*;
use crate::builder::{hex_spec, sha256_hex, sha256_of};
use crate::host::{Fetched, Outcome};
use crate::placeholders::opt_view;
use crate::text::{chars_eq, chars_of, string_of};

verus! {

/// Where released catalogs live: the bundle on the main branch.
pub const CATALOG_URL: &'static str = "https://raw.githubusercontent.com/neochief/savescummer/main/catalog/catalog.json";

/// Far above today's bundle, far below anything worth reading.
pub const MAX_BUNDLE: u64 = 16 * 1024 * 1024;

/// The newest downloaded bundle.
pub const CURRENT: &'static str = "catalog.json";

/// The last good copy.
pub const PREVIOUS: &'static str = "catalog.previous.json";

/// What was downloaded from where, and the hashes of both bundles.
pub const META: &'static str = "catalog.meta.json";

/// `catalog.meta.json`.
#[derive(Debug, Clone, Default)]
pub struct Meta {
    pub url: String,
    pub etag: Option<String>,
    pub sha256: String,
    pub previous_sha256: Option<String>,
    pub fetched_at: String,
}

/// The meta file as plain values: URL, ETag, hash, previous hash, time.
pub type MetaView = (Seq<char>, Option<Seq<char>>, Seq<char>, Option<Seq<char>>, Seq<char>);

pub open spec fn meta_view(m: Meta) -> MetaView {
    (m.url@, opt_view(m.etag), m.sha256@, opt_view(m.previous_sha256), m.fetched_at@)
}

/// The folder as plain values: the current bundle's bytes, the last good
/// copy's bytes, and the meta file, each when present.
pub type Disk = (Option<Seq<u8>>, Option<Seq<u8>>, Option<MetaView>);

/// The lowercase hexadecimal SHA-256 of some bytes.
pub open spec fn hash_spec(bytes: Seq<u8>) -> Seq<char> {
    hex_spec(sha256_of(bytes))
}

/// The meta file names the hash, as the current or the previous bundle's.
pub open spec fn recorded_spec(hash: Seq<char>, m: MetaView) -> bool {
    hash == m.2 || m.3 == Some(hash)
}

/// The lowercase hexadecimal SHA-256 of some bytes.
pub fn sha256(bytes: &[u8]) -> (r: String)
    ensures
        r@ == hash_spec(bytes@),
{
    sha256_hex(bytes)
}

/// Whether a bundle file's bytes are ones the meta file recorded.
pub fn recorded(bytes: &[u8], meta: &Meta) -> (r: bool)
    ensures
        r == recorded_spec(hash_spec(bytes@), meta_view(*meta)),
{
    let hash = chars_of(sha256(bytes).as_str());
    if chars_eq(&hash, &chars_of(meta.sha256.as_str())) {
        return true;
    }
    match &meta.previous_sha256 {
        Some(p) => chars_eq(&hash, &chars_of(p.as_str())),
        None => false,
    }
}

/// A file is used when present, recorded, and a bundle.
pub open spec fn usable(file: Option<Seq<u8>>, m: MetaView, parses: spec_fn(Seq<u8>) -> bool) -> bool {
    file matches Some(b) && recorded_spec(hash_spec(b), m) && parses(b)
}

/// Which file a load reads.
#[derive(Debug, Clone, Copy, PartialEq, Eq, Structural)]
pub enum Slot {
    Current,
    Previous,
}

/// The newest usable bundle: the current one, else the last good one; none
/// without a meta file. `parses` says which bytes are a valid bundle.
pub open spec fn load_spec(d: Disk, parses: spec_fn(Seq<u8>) -> bool) -> Option<Slot> {
    match d.2 {
        None => None,
        Some(m) => if usable(d.0, m, parses) {
            Some(Slot::Current)
        } else if usable(d.1, m, parses) {
            Some(Slot::Previous)
        } else {
            None
        },
    }
}

/// One step of storing a bundle, in the order they are taken.
#[derive(Debug, Clone)]
pub enum StoreStep {
    /// Write the meta file (beside it, then renamed into place).
    WriteMeta(Meta),
    /// Rename the current bundle to the last good copy.
    DemoteCurrent,
    /// Write the new bundle as the current one (beside it, then renamed).
    WriteCurrent,
}

/// A step as plain values.
pub enum StepView {
    WriteMeta(MetaView),
    DemoteCurrent,
    WriteCurrent,
}

pub open spec fn step_view(s: StoreStep) -> StepView {
    match s {
        StoreStep::WriteMeta(m) => StepView::WriteMeta(meta_view(m)),
        StoreStep::DemoteCurrent => StepView::DemoteCurrent,
        StoreStep::WriteCurrent => StepView::WriteCurrent,
    }
}

/// The current file is present, recorded, and a bundle.
pub open spec fn current_intact(d: Disk, parses: spec_fn(Seq<u8>) -> bool) -> bool {
    d.2 matches Some(m) && usable(d.0, m, parses)
}

/// The intact current bundle becomes the last good copy, unless it is the
/// one being stored again.
pub open spec fn demotes(d: Disk, parses: spec_fn(Seq<u8>) -> bool, bytes: Seq<u8>) -> bool {
    d.2 matches Some(m) && m.2 != hash_spec(bytes) && current_intact(d, parses)
}

/// The meta file a store writes first: the new hash, the hash of the last
/// good copy, and no ETag yet.
pub open spec fn first_meta(d: Disk, parses: spec_fn(Seq<u8>) -> bool, url: Seq<char>, bytes: Seq<u8>, now: Seq<char>) -> MetaView {
    let previous = match d.2 {
        Some(m) => if demotes(d, parses, bytes) {
            Some(m.2)
        } else {
            m.3
        },
        None => None,
    };
    (url, None, hash_spec(bytes), previous, now)
}

/// The steps that store `bytes`: the meta file names both hashes before any
/// file moves; then the current bundle is demoted when it should be, the new
/// one written, and the ETag recorded once the file it describes is in
/// place.
pub open spec fn store_spec(
    d: Disk,
    parses: spec_fn(Seq<u8>) -> bool,
    url: Seq<char>,
    bytes: Seq<u8>,
    etag: Option<Seq<char>>,
    now: Seq<char>,
) -> Seq<StepView> {
    let m = first_meta(d, parses, url, bytes, now);
    let last = StepView::WriteMeta((m.0, etag, m.2, m.3, m.4));
    if demotes(d, parses, bytes) {
        seq![StepView::WriteMeta(m), StepView::DemoteCurrent, StepView::WriteCurrent, last]
    } else {
        seq![StepView::WriteMeta(m), StepView::WriteCurrent, last]
    }
}

/// The folder after one step that succeeded.
pub open spec fn apply(d: Disk, step: StepView, bytes: Seq<u8>) -> Disk {
    match step {
        StepView::WriteMeta(m) => (d.0, d.1, Some(m)),
        StepView::DemoteCurrent => (None, d.0, d.2),
        StepView::WriteCurrent => (Some(bytes), d.1, d.2),
    }
}

/// The folder after the first `k` steps.
pub open spec fn run(d: Disk, steps: Seq<StepView>, k: int, bytes: Seq<u8>) -> Disk
    decreases k,
{
    if k <= 0 {
        d
    } else {
        apply(run(d, steps, k - 1, bytes), steps[k - 1], bytes)
    }
}

pub open spec fn bytes_opt(o: Option<&[u8]>) -> Option<Seq<u8>> {
    match o {
        Some(c) => Some(c@),
        None => None,
    }
}

pub open spec fn meta_opt(o: Option<&Meta>) -> Option<MetaView> {
    match o {
        Some(m) => Some(meta_view(*m)),
        None => None,
    }
}

pub open spec fn steps_view(steps: Seq<StoreStep>) -> Seq<StepView> {
    steps.map_values(|s: StoreStep| step_view(s))
}

/// Decides how to store `bytes`, given the folder's meta file, its current
/// bundle file and whether that file is a bundle.
pub fn store_steps(
    meta: Option<&Meta>,
    current: Option<&[u8]>,
    current_parses: bool,
    url: &str,
    bytes: &[u8],
    etag: Option<String>,
    now: String,
) -> (r: Vec<StoreStep>)
    ensures
        forall|parses: spec_fn(Seq<u8>) -> bool, previous: Option<Seq<u8>>|
            (current matches Some(c) ==> parses(c@) == current_parses) ==> #[trigger] store_spec(
                (bytes_opt(current), previous, meta_opt(meta)),
                parses,
                url@,
                bytes@,
                opt_view(etag),
                now@,
            ) == steps_view(r@),
{
    let hash = sha256(bytes);
    let intact = match (meta, current) {
        (Some(m), Some(c)) => recorded(c, m) && current_parses,
        _ => false,
    };
    let demote = match meta {
        Some(m) => !chars_eq(&chars_of(m.sha256.as_str()), &chars_of(hash.as_str())) && intact,
        None => false,
    };
    let previous_sha256 = match meta {
        Some(m) => if demote {
            Some(string_of(&chars_of(m.sha256.as_str())))
        } else {
            match &m.previous_sha256 {
                Some(p) => Some(string_of(&chars_of(p.as_str()))),
                None => None,
            }
        },
        None => None,
    };
    let first = Meta {
        url: string_of(&chars_of(url)),
        etag: None,
        sha256: string_of(&chars_of(hash.as_str())),
        previous_sha256: match &previous_sha256 {
            Some(p) => Some(string_of(&chars_of(p.as_str()))),
            None => None,
        },
        fetched_at: string_of(&chars_of(now.as_str())),
    };
    let last = Meta { url: string_of(&chars_of(url)), etag, sha256: hash, previous_sha256, fetched_at: now };
    let mut steps: Vec<StoreStep> = Vec::new();
    steps.push(StoreStep::WriteMeta(first));
    if demote {
        steps.push(StoreStep::DemoteCurrent);
    }
    steps.push(StoreStep::WriteCurrent);
    steps.push(StoreStep::WriteMeta(last));
    steps
}

// ---- updating ----------------------------------------------------------------

/// The ETag a download asks with: the recorded one, only when our copy of
/// that URL is intact; otherwise the bundle is fetched whole.
pub open spec fn etag_spec(d: Disk, parses: spec_fn(Seq<u8>) -> bool, url: Seq<char>) -> Option<Seq<char>> {
    match d.2 {
        Some(m) => if m.0 == url && usable(d.0, m, parses) {
            m.1
        } else {
            None
        },
        None => None,
    }
}

pub fn etag_to_send(meta: Option<&Meta>, url: &str, current: Option<&[u8]>, current_parses: bool) -> (r: Option<String>)
    ensures
        forall|parses: spec_fn(Seq<u8>) -> bool, previous: Option<Seq<u8>>|
            (current matches Some(c) ==> parses(c@) == current_parses) ==> #[trigger] etag_spec(
                (bytes_opt(current), previous, meta_opt(meta)),
                parses,
                url@,
            ) == opt_view(r),
{
    match (meta, current) {
        (Some(m), Some(c)) => {
            if chars_eq(&chars_of(m.url.as_str()), &chars_of(url)) && recorded(c, m) && current_parses {
                match &m.etag {
                    Some(e) => Some(string_of(&chars_of(e.as_str()))),
                    None => None,
                }
            } else {
                None
            }
        },
        _ => None,
    }
}

/// What a download means for the update: its bytes and ETag to go on with,
/// or how the update ends.
pub fn fetch_result(url: &str, fetched: Result<Fetched, String>) -> (r: Result<(Vec<u8>, Option<String>), Outcome>)
    ensures
        match fetched {
            Ok(Fetched::NotModified) => r == Err::<(Vec<u8>, Option<String>), Outcome>(Outcome::Current),
            Ok(Fetched::Missing) => r matches Err(Outcome::Failed(m)) && m@ == url@ + ": not found"@,
            Ok(Fetched::Body { bytes, etag }) => r matches Ok((b, e)) && b@ == bytes@ && e == etag,
            Err(e) => r matches Err(Outcome::Failed(m)) && m == e,
        },
{
    match fetched {
        Ok(Fetched::NotModified) => Err(Outcome::Current),
        Ok(Fetched::Missing) => {
            let mut m = chars_of(url);
            crate::text::push_str(&mut m, ": not found");
            Err(Outcome::Failed(string_of(&m)))
        },
        Ok(Fetched::Body { bytes, etag }) => Ok((bytes, etag)),
        Err(e) => Err(Outcome::Failed(e)),
    }
}

// ---- laws ------------------------------------------------------------------

/// The folder after every step of storing `bytes`.
pub open spec fn stored(
    d: Disk,
    parses: spec_fn(Seq<u8>) -> bool,
    url: Seq<char>,
    bytes: Seq<u8>,
    etag: Option<Seq<char>>,
    now: Seq<char>,
) -> Disk {
    let steps = store_spec(d, parses, url, bytes, etag, now);
    run(d, steps, steps.len() as int, bytes)
}

/// The folder after the steps of a store, spelled out.
proof fn lemma_run_store(
    d: Disk,
    parses: spec_fn(Seq<u8>) -> bool,
    url: Seq<char>,
    bytes: Seq<u8>,
    etag: Option<Seq<char>>,
    now: Seq<char>,
)
    ensures
        ({
            let steps = store_spec(d, parses, url, bytes, etag, now);
            let m = first_meta(d, parses, url, bytes, now);
            let last = (m.0, etag, m.2, m.3, m.4);
            &&& run(d, steps, 0, bytes) == d
            &&& run(d, steps, 1, bytes) == (d.0, d.1, Some(m))
            &&& demotes(d, parses, bytes) ==> {
                &&& steps.len() == 4
                &&& run(d, steps, 2, bytes) == (None::<Seq<u8>>, d.0, Some(m))
                &&& run(d, steps, 3, bytes) == (Some(bytes), d.0, Some(m))
                &&& run(d, steps, 4, bytes) == (Some(bytes), d.0, Some(last))
            }
            &&& !demotes(d, parses, bytes) ==> {
                &&& steps.len() == 3
                &&& run(d, steps, 2, bytes) == (Some(bytes), d.1, Some(m))
                &&& run(d, steps, 3, bytes) == (Some(bytes), d.1, Some(last))
            }
        }),
{
    let steps = store_spec(d, parses, url, bytes, etag, now);
    reveal_with_fuel(run, 5);
    assert(run(d, steps, 1, bytes) == apply(run(d, steps, 0, bytes), steps[0], bytes));
}

/// What a store writes is what a load reads back.
pub proof fn law_a_stored_bundle_is_read_back(
    d: Disk,
    parses: spec_fn(Seq<u8>) -> bool,
    url: Seq<char>,
    bytes: Seq<u8>,
    etag: Option<Seq<char>>,
    now: Seq<char>,
)
    requires
        parses(bytes),
    ensures
        stored(d, parses, url, bytes, etag, now).0 == Some(bytes),
        load_spec(stored(d, parses, url, bytes, etag, now), parses) == Some(Slot::Current),
{
    lemma_run_store(d, parses, url, bytes, etag, now);
}

/// A store cut short after any of its steps leaves a usable bundle, when
/// the folder held an intact current bundle named as such before.
pub proof fn law_every_step_leaves_a_usable_bundle(
    d: Disk,
    parses: spec_fn(Seq<u8>) -> bool,
    url: Seq<char>,
    bytes: Seq<u8>,
    etag: Option<Seq<char>>,
    now: Seq<char>,
    k: int,
)
    requires
        d.2 matches Some(m) && d.0 matches Some(c) && hash_spec(c) == m.2 && parses(c),
        parses(bytes),
        0 <= k <= store_spec(d, parses, url, bytes, etag, now).len(),
    ensures
        load_spec(run(d, store_spec(d, parses, url, bytes, etag, now), k, bytes), parses) is Some,
{
    lemma_run_store(d, parses, url, bytes, etag, now);
}

/// Once a newer bundle is stored over an intact one, the older one is the
/// last good copy: with the current file damaged or gone, it is what a load
/// reads.
pub proof fn law_the_last_good_copy_survives(
    d: Disk,
    parses: spec_fn(Seq<u8>) -> bool,
    url: Seq<char>,
    bytes: Seq<u8>,
    etag: Option<Seq<char>>,
    now: Seq<char>,
    damaged: Option<Seq<u8>>,
)
    requires
        d.2 matches Some(m) && d.0 matches Some(c) && hash_spec(c) == m.2 && parses(c) && hash_spec(bytes) != m.2,
        parses(bytes),
        damaged matches Some(x) ==> hash_spec(x) != hash_spec(bytes) && hash_spec(x) != d.2->Some_0.2,
    ensures
        stored(d, parses, url, bytes, etag, now).1 == d.0,
        load_spec(
            (damaged, stored(d, parses, url, bytes, etag, now).1, stored(d, parses, url, bytes, etag, now).2),
            parses,
        ) == Some(Slot::Previous),
{
    lemma_run_store(d, parses, url, bytes, etag, now);
}

/// Storing the bundle that is already current keeps the last good copy and
/// its hash.
pub proof fn law_storing_the_same_bundle_again_keeps_the_last_good_copy(
    d: Disk,
    parses: spec_fn(Seq<u8>) -> bool,
    url: Seq<char>,
    bytes: Seq<u8>,
    etag: Option<Seq<char>>,
    now: Seq<char>,
)
    requires
        d.2 matches Some(m) && m.2 == hash_spec(bytes),
    ensures
        stored(d, parses, url, bytes, etag, now).1 == d.1,
        stored(d, parses, url, bytes, etag, now).2 matches Some(m) && m.3 == d.2->Some_0.3,
{
    lemma_run_store(d, parses, url, bytes, etag, now);
}

} // verus!
