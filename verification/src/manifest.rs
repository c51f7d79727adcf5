//! The subset of a Ludusavi manifest entry the builder uses. Maps of the
//! manifest are held as lists sorted by key, each key once.

use vstd::prelude::*;

verus! {

/// `std::slice::from_ref`: a one-element slice borrowing the value.
pub assume_specification<T>[ core::slice::from_ref::<T> ](s: &T) -> (r: &[T])
    ensures
        r@ == seq![*s],
;

#[derive(Debug, Clone, Default)]
pub struct Entry {
    pub steam: Option<SteamField>,
    pub gog: Option<GogField>,
    pub id: Option<ExtraIds>,
    /// Launch paths with their items, sorted by path.
    pub launch: Option<Vec<(String, Vec<LaunchItem>)>>,
    /// File paths with their entries, sorted by path.
    pub files: Option<Vec<(String, FileEntry)>>,
    /// Install folder names, for the deferred loose-install scanner work;
    /// the bundle has no field for it yet, so the builder leaves it alone.
    pub install_dir: Option<Vec<String>>,
}

#[derive(Debug, Clone, Copy, Default)]
pub struct SteamField {
    pub id: u64,
}

#[derive(Debug, Clone, Copy, Default)]
pub struct GogField {
    pub id: u64,
}

#[derive(Debug, Clone, Default)]
pub struct ExtraIds {
    pub steam_extra: Vec<u64>,
    pub gog_extra: Vec<u64>,
}

#[derive(Debug, Clone, Default)]
pub struct LaunchItem {
    pub when: Option<Whens>,
}

#[derive(Debug, Clone, Default)]
pub struct FileEntry {
    pub tags: Vec<String>,
    pub when: Option<Whens>,
}

/// One condition or a list of them.
#[derive(Debug, Clone)]
pub enum Whens {
    One(Cond),
    Many(Vec<Cond>),
}

/// The conditions, empty when none are given.
pub open spec fn conditions(whens: Option<Whens>) -> Seq<Cond> {
    match whens {
        None => Seq::empty(),
        Some(Whens::One(cond)) => seq![cond],
        Some(Whens::Many(conds)) => conds@,
    }
}

impl Whens {
    /// The conditions as a slice, empty when none are given.
    pub fn slice_or_default(whens: &Option<Whens>) -> (r: &[Cond])
        ensures
            r@ == conditions(*whens),
    {
        match whens {
            None => &[],
            Some(Whens::One(cond)) => core::slice::from_ref(cond),
            Some(Whens::Many(conds)) => conds.as_slice(),
        }
    }
}

#[derive(Debug, Clone, Default)]
pub struct Cond {
    pub os: Option<String>,
    pub store: Option<String>,
    /// Parsed but intentionally ignored: `bit` is dropped.
    pub bit: Option<u64>,
}

} // verus!
