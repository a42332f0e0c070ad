//! The wrap cache: the screen lines last computed for each history index,
//! held in an `FnvHashMap`.
use vstd::prelude::*;
use fnv::FnvHashMap;
use crate::wrap::{FmtOpts, ScreenLine};

verus! {

/// The text and the options of each line of a cache entry.
pub open spec fn line_views(v: Seq<ScreenLine>) -> Seq<(Seq<char>, FmtOpts)> {
    v.map_values(|l: ScreenLine| (l.text@, l.for_opts))
}

/// A map from history index to the screen lines last computed for it.
#[verifier::external_body]
pub struct WrapCache {
    map: FnvHashMap<usize, Vec<ScreenLine>>,
}

/// What a cache holds: for each index, the text and options of each line.
pub uninterp spec fn cached(c: WrapCache) -> Map<usize, Seq<(Seq<char>, FmtOpts)>>;

impl WrapCache {
    /// Relies on `HashMap::default` (with fnv's hasher): a new map is empty.
    #[verifier::external_body]
    pub(crate) fn new() -> (r: WrapCache)
        ensures
            cached(r).is_empty(),
    {
        WrapCache { map: FnvHashMap::default() }
    }

    /// Relies on `HashMap::get`: the entry stored under `k`, if there is one.
    #[verifier::external_body]
    pub(crate) fn get(&self, k: usize) -> (r: Option<&Vec<ScreenLine>>)
        ensures
            r.is_some() == cached(*self).contains_key(k),
            r.is_some() ==> line_views(r.unwrap()@) == cached(*self)[k],
    {
        self.map.get(&k)
    }

    /// Relies on `HashMap::insert`: the entry under `k` is replaced or added,
    /// and the others stay.
    #[verifier::external_body]
    pub(crate) fn insert(&mut self, k: usize, v: Vec<ScreenLine>)
        ensures
            cached(*final(self)) == cached(*old(self)).insert(k, line_views(v@)),
    {
        self.map.insert(k, v);
    }
}

} // verus!
