//! Loading a graph: what a caller is willing to spend on a load, and the
//! per-type node counts a loaded graph reports.
use kglite::api::io::LoadOptions;
use kglite::api::DirGraph;

use vstd::prelude::*;

use crate::graph_reads::{pair_views, type_index_counts, type_index_held};
use crate::ranking::{rank_order, ranked, reorder, RankKey};

verus! {

/// kglite's options for one load.
#[verifier::external_type_specification]
#[verifier::external_body]
pub struct ExLoadOptions(LoadOptions);

/// What a caller is willing to spend on a load.
#[derive(Debug, Clone, Copy, Default, PartialEq, Eq)]
pub struct LoadLimits {
    /// Refuse the load when kglite estimates its peak above this many
    /// megabytes. `None` leaves the process-wide `KGLITE_MAX_LOAD_MB`
    /// default (or no ceiling at all) in charge.
    pub max_load_mb: Option<u64>,
}

/// Megabytes as bytes, saturating at the largest `u64`.
pub open spec fn spec_max_load_bytes(max_load_mb: Option<u64>) -> Option<u64> {
    match max_load_mb {
        Some(mb) => Some(
            if mb * 1048576 > u64::MAX {
                u64::MAX
            } else {
                (mb * 1048576) as u64
            },
        ),
        None => None,
    }
}

/// The byte ceiling a `LoadOptions` carries (its `max_load_bytes` field).
pub uninterp spec fn load_ceiling(options: LoadOptions) -> Option<u64>;

/// `LoadOptions::default()`: every lever at the default the engine reads
/// from its environment variables, the byte ceiling among them
/// (`KGLITE_MAX_LOAD_MB`). It depends on the environment, so nothing is
/// stated of it.
#[verifier::external_body]
fn default_load_options() -> LoadOptions {
    LoadOptions::default()
}

/// `LoadOptions::with_max_load_bytes(Some(bytes))`: the same options with
/// an explicit byte ceiling, which outranks the environment's.
#[verifier::external_body]
fn with_load_ceiling(options: LoadOptions, bytes: u64) -> (r: LoadOptions)
    ensures
        load_ceiling(r) == Some(bytes),
{
    options.with_max_load_bytes(Some(bytes))
}

impl LoadLimits {
    /// The ceiling in bytes, the unit kglite counts in.
    pub fn max_load_bytes(self) -> (r: Option<u64>)
        ensures
            r == spec_max_load_bytes(self.max_load_mb),
    {
        match self.max_load_mb {
            Some(mb) => match mb.checked_mul(1048576) {
                Some(bytes) => Some(bytes),
                None => Some(u64::MAX),
            },
            None => None,
        }
    }

    /// The load options these limits ask for: the engine's defaults, with
    /// an explicit ceiling where one was given; with none, the
    /// environment's default ceiling (or none at all) stays in charge.
    pub fn to_options(self) -> (r: LoadOptions)
        ensures
            self.max_load_mb is Some ==> load_ceiling(r) == spec_max_load_bytes(self.max_load_mb),
    {
        match self.max_load_bytes() {
            Some(bytes) => with_load_ceiling(default_load_options(), bytes),
            None => default_load_options(),
        }
    }
}

/// The order of type names: by name, each `first` and `second` zero.
pub open spec fn name_keys(counts: Seq<(String, usize)>) -> Seq<RankKey> {
    counts.map_values(|c: (String, usize)| RankKey { count: 0, name: c.0, first: 0, second: 0 })
}

/// The same counts ordered by type name; equal names keep their order.
pub fn sort_by_type_name(counts: &Vec<(String, usize)>) -> (r: Vec<(String, usize)>)
    ensures
        exists|p: Seq<int>| ranked(name_keys(counts@), p) && r@ == reorder(counts@, p),
{
    let mut keys: Vec<RankKey> = Vec::new();
    let mut i: usize = 0;
    while i < counts.len()
        invariant
            i <= counts@.len(),
            keys@ == name_keys(counts@).take(i as int),
        decreases counts@.len() - i,
    {
        keys.push(RankKey { count: 0, name: counts[i].0.clone(), first: 0, second: 0 });
        assert(keys@ =~= name_keys(counts@).take(i + 1));
        i = i + 1;
    }
    assert(keys@ =~= name_keys(counts@));
    let order = rank_order(&keys);
    let ghost p = order@.map_values(|j: usize| j as int);
    let mut out: Vec<(String, usize)> = Vec::new();
    let mut k: usize = 0;
    while k < order.len()
        invariant
            k <= order@.len(),
            ranked(name_keys(counts@), p),
            p == order@.map_values(|j: usize| j as int),
            out@ == reorder(counts@, p).take(k as int),
        decreases order@.len() - k,
    {
        assert(0 <= p[k as int] < counts@.len());
        let c = &counts[order[k]];
        out.push((c.0.clone(), c.1));
        assert(out@ =~= reorder(counts@, p).take(k + 1));
        k = k + 1;
    }
    assert(reorder(counts@, p).take(order@.len() as int) =~= reorder(counts@, p));
    out
}

/// Node counts per type, read from the persisted type index, ordered by
/// type name.
pub fn node_counts_by_type(graph: &DirGraph) -> (r: Vec<(String, usize)>)
    ensures
        exists|found: Seq<(String, usize)>, p: Seq<int>|
            pair_views(found).to_multiset() == type_index_held(*graph) && ranked(name_keys(found), p)
                && r@ == reorder(found, p),
{
    let counts = type_index_counts(graph);
    sort_by_type_name(&counts)
}

} // verus!
