//! The response bound and the metadata every bounded answer carries.
use vstd::prelude::*;

verus! {

/// A ceiling on one response.
#[derive(Debug, Clone, Copy, PartialEq, Eq, Structural)]
pub struct Bound {
    /// Maximum items.
    pub max_items: usize,
    /// Maximum serialized bytes for the item list.
    pub max_bytes: usize,
}

/// What a bounded response tells the client about what it did not send.
#[derive(Debug, Clone, Copy, PartialEq, Eq, Structural)]
pub struct BoundInfo {
    /// Items in this response.
    pub returned: u32,
    /// Items that existed before the bound was applied.
    pub total: u32,
    /// True when `returned < total`.
    pub truncated: bool,
}

impl BoundInfo {
    /// Counts are reported as `u32`; a count past `u32::MAX` wraps as the
    /// `as` conversion does, while `truncated` compares the full counts.
    pub fn new(returned: usize, total: usize) -> (info: Self)
        ensures
            info.returned == returned as u32,
            info.total == total as u32,
            info.truncated == (returned < total),
    {
        BoundInfo { returned: returned as u32, total: total as u32, truncated: returned < total }
    }
}

/// Sum of the first `k` sizes.
pub open spec fn prefix_sum(sizes: Seq<usize>, k: int) -> int
    decreases k,
{
    if k <= 0 {
        0
    } else {
        prefix_sum(sizes, k - 1) + sizes[k - 1]
    }
}

proof fn lemma_prefix_sum_monotone(sizes: Seq<usize>, j: int, k: int)
    requires
        0 <= j <= k,
    ensures
        prefix_sum(sizes, j) <= prefix_sum(sizes, k),
    decreases k - j,
{
    if j < k {
        lemma_prefix_sum_monotone(sizes, j, k - 1);
    }
}

/// How many items of an already-prioritised list a bound keeps: at most
/// `max_items`, and the longest prefix whose sizes fit in `max_bytes`, except
/// that one oversized item still crosses the wire.
pub open spec fn kept_count(sizes: Seq<usize>, bound: Bound, k: int) -> bool {
    let m = if sizes.len() < bound.max_items {
        sizes.len() as int
    } else {
        bound.max_items as int
    };
    &&& 0 <= k <= m
    &&& m >= 1 ==> k >= 1
    &&& prefix_sum(sizes, k) <= bound.max_bytes || k == 1
    &&& k < m ==> prefix_sum(sizes, k + 1) > bound.max_bytes
}

/// Apply a bound to an already-prioritised list, keeping a prefix.
///
/// `sizes[i]` is the serialized size of `items[i]`; the caller sorts first,
/// and this only decides how many fit.
pub fn apply<T>(items: Vec<T>, bound: Bound, sizes: &[usize]) -> (r: (Vec<T>, BoundInfo))
    requires
        sizes@.len() == items@.len(),
    ensures
        kept_count(sizes@, bound, r.0@.len() as int),
        r.0@ == items@.take(r.0@.len() as int),
        r.1 == BoundInfo::spec_new(r.0@.len() as usize, items@.len() as usize),
{
    let total = items.len();
    let m = if total < bound.max_items {
        total
    } else {
        bound.max_items
    };
    let mut k: usize = 0;
    let mut bytes: usize = 0;
    if m >= 1 {
        k = 1;
        bytes = sizes[0];
        assert(prefix_sum(sizes@, 0) == 0);
    }
    while k < m && bytes <= bound.max_bytes && sizes[k] <= bound.max_bytes - bytes
        invariant
            m <= sizes@.len(),
            m == sizes@.len() || m == bound.max_items,
            m <= bound.max_items,
            k <= m,
            m >= 1 ==> k >= 1,
            bytes == prefix_sum(sizes@, k as int),
            bytes <= bound.max_bytes || k == 1,
        decreases m - k,
    {
        bytes = bytes + sizes[k];
        k = k + 1;
    }
    proof {
        if k < m && bytes > bound.max_bytes {
            lemma_prefix_sum_monotone(sizes@, k as int, k + 1);
        }
    }
    let mut kept = items;
    kept.truncate(k);
    let info = BoundInfo::new(kept.len(), total);
    (kept, info)
}

impl BoundInfo {
    pub open spec fn spec_new(returned: usize, total: usize) -> BoundInfo {
        BoundInfo { returned: returned as u32, total: total as u32, truncated: returned < total }
    }
}

} // verus!
