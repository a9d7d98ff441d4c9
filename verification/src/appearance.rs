//! Colouring the loaded nodes by a field: each distinct value is a
//! category, the categories are ordered by their JSON key, and the first
//! eight take the eight palette colours in turn.
use vstd::prelude::*;
use vstd::string::StringSliceAdditionalSpecFns;
use vstd::utf8::encode_utf8;

use crate::error::{is_refusal, refusal, CoreError};
use crate::export::str_eq;
use crate::loader::{name_keys, sort_by_type_name};
use crate::queries::{sha256, sha256_of};
use crate::ranking::{rank_before, ranked, reorder, same_rank};
use crate::text::{lemma_lex_order, lex_lt};

verus! {

/// Colours in the palette.
pub const PALETTE_SIZE: usize = 8;

/// Bytes the categories of one mapping may take.
pub const MAX_CATEGORY_BYTES: usize = 1048576;

/// One category a legend shows: the JSON key of its value and how many
/// nodes carry it; its colour is the palette colour of its position.
#[derive(Debug, Clone)]
pub struct ColorCategory {
    pub key: String,
    pub count: u32,
}

/// The colouring of the nodes, as palette positions (the palette's colours
/// themselves are floating point and live with the renderer).
#[derive(Debug, Clone)]
pub struct ColorMapping {
    /// Per node, in node order: the palette position of its category, or
    /// `None` for the unset colour (a node with no value).
    pub nodes: Vec<Option<u8>>,
    /// The first `PALETTE_SIZE` categories, in key order.
    pub categories: Vec<ColorCategory>,
    /// How many categories there are beyond the palette.
    pub other_categories: u32,
}

/// The nodes' keys as plain values.
pub open spec fn key_views(keys: Seq<Option<String>>) -> Seq<Option<Seq<char>>> {
    keys.map_values(|k: Option<String>|
        match k {
            Some(s) => Some(s@),
            None => None,
        }
    )
}

/// The distinct keys, in the order first seen.
pub open spec fn first_seen(ks: Seq<Option<Seq<char>>>) -> Seq<Seq<char>>
    decreases ks.len(),
{
    if ks.len() == 0 {
        Seq::empty()
    } else {
        let prev = first_seen(ks.drop_last());
        match ks.last() {
            Some(k) => if prev.contains(k) {
                prev
            } else {
                prev.push(k)
            },
            None => prev,
        }
    }
}

/// Nodes whose key is `k`.
pub open spec fn key_count(ks: Seq<Option<Seq<char>>>, k: Seq<char>) -> nat
    decreases ks.len(),
{
    if ks.len() == 0 {
        0
    } else {
        key_count(ks.drop_last(), k) + if ks.last() == Some(k) {
            1nat
        } else {
            0nat
        }
    }
}

/// What one category costs against `MAX_CATEGORY_BYTES`.
pub open spec fn key_cost(k: Seq<char>) -> nat {
    encode_utf8(k).len() * 2 + 128
}

/// What a list of categories costs.
pub open spec fn cost(ds: Seq<Seq<char>>) -> nat
    decreases ds.len(),
{
    if ds.len() == 0 {
        0
    } else {
        cost(ds.drop_last()) + key_cost(ds.last())
    }
}

/// The categories' keys are the distinct keys of `ks`, each once, in
/// strictly increasing string order.
pub open spec fn sorted_keys(ks: Seq<Option<Seq<char>>>, sorted: Seq<Seq<char>>) -> bool {
    &&& sorted.len() == first_seen(ks).len()
    &&& forall|k: Seq<char>| #[trigger] sorted.contains(k) <==> first_seen(ks).contains(k)
    &&& forall|a: int, b: int| 0 <= a < b < sorted.len() ==> lex_lt(#[trigger] sorted[a], #[trigger] sorted[b])
}

/// The last position among `sorted`'s first `m` whose key has the same
/// digest as `k` (`-1` for none).
pub open spec fn last_digest_match(sorted: Seq<Seq<char>>, k: Seq<char>, m: int) -> int
    decreases m,
{
    if m <= 0 {
        -1
    } else if sha256_of(encode_utf8(sorted[m - 1])) == sha256_of(encode_utf8(k)) {
        m - 1
    } else {
        last_digest_match(sorted, k, m - 1)
    }
}

/// The refusal when the categories pass their byte budget.
pub open spec fn category_budget_message() -> Seq<char> {
    "appearance categories exceed 1 MiB"@
}

/// Colours the nodes by their keys (the JSON text of each node's value,
/// `None` for a node with no value). Refused exactly when the distinct keys
/// cost more than `MAX_CATEGORY_BYTES`. Otherwise the categories are the
/// distinct keys in string order, each with its node count; the first eight
/// are listed and the rest counted; each node with a key takes the palette
/// position (the position modulo eight) of the category its key's digest
/// finds, and a node without one stays unset.
pub fn color(keys: &Vec<Option<String>>) -> (r: Result<ColorMapping, CoreError>)
    requires
        keys@.len() <= u32::MAX,
    ensures
        ({
            let ks = key_views(keys@);
            match r {
                Err(e) => cost(first_seen(ks)) > MAX_CATEGORY_BYTES && is_refusal(
                    e,
                    category_budget_message(),
                ),
                Ok(m) => cost(first_seen(ks)) <= MAX_CATEGORY_BYTES && exists|sorted: Seq<Seq<char>>|
                    #[trigger] sorted_keys(ks, sorted) && {
                        &&& m.other_categories == if sorted.len() > PALETTE_SIZE {
                            sorted.len() - PALETTE_SIZE
                        } else {
                            0
                        }
                        &&& m.categories@.len() == if sorted.len() > PALETTE_SIZE {
                            PALETTE_SIZE as nat
                        } else {
                            sorted.len()
                        }
                        &&& forall|j: int|
                            0 <= j < m.categories@.len() ==> (#[trigger] m.categories@[j]).key@
                                == sorted[j] && m.categories@[j].count == key_count(ks, sorted[j])
                        &&& m.nodes@.len() == ks.len()
                        &&& forall|i: int|
                            0 <= i < ks.len() ==> #[trigger] m.nodes@[i] == match ks[i] {
                                None => None,
                                Some(k) => Some(
                                    (last_digest_match(sorted, k, sorted.len() as int) % 8) as u8,
                                ),
                            }
                    }
            }
        }),
{
    let ghost ks = key_views(keys@);
    // Distinct keys in first-seen order, with their counts.
    let mut cats: Vec<(String, usize)> = Vec::new();
    let mut bytes: usize = 0;
    let mut i: usize = 0;
    while i < keys.len()
        invariant
            i <= keys@.len(),
            keys@.len() <= u32::MAX,
            ks == key_views(keys@),
            cats@.len() == first_seen(ks.take(i as int)).len(),
            forall|j: int|
                0 <= j < cats@.len() ==> (#[trigger] cats@[j]).0@ == first_seen(ks.take(i as int))[j]
                    && cats@[j].1 == key_count(ks.take(i as int), cats@[j].0@),
            bytes == cost(first_seen(ks.take(i as int))),
            bytes <= MAX_CATEGORY_BYTES,
        decreases keys@.len() - i,
    {
        let ghost pre = ks.take(i as int);
        let ghost next = ks.take(i + 1);
        assert(next.drop_last() =~= pre);
        assert(next.last() == ks[i as int]);
        proof {
            lemma_first_seen_len(pre);
        }
        match &keys[i] {
            None => {
                assert forall|j: int| 0 <= j < cats@.len() implies #[trigger] cats@[j].1 == key_count(
                    next,
                    cats@[j].0@,
                ) by {}
            },
            Some(k) => {
                let found = find_key(&cats, k.as_str());
                if let Some(found) = found {
                    assert(first_seen(pre)[found as int] == k@);
                    assert(first_seen(pre).contains(k@));
                    assert(first_seen(next) == first_seen(pre));
                    let c = cats[found].1;
                    proof {
                        lemma_count_within(pre, k@);
                    }
                    cats.set(found, (cats[found].0.clone(), c + 1));
                    assert forall|l: int| 0 <= l < cats@.len() implies (#[trigger] cats@[l]).0@
                        == first_seen(next)[l] && cats@[l].1 == key_count(next, cats@[l].0@) by {
                        if l != found {
                            lemma_distinct_first_seen(pre);
                            assert(first_seen(pre)[l] != first_seen(pre)[found as int]);
                        }
                    }
                } else {
                    assert(!first_seen(pre).contains(k@)) by {
                        if first_seen(pre).contains(k@) {
                            let l = choose|l: int| 0 <= l < first_seen(pre).len() && first_seen(pre)[l] == k@;
                            assert(cats@[l].0@ == k@);
                        }
                    }
                    assert(first_seen(next) == first_seen(pre).push(k@));
                    let len = k.as_str().as_bytes().len();
                    assert(len == encode_utf8(k@).len());
                    if len > MAX_CATEGORY_BYTES || bytes + len * 2 + 128 > MAX_CATEGORY_BYTES {
                        proof {
                            assert(first_seen(next).drop_last() =~= first_seen(pre));
                            assert(cost(first_seen(next)) > MAX_CATEGORY_BYTES);
                            lemma_first_seen_cost_grows(ks, i + 1, ks.len() as int);
                            assert(ks.take(ks.len() as int) =~= ks);
                        }
                        return Err(refusal("appearance categories exceed 1 MiB"));
                    }
                    bytes = bytes + len * 2 + 128;
                    proof {
                        assert(first_seen(next).drop_last() =~= first_seen(pre));
                        lemma_key_count_absent(pre, k@);
                    }
                    cats.push((k.clone(), 1));
                    assert forall|l: int| 0 <= l < cats@.len() implies (#[trigger] cats@[l]).0@
                        == first_seen(next)[l] && cats@[l].1 == key_count(next, cats@[l].0@) by {
                        if l < cats@.len() - 1 {
                            assert(first_seen(pre).contains(first_seen(pre)[l]));
                        }
                    }
                }
            },
        }
        i = i + 1;
    }
    assert(ks.take(keys@.len() as int) =~= ks);
    proof {
        lemma_first_seen_len(ks);
        assert forall|j: int| 0 <= j < cats@.len() implies (#[trigger] cats@[j]).1 == key_count(ks, cats@[j].0@)
            && cats@[j].1 <= ks.len() by {
            lemma_count_within(ks, cats@[j].0@);
        }
    }
    // The categories in key order.
    let sorted = sort_by_type_name(&cats);
    let ghost sv = sorted@.map_values(|c: (String, usize)| c.0@);
    proof {
        lemma_distinct_first_seen(ks);
        lemma_sorted_keys(ks, cats@, sorted@);
    }
    assert(sorted_keys(ks, sv));
    // Each category's digest, and each node's palette position.
    let mut digests: Vec<Vec<u8>> = Vec::new();
    let mut d: usize = 0;
    while d < sorted.len()
        invariant
            d <= sorted@.len(),
            digests@.len() == d,
            sv == sorted@.map_values(|c: (String, usize)| c.0@),
            forall|l: int| 0 <= l < d ==> (#[trigger] digests@[l])@ == sha256_of(encode_utf8(sv[l])),
        decreases sorted@.len() - d,
    {
        digests.push(sha256(sorted[d].0.as_str().as_bytes()));
        d = d + 1;
    }
    let mut nodes: Vec<Option<u8>> = Vec::new();
    let mut n: usize = 0;
    while n < keys.len()
        invariant
            n <= keys@.len(),
            ks == key_views(keys@),
            nodes@.len() == n,
            sorted_keys(ks, sv),
            digests@.len() == sv.len(),
            forall|l: int| 0 <= l < sv.len() ==> (#[trigger] digests@[l])@ == sha256_of(encode_utf8(sv[l])),
            forall|l: int|
                0 <= l < n ==> #[trigger] nodes@[l] == match ks[l] {
                    None => None,
                    Some(k) => Some((last_digest_match(sv, k, sv.len() as int) % 8) as u8),
                },
        decreases keys@.len() - n,
    {
        match &keys[n] {
            None => nodes.push(None),
            Some(k) => {
                let token = sha256(k.as_str().as_bytes());
                let mut m: usize = digests.len();
                let mut at: Option<usize> = None;
                while m > 0 && at.is_none()
                    invariant
                        m <= digests@.len(),
                        digests@.len() == sv.len(),
                        forall|l: int| 0 <= l < sv.len() ==> (#[trigger] digests@[l])@ == sha256_of(encode_utf8(sv[l])),
                        token@ == sha256_of(encode_utf8(k@)),
                        at is None ==> last_digest_match(sv, k@, sv.len() as int) == last_digest_match(sv, k@, m as int),
                        at matches Some(a) ==> a < sv.len() && last_digest_match(sv, k@, sv.len() as int) == a,
                    decreases m,
                {
                    if same_bytes(&digests[m - 1], &token) {
                        at = Some(m - 1);
                    }
                    m = m - 1;
                }
                let slot = match at {
                    Some(a) => (a % 8) as u8,
                    None => {
                        proof {
                            assert(ks[n as int] == Some(k@));
                            lemma_key_is_category(ks, n as int);
                            assert(first_seen(ks).contains(k@));
                            assert(sv.contains(k@));
                            let j = choose|j: int| 0 <= j < sv.len() && sv[j] == k@;
                            lemma_match_found(sv, k@, sv.len() as int, j);
                        }
                        0u8
                    },
                };
                nodes.push(Some(slot));
            },
        }
        n = n + 1;
    }
    let extra = if sorted.len() > PALETTE_SIZE {
        sorted.len() - PALETTE_SIZE
    } else {
        0
    };
    let mut categories: Vec<ColorCategory> = Vec::new();
    let mut c: usize = 0;
    while c < sorted.len() && c < PALETTE_SIZE
        invariant
            c <= sorted@.len(),
            c <= PALETTE_SIZE,
            categories@.len() == c,
            sv == sorted@.map_values(|c: (String, usize)| c.0@),
            keys@.len() <= u32::MAX,
            forall|l: int| 0 <= l < sorted@.len() ==> (#[trigger] sorted@[l]).1 == key_count(ks, sorted@[l].0@)
                && sorted@[l].1 <= keys@.len(),
            sorted@.len() <= keys@.len(),
            forall|l: int|
                0 <= l < c ==> (#[trigger] categories@[l]).key@ == sv[l] && categories@[l].count
                    == key_count(ks, sv[l]),
        decreases sorted@.len() - c,
    {
        categories.push(ColorCategory { key: sorted[c].0.clone(), count: sorted[c].1 as u32 });
        c = c + 1;
    }
    Ok(ColorMapping { nodes, categories, other_categories: extra as u32 })
}

/// The position of the category keyed `k`, if there is one.
fn find_key(cats: &Vec<(String, usize)>, k: &str) -> (r: Option<usize>)
    ensures
        r matches Some(j) ==> j < cats@.len() && cats@[j as int].0@ == k@,
        r is None ==> forall|l: int| 0 <= l < cats@.len() ==> (#[trigger] cats@[l]).0@ != k@,
{
    let mut j: usize = 0;
    while j < cats.len()
        invariant
            j <= cats@.len(),
            forall|l: int| 0 <= l < j ==> (#[trigger] cats@[l]).0@ != k@,
        decreases cats@.len() - j,
    {
        if str_eq(cats[j].0.as_str(), k) {
            return Some(j);
        }
        j = j + 1;
    }
    None
}

/// There are no more first-seen keys than nodes.
proof fn lemma_first_seen_len(ks: Seq<Option<Seq<char>>>)
    ensures
        first_seen(ks).len() <= ks.len(),
    decreases ks.len(),
{
    if ks.len() > 0 {
        lemma_first_seen_len(ks.drop_last());
    }
}

/// Byte-for-byte equality of two digests.
fn same_bytes(a: &Vec<u8>, b: &Vec<u8>) -> (r: bool)
    ensures
        r == (a@ == b@),
{
    if a.len() != b.len() {
        return false;
    }
    let mut i: usize = 0;
    while i < a.len()
        invariant
            i <= a@.len(),
            a@.len() == b@.len(),
            forall|j: int| 0 <= j < i ==> a@[j] == b@[j],
        decreases a@.len() - i,
    {
        if a[i] != b[i] {
            return false;
        }
        i = i + 1;
    }
    assert(a@ =~= b@);
    true
}

proof fn lemma_count_within(ks: Seq<Option<Seq<char>>>, k: Seq<char>)
    ensures
        key_count(ks, k) <= ks.len(),
    decreases ks.len(),
{
    if ks.len() > 0 {
        lemma_count_within(ks.drop_last(), k);
    }
}

/// A key not among the first-seen keys has no node yet.
proof fn lemma_key_count_absent(ks: Seq<Option<Seq<char>>>, k: Seq<char>)
    requires
        !first_seen(ks).contains(k),
    ensures
        key_count(ks, k) == 0,
    decreases ks.len(),
{
    if ks.len() > 0 {
        let prev = first_seen(ks.drop_last());
        assert(!prev.contains(k)) by {
            if prev.contains(k) {
                let l = choose|l: int| 0 <= l < prev.len() && prev[l] == k;
                match ks.last() {
                    Some(x) => if !prev.contains(x) {
                        assert(first_seen(ks)[l] == k);
                    },
                    None => {},
                }
            }
        }
        lemma_key_count_absent(ks.drop_last(), k);
        if ks.last() == Some(k) {
            assert(first_seen(ks).contains(k)) by {
                if prev.contains(k) {
                } else {
                    assert(first_seen(ks) == prev.push(k));
                    assert(first_seen(ks)[prev.len() as int] == k);
                }
            }
        }
    }
}

/// The first-seen keys are distinct.
proof fn lemma_distinct_first_seen(ks: Seq<Option<Seq<char>>>)
    ensures
        forall|a: int, b: int|
            0 <= a < b < first_seen(ks).len() ==> #[trigger] first_seen(ks)[a] != #[trigger] first_seen(ks)[b],
    decreases ks.len(),
{
    if ks.len() > 0 {
        lemma_distinct_first_seen(ks.drop_last());
        let prev = first_seen(ks.drop_last());
        match ks.last() {
            Some(k) => if !prev.contains(k) {
                assert forall|a: int, b: int|
                    0 <= a < b < first_seen(ks).len() implies #[trigger] first_seen(ks)[a]
                    != #[trigger] first_seen(ks)[b] by {
                    if b == prev.len() {
                        assert(prev.contains(prev[a]));
                    }
                }
            },
            None => {},
        }
    }
}

/// Every key a node carries is among the first-seen keys.
proof fn lemma_key_is_category(ks: Seq<Option<Seq<char>>>, i: int)
    requires
        0 <= i < ks.len(),
        ks[i] is Some,
    ensures
        first_seen(ks).contains(ks[i]->0),
    decreases ks.len(),
{
    let prev = first_seen(ks.drop_last());
    if i < ks.len() - 1 {
        lemma_key_is_category(ks.drop_last(), i);
        let l = choose|l: int| 0 <= l < prev.len() && prev[l] == ks[i]->0;
        match ks.last() {
            Some(x) => if !prev.contains(x) {
                assert(first_seen(ks)[l] == ks[i]->0);
            },
            None => {},
        }
    } else {
        let k = ks[i]->0;
        if !prev.contains(k) {
            assert(first_seen(ks)[prev.len() as int] == k);
        }
    }
}

/// A position whose key is `k` guarantees a digest match at or after it.
proof fn lemma_match_found(sorted: Seq<Seq<char>>, k: Seq<char>, m: int, j: int)
    requires
        0 <= j < m <= sorted.len(),
        sorted[j] == k,
    ensures
        j <= last_digest_match(sorted, k, m) < m,
    decreases m,
{
    if m - 1 != j && sha256_of(encode_utf8(sorted[m - 1])) != sha256_of(encode_utf8(k)) {
        lemma_match_found(sorted, k, m - 1, j);
    }
}

/// The cost of the first-seen keys only grows as more nodes are read.
proof fn lemma_first_seen_cost_grows(ks: Seq<Option<Seq<char>>>, a: int, b: int)
    requires
        0 <= a <= b <= ks.len(),
    ensures
        cost(first_seen(ks.take(a))) <= cost(first_seen(ks.take(b))),
    decreases b - a,
{
    if a < b {
        lemma_first_seen_cost_grows(ks, a, b - 1);
        let t = ks.take(b);
        assert(t.drop_last() =~= ks.take(b - 1));
        let prev = first_seen(ks.take(b - 1));
        match t.last() {
            Some(k) => if !prev.contains(k) {
                assert(first_seen(t).drop_last() =~= prev);
            },
            None => {},
        }
    }
}

/// Sorting the first-seen table by key gives the keys in strictly
/// increasing string order, each once.
proof fn lemma_sorted_keys(ks: Seq<Option<Seq<char>>>, cats: Seq<(String, usize)>, sorted: Seq<(String, usize)>)
    requires
        cats.len() == first_seen(ks).len(),
        forall|j: int| 0 <= j < cats.len() ==> (#[trigger] cats[j]).0@ == first_seen(ks)[j],
        forall|a: int, b: int|
            0 <= a < b < first_seen(ks).len() ==> #[trigger] first_seen(ks)[a] != #[trigger] first_seen(ks)[b],
        forall|j: int| 0 <= j < cats.len() ==> (#[trigger] cats[j]).1 == key_count(ks, cats[j].0@)
            && cats[j].1 <= ks.len(),
        exists|p: Seq<int>| ranked(name_keys(cats), p) && sorted == reorder(cats, p),
    ensures
        sorted_keys(ks, sorted.map_values(|c: (String, usize)| c.0@)),
        sorted.len() == cats.len(),
        forall|l: int| 0 <= l < sorted.len() ==> (#[trigger] sorted[l]).1 == key_count(ks, sorted[l].0@)
            && sorted[l].1 <= ks.len(),
{
    let p = choose|p: Seq<int>| ranked(name_keys(cats), p) && sorted == reorder(cats, p);
    let sv = sorted.map_values(|c: (String, usize)| c.0@);
    let fs = first_seen(ks);
    let nk = name_keys(cats);
    assert forall|l: int| 0 <= l < sorted.len() implies (#[trigger] sorted[l]).1 == key_count(ks, sorted[l].0@)
        && sorted[l].1 <= ks.len() by {
        assert(sorted[l] == cats[p[l]]);
    }
    assert forall|a: int, b: int| 0 <= a < b < sv.len() implies lex_lt(#[trigger] sv[a], #[trigger] sv[b]) by {
        assert(p[a] != p[b]);
        assert(nk[p[a]].name@ == sv[a]);
        assert(nk[p[b]].name@ == sv[b]);
        assert(fs[p[a]] != fs[p[b]]);
        assert(rank_before(nk[p[a]], nk[p[b]]) || (same_rank(nk[p[a]], nk[p[b]]) && p[a] < p[b]));
    }
    assert forall|k: Seq<char>| #[trigger] sv.contains(k) <==> fs.contains(k) by {
        if sv.contains(k) {
            let l = choose|l: int| 0 <= l < sv.len() && sv[l] == k;
            assert(fs[p[l]] == k);
        }
        if fs.contains(k) {
            let j = choose|j: int| 0 <= j < fs.len() && fs[j] == k;
            // p is a permutation of the indices, so some position holds j.
            lemma_permutation_hits(p, cats.len() as int, j);
            let l = choose|l: int| 0 <= l < p.len() && p[l] == j;
            assert(sv[l] == k);
        }
    }
}

/// `n` distinct indices below `n` include every index below `n`.
proof fn lemma_permutation_hits(p: Seq<int>, n: int, j: int)
    requires
        p.len() == n,
        0 <= j < n,
        forall|k: int| 0 <= k < p.len() ==> 0 <= #[trigger] p[k] < n,
        forall|k: int, l: int| 0 <= k < l < p.len() ==> #[trigger] p[k] != #[trigger] p[l],
    ensures
        exists|l: int| 0 <= l < p.len() && p[l] == j,
{
    if !(exists|l: int| 0 <= l < p.len() && p[l] == j) {
        let s = p.to_set();
        let range = vstd::set_lib::set_int_range(0, n);
        let full = range.remove(j);
        assert(s.subset_of(full)) by {
            assert forall|x: int| s.contains(x) implies full.contains(x) by {
                let k = choose|k: int| 0 <= k < p.len() && p[k] == x;
            }
        }
        vstd::set_lib::lemma_int_range(0, n);
        assert(range.contains(j));
        assert(p.no_duplicates()) by {
            assert forall|k: int, l: int| 0 <= k < p.len() && 0 <= l < p.len() && k != l implies p[k] != p[l] by {
                if k < l {
                } else {
                }
            }
        }
        p.unique_seq_to_set();
        vstd::set_lib::lemma_len_subset(s, full);
        assert(false);
    }
}

} // verus!
