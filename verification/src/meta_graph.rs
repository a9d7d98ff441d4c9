//! The type-level meta-graph: the entry screen, one node per label and one
//! link per relationship type, both carrying counts.
use vstd::prelude::*;

use vstd::utf8::encode_utf8;

use kglite::api::DirGraph;

use crate::bound::{apply, kept_count, prefix_sum, Bound, BoundInfo};
use crate::expand::ConnectivityTriple;
use crate::protocol::PROTOCOL_VERSION;
use crate::ranking::{rank_order, ranked, reorder, RankKey};
use crate::graph_reads::{
    embedding_node_types, graph_edge_count, graph_node_count, has_parent_type,
    has_timeseries_config, property_type_names, spatial_config_facts, type_connectivity,
    type_index_counts, type_index_held, connectivity_held, triple_view, pair_views,
    parent_types_held, node_total, edge_total, timeseries_types_held, spatial_held,
    property_types_held, embedding_types_held, text_views,
};
use crate::text::{eq_ignore_ascii_case, same_ignoring_ascii_case, text_order};

verus! {

/// How much of the schema the server decided to send, by core type count.
#[derive(Debug, Clone, Copy, PartialEq, Eq, Structural)]
pub enum DetailTier {
    /// 0-15 core types: every type, with its links.
    Full,
    /// 16-200 core types: every type, without inline property detail.
    Compact,
    /// 201-5000 core types: the largest `TOP_TYPES_LIMIT`, truncation reported.
    TopTypes,
    /// 5001+ core types: statistics only.
    Summary,
}

/// Types kept at the `TopTypes` tier.
pub const TOP_TYPES_LIMIT: usize = 50;

/// Byte ceiling for the meta-graph's type list: one protocol chunk.
pub const MAX_META_BYTES: usize = 524288;

/// Ceiling on meta-graph links.
pub const MAX_META_LINKS: usize = 4000;

pub open spec fn spec_tier(core_types: nat) -> DetailTier {
    if core_types <= 15 {
        DetailTier::Full
    } else if core_types <= 200 {
        DetailTier::Compact
    } else if core_types <= 5000 {
        DetailTier::TopTypes
    } else {
        DetailTier::Summary
    }
}

/// Classify a graph by core type count, with kglite's graph-scale thresholds.
pub fn tier_for_core_types(core_types: usize) -> (t: DetailTier)
    ensures
        t == spec_tier(core_types as nat),
{
    if core_types <= 15 {
        DetailTier::Full
    } else if core_types <= 200 {
        DetailTier::Compact
    } else if core_types <= 5000 {
        DetailTier::TopTypes
    } else {
        DetailTier::Summary
    }
}

pub open spec fn spec_node_bound(t: DetailTier) -> Bound {
    Bound {
        max_items: match t {
            DetailTier::Full | DetailTier::Compact => usize::MAX,
            DetailTier::TopTypes => TOP_TYPES_LIMIT,
            DetailTier::Summary => 0,
        },
        max_bytes: MAX_META_BYTES,
    }
}

impl DetailTier {
    /// The response bound this tier implies.
    pub fn node_bound(self) -> (b: Bound)
        ensures
            b == spec_node_bound(self),
    {
        let max_items = match self {
            DetailTier::Full | DetailTier::Compact => usize::MAX,
            DetailTier::TopTypes => TOP_TYPES_LIMIT,
            DetailTier::Summary => 0,
        };
        Bound { max_items, max_bytes: MAX_META_BYTES }
    }

    /// True when the client should draw points and links rather than the
    /// statistics panel.
    pub fn renders_graph(self) -> (r: bool)
        ensures
            r == (self != DetailTier::Summary),
    {
        match self {
            DetailTier::Summary => false,
            _ => true,
        }
    }

    /// The kebab-case name the client switches on.
    pub fn wire_name(self) -> (s: &'static str)
        ensures
            self == DetailTier::Full ==> s@ == "full"@,
            self == DetailTier::Compact ==> s@ == "compact"@,
            self == DetailTier::TopTypes ==> s@ == "top-types"@,
            self == DetailTier::Summary ==> s@ == "summary"@,
    {
        match self {
            DetailTier::Full => "full",
            DetailTier::Compact => "compact",
            DetailTier::TopTypes => "top-types",
            DetailTier::Summary => "summary",
        }
    }
}

/// One type node of the meta-graph.
#[derive(Debug, Clone, PartialEq, Eq)]
pub struct MetaTypeNode {
    /// Index in the session's slot space.
    pub slot: u32,
    pub name: String,
    /// Members of this type.
    pub count: u32,
    /// `ts` / `geo` / `loc` / `vec`.
    pub capabilities: Vec<String>,
    /// True when this type has a parent in the `is_a` forest.
    pub supporting: bool,
}

/// One relationship type between two type nodes, with its edge count.
#[derive(Debug, Clone, PartialEq, Eq)]
pub struct MetaEdge {
    pub source_slot: u32,
    pub target_slot: u32,
    pub name: String,
    pub count: u32,
}

/// Whole-graph totals, meaningful at every tier.
#[derive(Debug, Clone, Copy, PartialEq, Eq, Structural)]
pub struct MetaGraphStats {
    pub node_count: u32,
    pub edge_count: u32,
    pub node_type_count: u32,
    pub relationship_type_count: u32,
    pub core_type_count: u32,
}

/// The meta-graph's metadata half: everything except the two float arrays.
#[derive(Debug, Clone, PartialEq, Eq)]
pub struct MetaGraphMeta {
    pub protocol_version: u32,
    pub tier: DetailTier,
    pub stats: MetaGraphStats,
    pub nodes: Vec<MetaTypeNode>,
    pub edges: Vec<MetaEdge>,
    pub node_bound: BoundInfo,
    pub edge_bound: BoundInfo,
}

/// kglite's capability flags for a type with the given facts: `ts`, `geo`,
/// `loc`, `vec` in that order, with `loc` suppressed when `geo` is present.
pub open spec fn spec_capabilities(
    has_timeseries: bool,
    has_geometry: bool,
    has_location: bool,
    has_embeddings: bool,
) -> Seq<Seq<char>> {
    (if has_timeseries {
        seq!["ts"@]
    } else {
        seq![]
    }) + (if has_geometry {
        seq!["geo"@]
    } else {
        seq![]
    }) + (if has_location && !has_geometry {
        seq!["loc"@]
    } else {
        seq![]
    }) + (if has_embeddings {
        seq!["vec"@]
    } else {
        seq![]
    })
}

/// Where a capability flag stands in kglite's order.
pub open spec fn flag_rank(f: Seq<char>) -> int {
    if f == "ts"@ {
        0
    } else if f == "geo"@ {
        1
    } else if f == "loc"@ {
        2
    } else if f == "vec"@ {
        3
    } else {
        4
    }
}

/// Each capability flag stands for its own fact, whatever the others are:
/// `ts` is there exactly when the type has a time-series config, `geo`
/// exactly when it has a geometry, `loc` exactly when it has a location and
/// no geometry, `vec` exactly when it has embeddings; nothing else is
/// there, and the flags come once each in the order ts, geo, loc, vec.
pub proof fn lemma_capability_flags_follow_their_facts(
    has_timeseries: bool,
    has_geometry: bool,
    has_location: bool,
    has_embeddings: bool,
)
    ensures
        ({
            let f = spec_capabilities(has_timeseries, has_geometry, has_location, has_embeddings);
            &&& f.contains("ts"@) <==> has_timeseries
            &&& f.contains("geo"@) <==> has_geometry
            &&& f.contains("loc"@) <==> (has_location && !has_geometry)
            &&& f.contains("vec"@) <==> has_embeddings
            &&& forall|i: int| 0 <= i < f.len() ==> flag_rank(#[trigger] f[i]) < 4
            &&& forall|i: int, j: int| 0 <= i < j < f.len() ==> flag_rank(f[i]) < flag_rank(f[j])
        }),
{
    reveal_strlit("ts");
    reveal_strlit("geo");
    reveal_strlit("loc");
    reveal_strlit("vec");
    assert("ts"@.len() == 2 && "geo"@.len() == 3 && "loc"@.len() == 3 && "vec"@.len() == 3);
    assert("geo"@[0] != "loc"@[0] && "geo"@[0] != "vec"@[0] && "loc"@[0] != "vec"@[0]);
    assert("ts"@ != "geo"@ && "ts"@ != "loc"@ && "ts"@ != "vec"@);
    assert("geo"@ != "loc"@ && "geo"@ != "vec"@ && "loc"@ != "vec"@);
    let a: Seq<Seq<char>> = if has_timeseries { seq!["ts"@] } else { seq![] };
    let b: Seq<Seq<char>> = if has_geometry { seq!["geo"@] } else { seq![] };
    let c: Seq<Seq<char>> = if has_location && !has_geometry { seq!["loc"@] } else { seq![] };
    let d: Seq<Seq<char>> = if has_embeddings { seq!["vec"@] } else { seq![] };
    let f = spec_capabilities(has_timeseries, has_geometry, has_location, has_embeddings);
    assert(f =~= a + b + c + d);
    assert forall|x: Seq<char>| #![trigger a.contains(x)] #![trigger b.contains(x)] #![trigger c.contains(x)] #![trigger d.contains(x)]
        (a.contains(x) <==> (has_timeseries && x == "ts"@)) && (b.contains(x) <==> (has_geometry && x == "geo"@)) && (c.contains(x) <==> (has_location && !has_geometry && x == "loc"@)) && (d.contains(x) <==> (has_embeddings && x == "vec"@)) by {
        if a.contains(x) {
            let i = choose|i: int| 0 <= i < a.len() && a[i] == x;
        }
        if b.contains(x) {
            let i = choose|i: int| 0 <= i < b.len() && b[i] == x;
        }
        if c.contains(x) {
            let i = choose|i: int| 0 <= i < c.len() && c[i] == x;
        }
        if d.contains(x) {
            let i = choose|i: int| 0 <= i < d.len() && d[i] == x;
        }
        if has_timeseries && x == "ts"@ {
            assert(a[0] == x);
        }
        if has_geometry && x == "geo"@ {
            assert(b[0] == x);
        }
        if has_location && !has_geometry && x == "loc"@ {
            assert(c[0] == x);
        }
        if has_embeddings && x == "vec"@ {
            assert(d[0] == x);
        }
    }
    assert(flag_rank("ts"@) == 0 && flag_rank("geo"@) == 1 && flag_rank("loc"@) == 2 && flag_rank("vec"@) == 3);
    assert forall|x: Seq<char>| f.contains(x) <==> (a.contains(x) || b.contains(x) || c.contains(x) || d.contains(x)) by {
        if f.contains(x) {
            let i = choose|i: int| 0 <= i < f.len() && f[i] == x;
            if i < a.len() {
                assert(a[i] == x);
            } else if i < a.len() + b.len() {
                assert(b[i - a.len()] == x);
            } else if i < a.len() + b.len() + c.len() {
                assert(c[i - a.len() - b.len()] == x);
            } else {
                assert(d[i - a.len() - b.len() - c.len()] == x);
            }
        }
        if a.contains(x) {
            assert(f[0] == x);
        }
        if b.contains(x) {
            assert(f[a.len() as int] == x);
        }
        if c.contains(x) {
            assert(f[(a.len() + b.len()) as int] == x);
        }
        if d.contains(x) {
            assert(f[(a.len() + b.len() + c.len()) as int] == x);
        }
    }
    assert forall|i: int| 0 <= i < f.len() implies flag_rank(#[trigger] f[i]) == if i < a.len() {
        0int
    } else if i < a.len() + b.len() {
        1int
    } else if i < a.len() + b.len() + c.len() {
        2int
    } else {
        3int
    } by {
        if i < a.len() {
            assert(f[i] == a[i]);
        } else if i < a.len() + b.len() {
            assert(f[i] == b[i - a.len()]);
        } else if i < a.len() + b.len() + c.len() {
            assert(f[i] == c[i - a.len() - b.len()]);
        } else {
            assert(f[i] == d[i - a.len() - b.len() - c.len()]);
        }
    }
}

/// The capability flags of one type, in kglite's order, with `loc`
/// suppressed when `geo` is present.
pub fn capability_flags(
    has_timeseries: bool,
    has_geometry: bool,
    has_location: bool,
    has_embeddings: bool,
) -> (flags: Vec<&'static str>)
    ensures
        flags@.map_values(|f: &'static str| f@) == spec_capabilities(
            has_timeseries,
            has_geometry,
            has_location,
            has_embeddings,
        ),
{
    let mut flags: Vec<&'static str> = Vec::new();
    if has_timeseries {
        flags.push("ts");
    }
    if has_geometry {
        flags.push("geo");
    }
    if has_location && !has_geometry {
        flags.push("loc");
    }
    if has_embeddings {
        flags.push("vec");
    }
    assert(flags@.map_values(|f: &'static str| f@) =~= spec_capabilities(
        has_timeseries,
        has_geometry,
        has_location,
        has_embeddings,
    ));
    flags
}

/// One node type as the graph reports it: its name, how many nodes carry
/// it, whether it has a parent in the `is_a` forest, and the four facts its
/// capability flags are read from.
#[derive(Debug, Clone)]
pub struct TypeEntry {
    pub name: String,
    pub count: u32,
    pub supporting: bool,
    pub has_timeseries: bool,
    pub has_geometry: bool,
    pub has_location: bool,
    pub has_embeddings: bool,
}

/// Types without a parent: the number the tier is classified from.
pub open spec fn core_count(types: Seq<TypeEntry>) -> nat
    decreases types.len(),
{
    if types.len() == 0 {
        0
    } else {
        core_count(types.drop_last()) + if types.last().supporting {
            0nat
        } else {
            1nat
        }
    }
}

pub open spec fn type_key(t: TypeEntry) -> RankKey {
    RankKey { count: t.count as u64, name: t.name, first: 0, second: 0 }
}

pub open spec fn type_keys(types: Seq<TypeEntry>) -> Seq<RankKey> {
    types.map_values(|t: TypeEntry| type_key(t))
}

/// Serialized size of one type node: the JSON scaffolding around its name,
/// plus room for four capability flags.
pub open spec fn type_sizes(types: Seq<TypeEntry>) -> Seq<usize> {
    types.map_values(|t: TypeEntry| (encode_utf8(t.name@).len() + 96) as usize)
}

/// The slot a kept type got, by name: that of the last kept type so named.
pub open spec fn slot_of(kept: Seq<TypeEntry>, name: Seq<char>, first_slot: u32) -> Option<u32>
    decreases kept.len(),
{
    if kept.len() == 0 {
        None
    } else if kept.last().name@ == name {
        Some((first_slot + kept.len() - 1) as u32)
    } else {
        slot_of(kept.drop_last(), name, first_slot)
    }
}

/// The links the connectivity offers between kept types, in triple order.
/// A link whose endpoint type was dropped by the bound has no slot to point
/// at and is left out.
pub open spec fn edge_candidates(
    triples: Seq<ConnectivityTriple>,
    kept: Seq<TypeEntry>,
    first_slot: u32,
) -> Seq<MetaEdge>
    decreases triples.len(),
{
    if triples.len() == 0 {
        Seq::empty()
    } else {
        let rest = edge_candidates(triples.drop_last(), kept, first_slot);
        let t = triples.last();
        match (slot_of(kept, t.src@, first_slot), slot_of(kept, t.tgt@, first_slot)) {
            (Some(a), Some(b)) => rest.push(
                MetaEdge { source_slot: a, target_slot: b, name: t.conn, count: t.count as u32 },
            ),
            _ => rest,
        }
    }
}

pub open spec fn edge_keys(edges: Seq<MetaEdge>) -> Seq<RankKey> {
    edges.map_values(
        |e: MetaEdge|
            RankKey { count: e.count as u64, name: e.name, first: e.source_slot, second: e.target_slot },
    )
}

/// Serialized size of one link: its name and the slots around it.
pub open spec fn edge_sizes(edges: Seq<MetaEdge>) -> Seq<usize> {
    edges.map_values(|e: MetaEdge| (encode_utf8(e.name@).len() + 64) as usize)
}

/// The bound on the meta-graph's links.
pub open spec fn link_bound() -> Bound {
    Bound { max_items: MAX_META_LINKS, max_bytes: MAX_META_BYTES }
}

/// The distinct relationship names of the connectivity.
pub open spec fn relationship_names(triples: Seq<ConnectivityTriple>) -> Set<Seq<char>> {
    triples.map_values(|t: ConnectivityTriple| t.conn@).to_set()
}

/// `n` is the node drawn for type `t` at `slot`.
pub open spec fn node_for(n: MetaTypeNode, t: TypeEntry, slot: int) -> bool {
    &&& n.slot == slot
    &&& n.name == t.name
    &&& n.count == t.count
    &&& n.supporting == t.supporting
    &&& n.capabilities@.map_values(|c: String| c@) == spec_capabilities(
        t.has_timeseries,
        t.has_geometry,
        t.has_location,
        t.has_embeddings,
    )
}

/// `r` is the meta-graph of `types` and `triples` when the types are ranked
/// by `p` and the links by `q`: types largest first (name breaking ties),
/// cut by the tier's bound, given consecutive slots from `first_slot`; the
/// links between kept types ranked by count, name, then slots, and cut by
/// the link bound. Totals come from the graph, not from what is sent.
pub open spec fn meta_graph_via(
    types: Seq<TypeEntry>,
    triples: Seq<ConnectivityTriple>,
    node_count: u64,
    edge_count: u64,
    first_slot: u32,
    p: Seq<int>,
    q: Seq<int>,
    r: MetaGraphMeta,
) -> bool {
    let core = core_count(types);
    let tier = spec_tier(core);
    let sorted = reorder(types, p);
    let n = r.nodes@.len() as int;
    let kept = sorted.take(n);
    let cands = edge_candidates(triples, kept, first_slot);
    let ranked_edges = reorder(cands, q);
    let e = r.edges@.len() as int;
    &&& ranked(type_keys(types), p)
    &&& kept_count(type_sizes(sorted), spec_node_bound(tier), n)
    &&& forall|i: int| 0 <= i < n ==> node_for(#[trigger] r.nodes@[i], kept[i], first_slot + i)
    &&& ranked(edge_keys(cands), q)
    &&& kept_count(edge_sizes(ranked_edges), link_bound(), e)
    &&& forall|j: int| 0 <= j < e ==> #[trigger] r.edges@[j] == ranked_edges[j]
    &&& r.protocol_version == PROTOCOL_VERSION
    &&& r.tier == tier
    &&& r.node_bound == BoundInfo::spec_new(n as usize, types.len() as usize)
    &&& r.edge_bound == BoundInfo::spec_new(e as usize, cands.len() as usize)
    &&& r.stats == MetaGraphStats {
        node_count: node_count as u32,
        edge_count: edge_count as u32,
        node_type_count: types.len() as u32,
        relationship_type_count: relationship_names(triples).len() as u32,
        core_type_count: core as u32,
    }
}

fn clone_entry(t: &TypeEntry) -> (r: TypeEntry)
    ensures
        r == *t,
{
    TypeEntry {
        name: t.name.clone(),
        count: t.count,
        supporting: t.supporting,
        has_timeseries: t.has_timeseries,
        has_geometry: t.has_geometry,
        has_location: t.has_location,
        has_embeddings: t.has_embeddings,
    }
}

fn clone_edge(e: &MetaEdge) -> (r: MetaEdge)
    ensures
        r == *e,
{
    MetaEdge {
        source_slot: e.source_slot,
        target_slot: e.target_slot,
        name: e.name.clone(),
        count: e.count,
    }
}

fn find_slot(kept: &Vec<TypeEntry>, name: &str, first_slot: u32) -> (r: Option<u32>)
    requires
        first_slot + kept@.len() <= u32::MAX + 1,
    ensures
        r == slot_of(kept@, name@, first_slot),
{
    let mut i: usize = kept.len();
    assert(kept@.take(i as int) =~= kept@);
    while i > 0
        invariant
            i <= kept@.len(),
            first_slot + kept@.len() <= u32::MAX + 1,
            slot_of(kept@, name@, first_slot) == slot_of(kept@.take(i as int), name@, first_slot),
        decreases i,
    {
        assert(kept@.take(i as int).drop_last() =~= kept@.take(i - 1));
        if text_order(kept[i - 1].name.as_str(), name) == 0 {
            return Some(first_slot + (i - 1) as u32);
        }
        i = i - 1;
    }
    None
}

fn capability_names(t: &TypeEntry) -> (r: Vec<String>)
    ensures
        r@.map_values(|c: String| c@) == spec_capabilities(
            t.has_timeseries,
            t.has_geometry,
            t.has_location,
            t.has_embeddings,
        ),
{
    let flags = capability_flags(t.has_timeseries, t.has_geometry, t.has_location, t.has_embeddings);
    let mut out: Vec<String> = Vec::new();
    let mut i: usize = 0;
    while i < flags.len()
        invariant
            i <= flags@.len(),
            out@.map_values(|c: String| c@) == flags@.take(i as int).map_values(
                |f: &'static str| f@,
            ),
        decreases flags@.len() - i,
    {
        out.push(flags[i].to_owned());
        proof {
            assert(flags@.take(i + 1).map_values(|f: &'static str| f@) =~= flags@.take(
                i as int,
            ).map_values(|f: &'static str| f@).push(flags@[i as int]@));
            assert(out@.map_values(|c: String| c@) =~= flags@.take(i + 1).map_values(
                |f: &'static str| f@,
            ));
        }
        i = i + 1;
    }
    assert(flags@.take(flags@.len() as int) =~= flags@);
    out
}

fn count_core(types: &Vec<TypeEntry>) -> (r: usize)
    ensures
        r == core_count(types@),
{
    let mut n: usize = 0;
    let mut i: usize = 0;
    while i < types.len()
        invariant
            i <= types@.len(),
            n == core_count(types@.take(i as int)),
            n <= i,
        decreases types@.len() - i,
    {
        assert(types@.take(i + 1).drop_last() =~= types@.take(i as int));
        if !types[i].supporting {
            n = n + 1;
        }
        i = i + 1;
    }
    assert(types@.take(types@.len() as int) =~= types@);
    n
}

fn rank_types(types: &Vec<TypeEntry>) -> (r: (Vec<TypeEntry>, Ghost<Seq<int>>))
    ensures
        ranked(type_keys(types@), r.1@),
        r.0@ == reorder(types@, r.1@),
{
    let mut keys: Vec<RankKey> = Vec::new();
    let mut i: usize = 0;
    while i < types.len()
        invariant
            i <= types@.len(),
            keys@ == type_keys(types@).take(i as int),
        decreases types@.len() - i,
    {
        keys.push(
            RankKey { count: types[i].count as u64, name: types[i].name.clone(), first: 0, second: 0 },
        );
        assert(keys@ =~= type_keys(types@).take(i + 1));
        i = i + 1;
    }
    assert(keys@ =~= type_keys(types@));
    let order = rank_order(&keys);
    let ghost p = order@.map_values(|j: usize| j as int);
    let mut sorted: Vec<TypeEntry> = Vec::new();
    let mut k: usize = 0;
    while k < order.len()
        invariant
            k <= order@.len(),
            ranked(type_keys(types@), p),
            p == order@.map_values(|j: usize| j as int),
            sorted@ == reorder(types@, p).take(k as int),
        decreases order@.len() - k,
    {
        assert(0 <= p[k as int] < types@.len());
        sorted.push(clone_entry(&types[order[k]]));
        assert(sorted@ =~= reorder(types@, p).take(k + 1));
        k = k + 1;
    }
    assert(reorder(types@, p).take(order@.len() as int) =~= reorder(types@, p));
    (sorted, Ghost(p))
}

fn type_size_list(sorted: &Vec<TypeEntry>) -> (r: Vec<usize>)
    requires
        forall|i: int|
            0 <= i < sorted@.len() ==> encode_utf8(#[trigger] sorted@[i].name@).len() + 96
                <= usize::MAX,
    ensures
        r@ == type_sizes(sorted@),
{
    let mut out: Vec<usize> = Vec::new();
    let mut i: usize = 0;
    while i < sorted.len()
        invariant
            i <= sorted@.len(),
            forall|j: int|
                0 <= j < sorted@.len() ==> encode_utf8(#[trigger] sorted@[j].name@).len() + 96
                    <= usize::MAX,
            out@ == type_sizes(sorted@).take(i as int),
        decreases sorted@.len() - i,
    {
        assert(encode_utf8(sorted@[i as int].name@).len() + 96 <= usize::MAX);
        out.push(sorted[i].name.as_str().as_bytes().len() + 96);
        assert(out@ =~= type_sizes(sorted@).take(i + 1));
        i = i + 1;
    }
    assert(type_sizes(sorted@).take(sorted@.len() as int) =~= type_sizes(sorted@));
    out
}

fn build_nodes(kept: &Vec<TypeEntry>, first_slot: u32) -> (r: Vec<MetaTypeNode>)
    requires
        first_slot + kept@.len() <= u32::MAX + 1,
    ensures
        r@.len() == kept@.len(),
        forall|i: int| 0 <= i < kept@.len() ==> node_for(#[trigger] r@[i], kept@[i], first_slot + i),
{
    let mut nodes: Vec<MetaTypeNode> = Vec::new();
    let mut i: usize = 0;
    while i < kept.len()
        invariant
            i <= kept@.len(),
            first_slot + kept@.len() <= u32::MAX + 1,
            nodes@.len() == i,
            forall|j: int| 0 <= j < i ==> node_for(#[trigger] nodes@[j], kept@[j], first_slot + j),
        decreases kept@.len() - i,
    {
        let t = &kept[i];
        nodes.push(
            MetaTypeNode {
                slot: first_slot + i as u32,
                name: t.name.clone(),
                count: t.count,
                capabilities: capability_names(t),
                supporting: t.supporting,
            },
        );
        i = i + 1;
    }
    nodes
}

proof fn lemma_candidate_names(triples: Seq<ConnectivityTriple>, kept: Seq<TypeEntry>, first_slot: u32)
    ensures
        forall|j: int|
            0 <= j < edge_candidates(triples, kept, first_slot).len() ==> exists|i: int|
                0 <= i < triples.len() && #[trigger] edge_candidates(
                    triples,
                    kept,
                    first_slot,
                )[j].name@ == triples[i].conn@,
    decreases triples.len(),
{
    if triples.len() > 0 {
        lemma_candidate_names(triples.drop_last(), kept, first_slot);
        let rest = edge_candidates(triples.drop_last(), kept, first_slot);
        let c = edge_candidates(triples, kept, first_slot);
        assert forall|j: int| 0 <= j < c.len() implies exists|i: int|
            0 <= i < triples.len() && #[trigger] c[j].name@ == triples[i].conn@ by {
            if j < rest.len() {
                assert(c[j] == rest[j]);
                let i = choose|i: int|
                    0 <= i < triples.drop_last().len() && #[trigger] rest[j].name@
                        == triples.drop_last()[i].conn@;
                assert(triples.drop_last()[i] == triples[i]);
            } else {
                assert(c[j].name@ == triples[triples.len() - 1].conn@);
            }
        }
    }
}

fn collect_edges(triples: &Vec<ConnectivityTriple>, kept: &Vec<TypeEntry>, first_slot: u32) -> (r:
    Vec<MetaEdge>)
    requires
        first_slot + kept@.len() <= u32::MAX + 1,
    ensures
        r@ == edge_candidates(triples@, kept@, first_slot),
{
    let mut out: Vec<MetaEdge> = Vec::new();
    let mut i: usize = 0;
    while i < triples.len()
        invariant
            i <= triples@.len(),
            first_slot + kept@.len() <= u32::MAX + 1,
            out@ == edge_candidates(triples@.take(i as int), kept@, first_slot),
        decreases triples@.len() - i,
    {
        assert(triples@.take(i + 1).drop_last() =~= triples@.take(i as int));
        let t = &triples[i];
        let a = find_slot(kept, t.src.as_str(), first_slot);
        let b = find_slot(kept, t.tgt.as_str(), first_slot);
        match (a, b) {
            (Some(x), Some(y)) => {
                out.push(
                    MetaEdge {
                        source_slot: x,
                        target_slot: y,
                        name: t.conn.clone(),
                        count: t.count as u32,
                    },
                );
            },
            _ => {},
        }
        i = i + 1;
    }
    assert(triples@.take(triples@.len() as int) =~= triples@);
    out
}

fn rank_edges(cands: &Vec<MetaEdge>) -> (r: (Vec<MetaEdge>, Ghost<Seq<int>>))
    ensures
        ranked(edge_keys(cands@), r.1@),
        r.0@ == reorder(cands@, r.1@),
{
    let mut keys: Vec<RankKey> = Vec::new();
    let mut i: usize = 0;
    while i < cands.len()
        invariant
            i <= cands@.len(),
            keys@ == edge_keys(cands@).take(i as int),
        decreases cands@.len() - i,
    {
        let e = &cands[i];
        keys.push(
            RankKey {
                count: e.count as u64,
                name: e.name.clone(),
                first: e.source_slot,
                second: e.target_slot,
            },
        );
        assert(keys@ =~= edge_keys(cands@).take(i + 1));
        i = i + 1;
    }
    assert(keys@ =~= edge_keys(cands@));
    let order = rank_order(&keys);
    let ghost q = order@.map_values(|j: usize| j as int);
    let mut sorted: Vec<MetaEdge> = Vec::new();
    let mut k: usize = 0;
    while k < order.len()
        invariant
            k <= order@.len(),
            ranked(edge_keys(cands@), q),
            q == order@.map_values(|j: usize| j as int),
            sorted@ == reorder(cands@, q).take(k as int),
        decreases order@.len() - k,
    {
        assert(0 <= q[k as int] < cands@.len());
        sorted.push(clone_edge(&cands[order[k]]));
        assert(sorted@ =~= reorder(cands@, q).take(k + 1));
        k = k + 1;
    }
    assert(reorder(cands@, q).take(order@.len() as int) =~= reorder(cands@, q));
    (sorted, Ghost(q))
}

fn edge_size_list(edges: &Vec<MetaEdge>) -> (r: Vec<usize>)
    requires
        forall|i: int|
            0 <= i < edges@.len() ==> encode_utf8(#[trigger] edges@[i].name@).len() + 64
                <= usize::MAX,
    ensures
        r@ == edge_sizes(edges@),
{
    let mut out: Vec<usize> = Vec::new();
    let mut i: usize = 0;
    while i < edges.len()
        invariant
            i <= edges@.len(),
            forall|j: int|
                0 <= j < edges@.len() ==> encode_utf8(#[trigger] edges@[j].name@).len() + 64
                    <= usize::MAX,
            out@ == edge_sizes(edges@).take(i as int),
        decreases edges@.len() - i,
    {
        assert(encode_utf8(edges@[i as int].name@).len() + 64 <= usize::MAX);
        out.push(edges[i].name.as_str().as_bytes().len() + 64);
        assert(out@ =~= edge_sizes(edges@).take(i + 1));
        i = i + 1;
    }
    assert(edge_sizes(edges@).take(edges@.len() as int) =~= edge_sizes(edges@));
    out
}

fn count_relationship_names(triples: &Vec<ConnectivityTriple>) -> (r: usize)
    ensures
        r == relationship_names(triples@).len(),
{
    let mut seen: Vec<String> = Vec::new();
    let mut i: usize = 0;
    while i < triples.len()
        invariant
            i <= triples@.len(),
            seen@.len() <= i,
            seen@.map_values(|s: String| s@).no_duplicates(),
            seen@.map_values(|s: String| s@).to_set() == triples@.take(i as int).map_values(
                |t: ConnectivityTriple| t.conn@,
            ).to_set(),
        decreases triples@.len() - i,
    {
        let name = triples[i].conn.as_str();
        let ghost names = seen@.map_values(|s: String| s@);
        let mut found = false;
        let mut k: usize = 0;
        while k < seen.len()
            invariant
                k <= seen@.len(),
                names == seen@.map_values(|s: String| s@),
                found <==> exists|j: int| 0 <= j < k && names[j] == name@,
            decreases seen@.len() - k,
        {
            assert(names[k as int] == seen@[k as int]@);
            if text_order(seen[k].as_str(), name) == 0 {
                found = true;
            }
            k = k + 1;
        }
        let ghost before = triples@.take(i as int).map_values(|t: ConnectivityTriple| t.conn@);
        let ghost after = triples@.take(i + 1).map_values(|t: ConnectivityTriple| t.conn@);
        assert(after =~= before.push(name@));
        if !found {
            seen.push(name.to_owned());
            proof {
                let now = seen@.map_values(|s: String| s@);
                assert(now =~= names.push(name@));
                assert(!names.contains(name@));
                assert forall|a: int, b: int| 0 <= a < b < now.len() implies now[a] != now[b] by {
                    if b == now.len() - 1 {
                        assert(now[a] == names[a]);
                    } else {
                        assert(now[a] == names[a] && now[b] == names[b]);
                    }
                }
                assert(now.to_set() =~= after.to_set()) by {
                    assert forall|x: Seq<char>| now.to_set().contains(x) implies after.to_set().contains(x) by {
                        let j = choose|j: int| 0 <= j < now.len() && now[j] == x;
                        if j < names.len() {
                            assert(names.to_set().contains(x));
                            assert(before.to_set().contains(x));
                            let m = choose|m: int| 0 <= m < before.len() && before[m] == x;
                            assert(after[m] == x);
                        } else {
                            assert(after[after.len() - 1] == x);
                        }
                    }
                    assert forall|x: Seq<char>| after.to_set().contains(x) implies now.to_set().contains(x) by {
                        let j = choose|j: int| 0 <= j < after.len() && after[j] == x;
                        if j < before.len() {
                            assert(before[j] == x);
                            assert(before.to_set().contains(x));
                            assert(names.to_set().contains(x));
                            let m = choose|m: int| 0 <= m < names.len() && names[m] == x;
                            assert(now[m] == x);
                        } else {
                            assert(now[now.len() - 1] == x);
                        }
                    }
                }
            }
        } else {
            proof {
                let j = choose|j: int| 0 <= j < seen@.len() && names[j] == name@;
                assert(names.to_set().contains(name@));
                assert(before.to_set() =~= after.to_set()) by {
                    assert forall|x: Seq<char>| after.to_set().contains(x) implies before.to_set().contains(x) by {
                        let m = choose|m: int| 0 <= m < after.len() && after[m] == x;
                        if m < before.len() {
                            assert(before[m] == x);
                        } else {
                            assert(x == name@);
                        }
                    }
                    assert forall|x: Seq<char>| before.to_set().contains(x) implies after.to_set().contains(x) by {
                        let m = choose|m: int| 0 <= m < before.len() && before[m] == x;
                        assert(after[m] == x);
                    }
                }
            }
        }
        i = i + 1;
    }
    proof {
        assert(triples@.take(triples@.len() as int) =~= triples@);
        seen@.map_values(|s: String| s@).unique_seq_to_set();
    }
    seen.len()
}

/// Computes the meta-graph from what the graph reports of itself: its node
/// types with their counts, its type connectivity, and its node and edge
/// totals.
///
/// Types are ranked largest first, name breaking ties, and cut by the bound
/// the tier implies; the kept types get consecutive slots from `first_slot`,
/// the first the session's allocator hands out, in ranked order. Links
/// between kept types are ranked by count, name, then slots, and cut by the
/// link bound; a link to a type the bound dropped is not sent. The totals
/// are the graph's own, so they stay right when a bound clips what is sent.
pub fn compute_from(
    types: &Vec<TypeEntry>,
    triples: &Vec<ConnectivityTriple>,
    node_count: u64,
    edge_count: u64,
    first_slot: u32,
) -> (r: MetaGraphMeta)
    requires
        first_slot + types@.len() <= u32::MAX + 1,
        forall|i: int|
            0 <= i < types@.len() ==> encode_utf8(#[trigger] types@[i].name@).len() + 96
                <= usize::MAX,
        forall|i: int|
            0 <= i < triples@.len() ==> encode_utf8(#[trigger] triples@[i].conn@).len() + 64
                <= usize::MAX,
    ensures
        exists|p: Seq<int>, q: Seq<int>|
            meta_graph_via(types@, triples@, node_count, edge_count, first_slot, p, q, r),
{
    let core = count_core(types);
    let tier = tier_for_core_types(core);
    let (sorted, Ghost(p)) = rank_types(types);
    let ghost sorted_view = sorted@;
    proof {
        assert forall|k: int| 0 <= k < sorted_view.len() implies encode_utf8(
            #[trigger] sorted_view[k].name@,
        ).len() + 96 <= usize::MAX by {
            assert(sorted_view[k] == types@[p[k]]);
        }
    }
    let sizes = type_size_list(&sorted);
    let (kept, node_bound) = apply(sorted, tier.node_bound(), sizes.as_slice());
    assert(kept@.len() <= types@.len());
    let nodes = build_nodes(&kept, first_slot);
    let cands = collect_edges(triples, &kept, first_slot);
    proof {
        lemma_candidate_names(triples@, kept@, first_slot);
    }
    let (ranked_edges, Ghost(q)) = rank_edges(&cands);
    let ghost ranked_view = ranked_edges@;
    proof {
        assert forall|k: int| 0 <= k < ranked_view.len() implies encode_utf8(
            #[trigger] ranked_view[k].name@,
        ).len() + 64 <= usize::MAX by {
            assert(ranked_view[k] == cands@[q[k]]);
            let c = edge_candidates(triples@, kept@, first_slot);
            assert(c[q[k]] == cands@[q[k]]);
            let i = choose|i: int| 0 <= i < triples@.len() && #[trigger] c[q[k]].name@ == triples@[i].conn@;
        }
    }
    let esizes = edge_size_list(&ranked_edges);
    let (edges, edge_bound) = apply(
        ranked_edges,
        Bound { max_items: MAX_META_LINKS, max_bytes: MAX_META_BYTES },
        esizes.as_slice(),
    );
    let relationships = count_relationship_names(triples);
    let r = MetaGraphMeta {
        protocol_version: PROTOCOL_VERSION,
        tier,
        stats: MetaGraphStats {
            node_count: node_count as u32,
            edge_count: edge_count as u32,
            node_type_count: node_bound.total,
            relationship_type_count: relationships as u32,
            core_type_count: core as u32,
        },
        nodes,
        edges,
        node_bound,
        edge_bound,
    };
    assert(meta_graph_via(types@, triples@, node_count, edge_count, first_slot, p, q, r));
    r
}

proof fn lemma_slot_of_kept(kept: Seq<TypeEntry>, name: Seq<char>, first_slot: u32)
    requires
        first_slot + kept.len() <= u32::MAX + 1,
    ensures
        slot_of(kept, name, first_slot) matches Some(s) ==> exists|i: int|
            0 <= i < kept.len() && s == first_slot + i && #[trigger] kept[i].name@ == name,
    decreases kept.len(),
{
    if kept.len() > 0 {
        lemma_slot_of_kept(kept.drop_last(), name, first_slot);
        if kept.last().name@ != name {
            if let Some(s) = slot_of(kept, name, first_slot) {
                let i = choose|i: int|
                    0 <= i < kept.drop_last().len() && s == first_slot + i
                        && #[trigger] kept.drop_last()[i].name@ == name;
                assert(kept[i] == kept.drop_last()[i]);
            }
        } else {
            assert(kept[kept.len() - 1].name@ == name);
        }
    }
}

proof fn lemma_candidates_join_kept(
    triples: Seq<ConnectivityTriple>,
    kept: Seq<TypeEntry>,
    first_slot: u32,
)
    requires
        first_slot + kept.len() <= u32::MAX + 1,
    ensures
        forall|j: int|
            0 <= j < edge_candidates(triples, kept, first_slot).len() ==> {
                let e = #[trigger] edge_candidates(triples, kept, first_slot)[j];
                &&& first_slot <= e.source_slot < first_slot + kept.len()
                &&& first_slot <= e.target_slot < first_slot + kept.len()
            },
    decreases triples.len(),
{
    if triples.len() > 0 {
        lemma_candidates_join_kept(triples.drop_last(), kept, first_slot);
        let t = triples.last();
        lemma_slot_of_kept(kept, t.src@, first_slot);
        lemma_slot_of_kept(kept, t.tgt@, first_slot);
        let rest = edge_candidates(triples.drop_last(), kept, first_slot);
        let c = edge_candidates(triples, kept, first_slot);
        assert forall|j: int| 0 <= j < c.len() implies {
            let e = #[trigger] c[j];
            &&& first_slot <= e.source_slot < first_slot + kept.len()
            &&& first_slot <= e.target_slot < first_slot + kept.len()
        } by {
            if j < rest.len() {
                assert(c[j] == rest[j]);
            }
        }
    }
}

/// Some type node of `r` sits at `slot`.
pub open spec fn sends_slot(r: MetaGraphMeta, slot: u32) -> bool {
    exists|a: int| 0 <= a < r.nodes@.len() && #[trigger] r.nodes@[a].slot == slot
}

/// Every link the meta-graph sends joins two type nodes it sends: a link
/// whose endpoint type was cut by the bound would be an index into nothing.
pub proof fn lemma_links_join_sent_types(
    types: Seq<TypeEntry>,
    triples: Seq<ConnectivityTriple>,
    node_count: u64,
    edge_count: u64,
    first_slot: u32,
    p: Seq<int>,
    q: Seq<int>,
    r: MetaGraphMeta,
)
    requires
        first_slot + types.len() <= u32::MAX + 1,
        meta_graph_via(types, triples, node_count, edge_count, first_slot, p, q, r),
    ensures
        forall|j: int|
            0 <= j < r.edges@.len() ==> sends_slot(r, (#[trigger] r.edges@[j]).source_slot)
                && sends_slot(r, r.edges@[j].target_slot),
{
    let sorted = reorder(types, p);
    let n = r.nodes@.len() as int;
    let kept = sorted.take(n);
    let cands = edge_candidates(triples, kept, first_slot);
    lemma_candidates_join_kept(triples, kept, first_slot);
    assert forall|j: int| 0 <= j < r.edges@.len() implies sends_slot(
        r,
        (#[trigger] r.edges@[j]).source_slot,
    ) && sends_slot(r, r.edges@[j].target_slot) by {
        let ranked_edges = reorder(cands, q);
        assert(r.edges@[j] == ranked_edges[j]);
        let e = cands[q[j]];
        assert(0 <= q[j] < cands.len());
        assert(first_slot <= e.source_slot < first_slot + kept.len());
        let a = e.source_slot - first_slot;
        let b = e.target_slot - first_slot;
        assert(node_for(r.nodes@[a], kept[a], first_slot + a));
        assert(node_for(r.nodes@[b], kept[b], first_slot + b));
    }
}

/// kglite's four capability facts of a type, from what its configs hold:
/// a time-series config; a spatial config naming a geometry or shapes; a
/// location or points, or else a property declared as `point` (in any ASCII
/// case); an embedding store for the type.
pub open spec fn spec_capability_facts(
    has_timeseries: bool,
    spatial: Option<(bool, usize, bool, usize)>,
    property_types: Option<Seq<Seq<char>>>,
    embedding_types: Seq<Seq<char>>,
    node_type: Seq<char>,
) -> (bool, bool, bool, bool) {
    let located = match spatial {
        Some(f) => f.0 || f.1 > 0,
        None => false,
    };
    let geometry = match spatial {
        Some(f) => f.2 || f.3 > 0,
        None => false,
    };
    let point_property = has_point_property(property_types);
    let embedded = exists|i: int| 0 <= i < embedding_types.len() && #[trigger] embedding_types[i] == node_type;
    (has_timeseries, geometry, located || point_property, embedded)
}

/// One of `ts` is `point`, in any ASCII case.
pub open spec fn names_point(ts: Seq<Seq<char>>) -> bool {
    exists|i: int| 0 <= i < ts.len() && same_ignoring_ascii_case(#[trigger] ts[i], "point"@)
}

/// Some property is declared as `point`, in any ASCII case.
pub open spec fn has_point_property(property_types: Option<Seq<Seq<char>>>) -> bool {
    match property_types {
        Some(ts) => names_point(ts),
        None => false,
    }
}

pub open spec fn optional_texts(v: Option<Vec<String>>) -> Option<Seq<Seq<char>>> {
    match v {
        Some(v) => Some(texts(v@)),
        None => None,
    }
}

pub open spec fn texts(v: Seq<String>) -> Seq<Seq<char>> {
    v.map_values(|s: String| s@)
}

/// The capability facts of `node_type`, as `(time series, geometry,
/// location, embeddings)`.
#[verifier::loop_isolation(false)]
pub fn capability_facts(
    has_timeseries: bool,
    spatial: Option<(bool, usize, bool, usize)>,
    property_types: &Option<Vec<String>>,
    embedding_types: &Vec<String>,
    node_type: &str,
) -> (r: (bool, bool, bool, bool))
    ensures
        r == spec_capability_facts(
            has_timeseries,
            spatial,
            optional_texts(*property_types),
            texts(embedding_types@),
            node_type@,
        ),
{
    let (mut located, geometry) = match spatial {
        Some(f) => (f.0 || f.1 > 0, f.2 || f.3 > 0),
        None => (false, false),
    };
    let ghost point_property = has_point_property(optional_texts(*property_types));
    let ghost located0 = located;
    if !located {
        match property_types {
            Some(types) => {
                let mut i: usize = 0;
                while i < types.len() && !located
                    invariant
                        i <= types@.len(),
                        located <==> exists|j: int|
                            0 <= j < i && same_ignoring_ascii_case(#[trigger] texts(types@)[j], "point"@),
                    decreases types@.len() - i,
                {
                    if eq_ignore_ascii_case(types[i].as_str(), "point") {
                        located = true;
                    }
                    assert(texts(types@)[i as int] == types@[i as int]@);
                    i = i + 1;
                }
                assert(optional_texts(*property_types) == Some(texts(types@)));
                assert(located == point_property);
            },
            None => {},
        }
    }
    let mut embedded = false;
    let mut k: usize = 0;
    while k < embedding_types.len() && !embedded
        invariant
            k <= embedding_types@.len(),
            embedded <==> exists|j: int| 0 <= j < k && #[trigger] texts(embedding_types@)[j] == node_type@,
        decreases embedding_types@.len() - k,
    {
        assert(texts(embedding_types@)[k as int] == embedding_types@[k as int]@);
        if text_order(embedding_types[k].as_str(), node_type) == 0 {
            embedded = true;
        }
        k = k + 1;
    }
    let ghost expected = spec_capability_facts(
        has_timeseries,
        spatial,
        optional_texts(*property_types),
        texts(embedding_types@),
        node_type@,
    );
    assert(located == (located0 || point_property));
    (has_timeseries, geometry, located, embedded)
}

/// kglite's four capability facts of one type, read from the three config
/// maps and the embedding stores the engine maintains: no node is read.
fn capabilities_for(graph: &DirGraph, node_type: &str) -> (r: (bool, bool, bool, bool))
    ensures
        r == held_capabilities(*graph, node_type@),
{
    broadcast use vstd::seq_lib::group_to_multiset_ensures;

    let ts = has_timeseries_config(graph, node_type);
    let spatial = spatial_config_facts(graph, node_type);
    let props = property_type_names(graph, node_type);
    let emb = embedding_node_types(graph);
    let r = capability_facts(ts, spatial, &props, &emb, node_type);
    proof {
        let nt = node_type@;
        let e = texts(emb@);
        assert(e == text_views(emb@));
        assert((exists|i: int| 0 <= i < e.len() && #[trigger] e[i] == nt) == e.contains(nt));
        match props {
            Some(v) => {
                let ts2 = texts(v@);
                assert(ts2 == text_views(v@));
                let m = property_types_held(*graph)[nt];
                if names_point(ts2) {
                    let i = choose|i: int| 0 <= i < ts2.len() && same_ignoring_ascii_case(#[trigger] ts2[i], "point"@);
                    assert(ts2.contains(ts2[i]));
                    assert(m.contains(ts2[i]));
                }
                if exists|t: Seq<char>| #[trigger] m.contains(t) && same_ignoring_ascii_case(t, "point"@) {
                    let t = choose|t: Seq<char>| #[trigger] m.contains(t) && same_ignoring_ascii_case(t, "point"@);
                    assert(ts2.contains(t));
                    let i = choose|i: int| 0 <= i < ts2.len() && ts2[i] == t;
                    assert(same_ignoring_ascii_case(ts2[i], "point"@));
                }
            },
            None => {},
        }
    }
    r
}

/// The four capability facts of `node_type` from what the graph holds:
/// `(time series, geometry, location, embeddings)`.
pub open spec fn held_capabilities(graph: DirGraph, nt: Seq<char>) -> (bool, bool, bool, bool) {
    let spatial = spatial_held(graph);
    let located = spatial.contains_key(nt) && (spatial[nt].0 || spatial[nt].1 > 0);
    let geometry = spatial.contains_key(nt) && (spatial[nt].2 || spatial[nt].3 > 0);
    let point_property = property_types_held(graph).contains_key(nt) && exists|t: Seq<char>|
        #[trigger] property_types_held(graph)[nt].contains(t) && same_ignoring_ascii_case(t, "point"@);
    (
        timeseries_types_held(graph).contains(nt),
        geometry,
        located || point_property,
        embedding_types_held(graph).contains(nt),
    )
}

/// `types` are the type index's entries, in some order, each with its name,
/// its member count (as `u32`) and whether the type has a parent.
pub open spec fn entry_pairs_match(graph: DirGraph, types: Seq<TypeEntry>, counts: Seq<(String, usize)>) -> bool {
    &&& pair_views(counts).to_multiset() == type_index_held(graph)
    &&& types.len() == counts.len()
    &&& forall|i: int|
        0 <= i < types.len() ==> (#[trigger] types[i]).name@ == counts[i].0@ && types[i].count
            == counts[i].1 as u32 && types[i].supporting == parent_types_held(graph).contains(
            types[i].name@,
        ) && (types[i].has_timeseries, types[i].has_geometry, types[i].has_location, types[i].has_embeddings)
            == held_capabilities(graph, types[i].name@)
}

/// `types` were read from the graph's type index and parent types.
pub open spec fn entries_read_from(graph: DirGraph, types: Seq<TypeEntry>) -> bool {
    exists|counts: Seq<(String, usize)>| #[trigger] entry_pairs_match(graph, types, counts)
}

/// Every node type of the graph as the meta-graph reads it: name, member
/// count (reported as `u32`), whether it has a parent type, and its
/// capability facts; in the store's own order.
fn type_entries(graph: &DirGraph) -> (r: Vec<TypeEntry>)
    ensures
        entries_read_from(*graph, r@),
{
    let counts = type_index_counts(graph);
    let mut out: Vec<TypeEntry> = Vec::new();
    let mut i: usize = 0;
    while i < counts.len()
        invariant
            i <= counts@.len(),
            out@.len() == i,
            forall|j: int|
                0 <= j < i ==> (#[trigger] out@[j]).name@ == counts@[j].0@ && out@[j].count
                    == counts@[j].1 as u32 && out@[j].supporting == parent_types_held(*graph).contains(
                    out@[j].name@,
                ) && (out@[j].has_timeseries, out@[j].has_geometry, out@[j].has_location, out@[j].has_embeddings)
                    == held_capabilities(*graph, out@[j].name@),
        decreases counts@.len() - i,
    {
        let name = counts[i].0.as_str();
        let (ts, geo, loc, emb) = capabilities_for(graph, name);
        out.push(
            TypeEntry {
                name: name.to_owned(),
                count: counts[i].1 as u32,
                supporting: has_parent_type(graph, name),
                has_timeseries: ts,
                has_geometry: geo,
                has_location: loc,
                has_embeddings: emb,
            },
        );
        i = i + 1;
    }
    assert(pair_views(counts@).to_multiset() == type_index_held(
        *graph,
    ));
    assert(entry_pairs_match(*graph, out@, counts@));
    out
}

fn type_names_fit(types: &Vec<TypeEntry>) -> (r: bool)
    ensures
        r == forall|i: int|
            0 <= i < types@.len() ==> encode_utf8(#[trigger] types@[i].name@).len() + 96 <= usize::MAX,
{
    let mut i: usize = 0;
    while i < types.len()
        invariant
            i <= types@.len(),
            forall|j: int| 0 <= j < i ==> encode_utf8(#[trigger] types@[j].name@).len() + 96 <= usize::MAX,
        decreases types@.len() - i,
    {
        if types[i].name.as_str().as_bytes().len() > usize::MAX - 96 {
            return false;
        }
        i = i + 1;
    }
    true
}

fn relationship_names_fit(triples: &Vec<ConnectivityTriple>) -> (r: bool)
    ensures
        r == forall|i: int|
            0 <= i < triples@.len() ==> encode_utf8(#[trigger] triples@[i].conn@).len() + 64 <= usize::MAX,
{
    let mut i: usize = 0;
    while i < triples.len()
        invariant
            i <= triples@.len(),
            forall|j: int| 0 <= j < i ==> encode_utf8(#[trigger] triples@[j].conn@).len() + 64 <= usize::MAX,
        decreases triples@.len() - i,
    {
        if triples[i].conn.as_str().as_bytes().len() > usize::MAX - 64 {
            return false;
        }
        i = i + 1;
    }
    true
}

/// Why `compute` gives no meta-graph: the graph has more node types than
/// slots remain after `first_slot`, or a type or relationship name too long
/// to be measured.
pub open spec fn compute_refused(graph: DirGraph, first_slot: u32) -> bool {
    ||| type_index_held(graph).len() + first_slot > 4294967296
    ||| exists|p: (Seq<char>, usize)|
        #[trigger] type_index_held(graph).contains(p) && encode_utf8(p.0).len() + 96 > usize::MAX
    ||| exists|t: (Seq<char>, Seq<char>, Seq<char>, u64)|
        #[trigger] connectivity_held(graph).contains(t) && encode_utf8(t.1).len() + 64 > usize::MAX
}

/// Read through the type index and the connectivity cache, the refusal of
/// `compute` is exactly the checks it makes on what it read.
proof fn lemma_reads_decide_refusal(
    graph: DirGraph,
    types: Seq<TypeEntry>,
    triples: Seq<ConnectivityTriple>,
    first_slot: u32,
)
    requires
        entries_read_from(graph, types),
        triples.map_values(|t: ConnectivityTriple| triple_view(t)).to_multiset() == connectivity_held(
            graph,
        ),
    ensures
        type_index_held(graph).len() == types.len(),
        compute_refused(graph, first_slot) <==> (types.len() + first_slot > 4294967296 || !(forall|
            i: int,
        |
            0 <= i < types.len() ==> encode_utf8(#[trigger] types[i].name@).len() + 96 <= usize::MAX)
            || !(forall|i: int|
            0 <= i < triples.len() ==> encode_utf8(#[trigger] triples[i].conn@).len() + 64
                <= usize::MAX)),
{
    broadcast use vstd::seq_lib::group_to_multiset_ensures;

    let counts = choose|counts: Seq<(String, usize)>| #[trigger] entry_pairs_match(graph, types, counts);
    let pairs = pair_views(counts);
    let views = triples.map_values(|t: ConnectivityTriple| triple_view(t));
    assert(pairs.to_multiset().len() == pairs.len());
    let long_type = exists|p: (Seq<char>, usize)|
        #[trigger] type_index_held(graph).contains(p) && encode_utf8(p.0).len() + 96 > usize::MAX;
    let long_conn = exists|t: (Seq<char>, Seq<char>, Seq<char>, u64)|
        #[trigger] connectivity_held(graph).contains(t) && encode_utf8(t.1).len() + 64 > usize::MAX;
    if long_type {
        let p = choose|p: (Seq<char>, usize)|
            #[trigger] type_index_held(graph).contains(p) && encode_utf8(p.0).len() + 96 > usize::MAX;
        assert(pairs.contains(p));
        let i = choose|i: int| 0 <= i < pairs.len() && pairs[i] == p;
        assert(types[i].name@ == counts[i].0@);
        assert(encode_utf8(types[i].name@).len() + 96 > usize::MAX);
    }
    if !(forall|i: int|
        0 <= i < types.len() ==> encode_utf8(#[trigger] types[i].name@).len() + 96 <= usize::MAX) {
        let i = choose|i: int|
            0 <= i < types.len() && !(encode_utf8(#[trigger] types[i].name@).len() + 96
                <= usize::MAX);
        assert(types[i].name@ == counts[i].0@);
        assert(pairs[i] == (counts[i].0@, counts[i].1));
        assert(pairs.contains(pairs[i]));
        assert(type_index_held(graph).contains(pairs[i]));
    }
    if long_conn {
        let t = choose|t: (Seq<char>, Seq<char>, Seq<char>, u64)|
            #[trigger] connectivity_held(graph).contains(t) && encode_utf8(t.1).len() + 64 > usize::MAX;
        assert(views.contains(t));
        let i = choose|i: int| 0 <= i < views.len() && views[i] == t;
        assert(encode_utf8(triples[i].conn@).len() + 64 > usize::MAX);
    }
    if !(forall|i: int|
        0 <= i < triples.len() ==> encode_utf8(#[trigger] triples[i].conn@).len() + 64
            <= usize::MAX) {
        let i = choose|i: int|
            0 <= i < triples.len() && !(encode_utf8(#[trigger] triples[i].conn@).len() + 64
                <= usize::MAX);
        assert(views[i] == triple_view(triples[i]));
        assert(views.contains(views[i]));
        assert(connectivity_held(graph).contains(views[i]));
    }
}

/// Computes the meta-graph of a loaded graph: its node types from the
/// persisted type index, its links from the persisted connectivity cache
/// (never the scan over every edge), its totals from the graph's own
/// counters. The kept types get slots from `first_slot` on.
///
/// `None` only where the slots would run past `u32::MAX` or a name is too
/// long to be measured, neither of which a graph that fits in memory has.
pub fn compute(graph: &DirGraph, first_slot: u32) -> (r: Option<MetaGraphMeta>)
    ensures
        r is None <==> compute_refused(*graph, first_slot),
        r matches Some(m) ==> exists|
            types: Seq<TypeEntry>,
            triples: Seq<ConnectivityTriple>,
            node_count: u64,
            edge_count: u64,
            p: Seq<int>,
            q: Seq<int>,
        |
            entries_read_from(*graph, types) && node_count == node_total(*graph) && edge_count
                == edge_total(*graph) && triples.map_values(
                |t: ConnectivityTriple| triple_view(t),
            ).to_multiset() == connectivity_held(*graph) && meta_graph_via(
                types,
                triples,
                node_count,
                edge_count,
                first_slot,
                p,
                q,
                m,
            ),
{
    let types = type_entries(graph);
    let triples = type_connectivity(graph);
    let node_count = graph_node_count(graph) as u64;
    let edge_count = graph_edge_count(graph) as u64;
    proof {
        lemma_reads_decide_refusal(*graph, types@, triples@, first_slot);
    }
    if types.len() as u64 > 4294967296u64 - first_slot as u64 {
        return None;
    }
    if !type_names_fit(&types) || !relationship_names_fit(&triples) {
        return None;
    }
    Some(compute_from(&types, &triples, node_count, edge_count, first_slot))
}

/// The meta-graph is small whatever sits underneath: at most the tier's
/// type count and `MAX_META_LINKS` links, each list within `MAX_META_BYTES`
/// unless it is a single oversized entry, and each bound reports truncation
/// exactly when it sent fewer than there were.
pub proof fn lemma_meta_graph_is_bounded(
    types: Seq<TypeEntry>,
    triples: Seq<ConnectivityTriple>,
    node_count: u64,
    edge_count: u64,
    first_slot: u32,
    p: Seq<int>,
    q: Seq<int>,
    r: MetaGraphMeta,
)
    requires
        meta_graph_via(types, triples, node_count, edge_count, first_slot, p, q, r),
        types.len() <= usize::MAX,
        triples.len() <= usize::MAX,
    ensures
        r.nodes@.len() <= spec_node_bound(r.tier).max_items,
        r.nodes@.len() <= types.len(),
        r.edges@.len() <= MAX_META_LINKS,
        prefix_sum(type_sizes(reorder(types, p)), r.nodes@.len() as int) <= MAX_META_BYTES
            || r.nodes@.len() == 1,
        r.node_bound.truncated <==> r.nodes@.len() < types.len(),
        r.edge_bound.truncated <==> r.edges@.len() < edge_candidates(
            triples,
            reorder(types, p).take(r.nodes@.len() as int),
            first_slot,
        ).len(),
{
    let sorted = reorder(types, p);
    assert(type_sizes(sorted).len() == types.len());
    lemma_candidates_fewer(triples, sorted.take(r.nodes@.len() as int), first_slot);
}

proof fn lemma_candidates_fewer(triples: Seq<ConnectivityTriple>, kept: Seq<TypeEntry>, first_slot: u32)
    ensures
        edge_candidates(triples, kept, first_slot).len() <= triples.len(),
    decreases triples.len(),
{
    if triples.len() > 0 {
        lemma_candidates_fewer(triples.drop_last(), kept, first_slot);
    }
}

} // verus!
