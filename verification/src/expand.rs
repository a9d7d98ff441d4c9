//! Bounded neighbourhood expansion, and the preview that makes the bound an
//! informed choice.
//!
//! Every selection can be asked what an expansion would add, per
//! relationship type and direction, before anything is fetched. The bound is
//! enforced here: [`effective_bound`] is the single choke point every
//! expansion goes through, and it clamps.
use std::collections::HashSet;
use std::time::Instant;

use vstd::prelude::*;
use vstd::utf8::encode_utf8;

use kglite::api::DirGraph;

use crate::bound::{Bound, BoundInfo};
use crate::graph_reads::{
    connectivity_held, count_edges_filtered, filtered_edge_count, named_peers_held, peer_name_views,
    peers_all, peers_held, peers_named, triple_view, type_connectivity,
};
use crate::request::EdgeDirection;
use crate::text::{lemma_lex_order, lex_lt, text_order};

verus! {

/// Hard ceiling on nodes one expansion may add.
pub const MAX_EXPANSION_NODES: usize = 5000;

/// Hard ceiling on the serialized size of one expansion, nodes and links
/// together, in one budget.
pub const MAX_EXPANSION_BYTES: usize = 2097152;

/// Nodes returned when a client names no limit.
pub const DEFAULT_EXPANSION_NODES: usize = 1000;

/// Serialized-size estimate for one node in a slice: its title, its type
/// name and the JSON around them.
pub fn slice_node_bytes(title: &str, node_type: &str) -> (r: usize)
    requires
        encode_utf8(title@).len() + encode_utf8(node_type@).len() + 96 <= usize::MAX,
    ensures
        r == encode_utf8(title@).len() + encode_utf8(node_type@).len() + 96,
{
    title.as_bytes().len() + node_type.as_bytes().len() + 96
}

/// Serialized-size estimate for one link in a slice: its relationship name
/// and the slots and flag around it.
pub fn slice_link_bytes(name: &str) -> (r: usize)
    requires
        encode_utf8(name@).len() + 64 <= usize::MAX,
    ensures
        r == encode_utf8(name@).len() + 64,
{
    name.as_bytes().len() + 64
}

/// The node count an expansion runs under for a requested limit: the
/// request, or the default where there is none, never above the ceiling.
pub open spec fn spec_bound_items(requested: Option<u32>) -> int {
    let asked: int = match requested {
        Some(n) => n as int,
        None => DEFAULT_EXPANSION_NODES as int,
    };
    if asked < MAX_EXPANSION_NODES {
        asked
    } else {
        MAX_EXPANSION_NODES as int
    }
}

/// The bound one expansion actually runs under. It is total: no request,
/// `None` and `Some(u32::MAX)` included, gets a bound above the ceilings.
pub fn effective_bound(requested: Option<u32>) -> (b: Bound)
    ensures
        b.max_items == spec_bound_items(requested),
        b.max_bytes == MAX_EXPANSION_BYTES,
        b.max_items <= MAX_EXPANSION_NODES,
{
    let asked: usize = match requested {
        Some(n) => n as usize,
        None => DEFAULT_EXPANSION_NODES,
    };
    let items = if asked < MAX_EXPANSION_NODES {
        asked
    } else {
        MAX_EXPANSION_NODES
    };
    Bound { max_items: items, max_bytes: MAX_EXPANSION_BYTES }
}

/// Where a preview's counts came from.
#[derive(Debug, Clone, Copy, PartialEq, Eq, Structural)]
pub enum PreviewScope {
    /// Every node of a type, from the persisted cardinality cache.
    Type,
    /// One node's own edges, counted directly.
    Node,
}

/// What expanding one relationship type would add: edges of one
/// (relationship, direction, far type) triple, an upper bound on the nodes.
#[derive(Debug, Clone)]
pub struct RelationshipPreview {
    pub name: String,
    pub direction: EdgeDirection,
    pub other_type: String,
    pub count: u32,
}

/// The answer to "what would expanding this add?".
#[derive(Debug, Clone)]
pub struct ExpansionPreview {
    pub protocol_version: u32,
    pub slot: u32,
    pub scope: PreviewScope,
    pub node_type: String,
    pub title: String,
    pub relationships: Vec<RelationshipPreview>,
    pub total_edges: u32,
    pub max_nodes: u32,
}

/// One entry of the graph's type connectivity: `count` relations named
/// `conn` run from nodes of type `src` to nodes of type `tgt`.
#[derive(Debug, Clone)]
pub struct ConnectivityTriple {
    pub src: String,
    pub conn: String,
    pub tgt: String,
    pub count: u64,
}

/// `x` is drawn before `y`: larger count first, then name, then far type.
pub open spec fn preview_before(x: RelationshipPreview, y: RelationshipPreview) -> bool {
    ||| x.count > y.count
    ||| x.count == y.count && lex_lt(x.name@, y.name@)
    ||| x.count == y.count && x.name@ == y.name@ && lex_lt(x.other_type@, y.other_type@)
}

/// `x` and `y` tie in the drawing order.
pub open spec fn same_preview_key(x: RelationshipPreview, y: RelationshipPreview) -> bool {
    x.count == y.count && x.name@ == y.name@ && x.other_type@ == y.other_type@
}

proof fn lemma_preview_order(x: RelationshipPreview, y: RelationshipPreview, z: RelationshipPreview)
    ensures
        !preview_before(x, x),
        preview_before(x, y) ==> !preview_before(y, x),
        preview_before(x, y) && preview_before(y, z) ==> preview_before(x, z),
        preview_before(x, y) || preview_before(y, x) || same_preview_key(x, y),
        same_preview_key(x, y) ==> !preview_before(x, y),
        preview_before(x, y) && same_preview_key(y, z) ==> preview_before(x, z),
        same_preview_key(x, y) && preview_before(y, z) ==> preview_before(x, z),
{
    lemma_lex_order(x.name@, y.name@, z.name@);
    lemma_lex_order(x.other_type@, y.other_type@, z.other_type@);
    lemma_lex_order(y.name@, x.name@, z.name@);
    lemma_lex_order(y.other_type@, x.other_type@, z.other_type@);
    lemma_lex_order(x.name@, z.name@, y.name@);
    lemma_lex_order(x.other_type@, z.other_type@, y.other_type@);
}

/// `r` is `s` reordered through `p` (`r[k]` is `s[p[k]]`), drawn in order,
/// with ties kept in their order in `s`.
pub open spec fn stably_ordered(
    s: Seq<RelationshipPreview>,
    r: Seq<RelationshipPreview>,
    p: Seq<int>,
) -> bool {
    &&& r.len() == s.len()
    &&& p.len() == s.len()
    &&& forall|k: int| 0 <= k < r.len() ==> 0 <= #[trigger] p[k] < s.len() && r[k] == s[p[k]]
    &&& forall|k: int, l: int| 0 <= k < l < r.len() ==> #[trigger] p[k] != #[trigger] p[l]
    &&& forall|k: int, l: int|
        0 <= k < l < r.len() ==> preview_before(#[trigger] r[k], #[trigger] r[l]) || (
        same_preview_key(r[k], r[l]) && p[k] < p[l])
}

fn preview_precedes(x: &RelationshipPreview, y: &RelationshipPreview) -> (r: bool)
    ensures
        r == preview_before(*x, *y),
{
    if x.count != y.count {
        return x.count > y.count;
    }
    let by_name = text_order(x.name.as_str(), y.name.as_str());
    if by_name != 0 {
        return by_name < 0;
    }
    text_order(x.other_type.as_str(), y.other_type.as_str()) < 0
}

fn clone_preview(x: &RelationshipPreview) -> (r: RelationshipPreview)
    ensures
        r == *x,
{
    RelationshipPreview {
        name: x.name.clone(),
        direction: x.direction,
        other_type: x.other_type.clone(),
        count: x.count,
    }
}

/// Sorts previews largest first, name then far type breaking ties; entries
/// that tie keep their order. The order is what the expand buttons are drawn
/// from, so it never depends on how the counts were gathered.
#[verifier::loop_isolation(false)]
pub fn sort_previews(previews: &mut Vec<RelationshipPreview>)
    ensures
        exists|p: Seq<int>| stably_ordered(old(previews)@, final(previews)@, p),
{
    let ghost s = previews@;
    let mut out: Vec<RelationshipPreview> = Vec::new();
    let ghost mut p: Seq<int> = Seq::empty();
    let mut i: usize = 0;
    while i < previews.len()
        invariant
            previews@ == s,
            i <= s.len(),
            stably_ordered(s.subrange(0, i as int), out@, p),
        decreases s.len() - i,
    {
        let x = clone_preview(&previews[i]);
        let mut pos: usize = out.len();
        while pos > 0 && preview_precedes(&x, &out[pos - 1])
            invariant
                pos <= out@.len(),
                forall|l: int| pos <= l < out@.len() ==> preview_before(x, #[trigger] out@[l]),
            decreases pos,
        {
            pos = pos - 1;
        }
        let ghost old_out = out@;
        let ghost old_p = p;
        proof {
            if pos > 0 {
                assert(!preview_before(x, old_out[pos - 1]));
                assert forall|k: int| 0 <= k < pos implies !preview_before(x, #[trigger] old_out[k]) by {
                    if k < pos - 1 {
                        lemma_preview_order(x, old_out[k], old_out[pos - 1]);
                        lemma_preview_order(old_out[k], old_out[pos - 1], x);
                    }
                }
            }
        }
        out.insert(pos, x);
        proof {
            p = old_p.insert(pos as int, i as int);
            let s2 = s.subrange(0, i + 1);
            assert(s2[i as int] == x);
            assert forall|k: int| 0 <= k < out@.len() implies 0 <= #[trigger] p[k] < s2.len()
                && out@[k] == s2[p[k]] by {
                if k < pos {
                    assert(out@[k] == old_out[k]);
                } else if k > pos {
                    assert(out@[k] == old_out[k - 1]);
                }
            }
            assert forall|k: int, l: int| 0 <= k < l < out@.len() implies #[trigger] p[k]
                != #[trigger] p[l] by {
                if k != pos && l != pos {
                    let k0 = if k < pos { k } else { k - 1 };
                    let l0 = if l < pos { l } else { l - 1 };
                    assert(old_p[k0] != old_p[l0]);
                }
            }
            assert forall|k: int, l: int| 0 <= k < l < out@.len() implies preview_before(
                #[trigger] out@[k],
                #[trigger] out@[l],
            ) || (same_preview_key(out@[k], out@[l]) && p[k] < p[l]) by {
                if k == pos {
                    assert(out@[l] == old_out[l - 1]);
                } else if l == pos {
                    assert(out@[k] == old_out[k]);
                    assert(!preview_before(x, old_out[k]));
                    lemma_preview_order(old_out[k], x, x);
                } else {
                    let k0 = if k < pos { k } else { k - 1 };
                    let l0 = if l < pos { l } else { l - 1 };
                    assert(out@[k] == old_out[k0]);
                    assert(out@[l] == old_out[l0]);
                }
            }
            assert(stably_ordered(s2, out@, p));
        }
        i = i + 1;
    }
    assert(s.subrange(0, s.len() as int) =~= s);
    *previews = out;
}


/// The previews a type's connectivity offers, before sorting: for each
/// triple with edges, one `out` entry where the type is the source and one
/// `in` entry where it is the target.
pub open spec fn type_candidates(triples: Seq<ConnectivityTriple>, node_type: Seq<char>) -> Seq<
    RelationshipPreview,
>
    decreases triples.len(),
{
    if triples.len() == 0 {
        Seq::empty()
    } else {
        let rest = type_candidates(triples.drop_last(), node_type);
        let t = triples.last();
        if t.count == 0 {
            rest
        } else {
            let outgoing: Seq<RelationshipPreview> = if t.src@ == node_type {
                seq![
                    RelationshipPreview {
                        name: t.conn,
                        direction: EdgeDirection::Out,
                        other_type: t.tgt,
                        count: t.count as u32,
                    },
                ]
            } else {
                Seq::empty()
            };
            let incoming: Seq<RelationshipPreview> = if t.tgt@ == node_type {
                seq![
                    RelationshipPreview {
                        name: t.conn,
                        direction: EdgeDirection::In,
                        other_type: t.src,
                        count: t.count as u32,
                    },
                ]
            } else {
                Seq::empty()
            };
            rest + outgoing + incoming
        }
    }
}

/// Per-relationship counts for every node of `node_type`, from the graph's
/// type connectivity, largest first. Triples without edges offer nothing.
pub fn previews_from_connectivity(triples: &Vec<ConnectivityTriple>, node_type: &str) -> (r: Vec<
    RelationshipPreview,
>)
    ensures
        exists|p: Seq<int>| stably_ordered(type_candidates(triples@, node_type@), r@, p),
{
    let mut out: Vec<RelationshipPreview> = Vec::new();
    let mut i: usize = 0;
    while i < triples.len()
        invariant
            i <= triples@.len(),
            out@ == type_candidates(triples@.subrange(0, i as int), node_type@),
        decreases triples@.len() - i,
    {
        let t = &triples[i];
        let ghost before = out@;
        let ghost prefix = triples@.subrange(0, i + 1);
        assert(prefix.drop_last() =~= triples@.subrange(0, i as int));
        assert(prefix.last() == triples@[i as int]);
        if t.count != 0 {
            if crate::export::str_eq(t.src.as_str(), node_type) {
                out.push(
                    RelationshipPreview {
                        name: t.conn.clone(),
                        direction: EdgeDirection::Out,
                        other_type: t.tgt.clone(),
                        count: t.count as u32,
                    },
                );
            }
            if crate::export::str_eq(t.tgt.as_str(), node_type) {
                out.push(
                    RelationshipPreview {
                        name: t.conn.clone(),
                        direction: EdgeDirection::In,
                        other_type: t.src.clone(),
                        count: t.count as u32,
                    },
                );
            }
        }
        proof {
            let outgoing: Seq<RelationshipPreview> = if t.src@ == node_type@ {
                seq![
                    RelationshipPreview {
                        name: t.conn,
                        direction: EdgeDirection::Out,
                        other_type: t.tgt,
                        count: t.count as u32,
                    },
                ]
            } else {
                Seq::empty()
            };
            let incoming: Seq<RelationshipPreview> = if t.tgt@ == node_type@ {
                seq![
                    RelationshipPreview {
                        name: t.conn,
                        direction: EdgeDirection::In,
                        other_type: t.src,
                        count: t.count as u32,
                    },
                ]
            } else {
                Seq::empty()
            };
            if t.count != 0 {
                assert(out@ =~= before + outgoing + incoming);
            }
        }
        i = i + 1;
    }
    assert(triples@.subrange(0, triples@.len() as int) =~= triples@);
    sort_previews(&mut out);
    out
}

/// The previews one node offers, before sorting: each candidate of its
/// type, with the node's own count, where that count is not zero.
pub open spec fn node_candidates(candidates: Seq<RelationshipPreview>, counts: Seq<u64>) -> Seq<
    RelationshipPreview,
>
    decreases candidates.len(),
{
    if candidates.len() == 0 {
        Seq::empty()
    } else {
        let k = candidates.len() - 1;
        let rest = node_candidates(candidates.drop_last(), counts);
        let c = candidates[k];
        if c.direction == EdgeDirection::Both || counts[k] == 0 {
            rest
        } else {
            rest.push(RelationshipPreview { count: counts[k] as u32, ..c })
        }
    }
}

/// What the engine counts on `node` for candidate `c`: its edges along the
/// candidate's direction with the candidate's relationship and far type
/// (nothing is counted for a candidate in both directions).
pub open spec fn edge_count_for(graph: DirGraph, node: u32, c: RelationshipPreview) -> u64 {
    match c.direction {
        EdgeDirection::Out => filtered_edge_count(graph, node, true, c.name@, c.other_type@) as u64,
        EdgeDirection::In => filtered_edge_count(graph, node, false, c.name@, c.other_type@) as u64,
        EdgeDirection::Both => 0,
    }
}

/// Per-relationship counts for one node: the candidates its type offers,
/// each with `counts[i]`, the node's own edges of candidate `i` in its
/// direction, dropping those it has none of; largest first.
pub fn previews_with_counts(candidates: Vec<RelationshipPreview>, counts: &Vec<u64>) -> (r: Vec<
    RelationshipPreview,
>)
    requires
        counts@.len() == candidates@.len(),
    ensures
        exists|p: Seq<int>| stably_ordered(node_candidates(candidates@, counts@), r@, p),
{
    let mut out: Vec<RelationshipPreview> = Vec::new();
    let mut i: usize = 0;
    while i < candidates.len()
        invariant
            i <= candidates@.len(),
            counts@.len() == candidates@.len(),
            out@ == node_candidates(candidates@.subrange(0, i as int), counts@),
        decreases candidates@.len() - i,
    {
        let c = &candidates[i];
        let ghost prefix = candidates@.subrange(0, i + 1);
        assert(prefix.drop_last() =~= candidates@.subrange(0, i as int));
        assert(prefix[i as int] == candidates@[i as int]);
        let skip = match c.direction {
            EdgeDirection::Both => true,
            _ => false,
        };
        if !skip && counts[i] != 0 {
            out.push(
                RelationshipPreview {
                    name: c.name.clone(),
                    direction: c.direction,
                    other_type: c.other_type.clone(),
                    count: counts[i] as u32,
                },
            );
        }
        i = i + 1;
    }
    assert(candidates@.subrange(0, candidates@.len() as int) =~= candidates@);
    sort_previews(&mut out);
    out
}

/// Per-relationship counts for every node of `node_type`, read from the
/// graph's type connectivity cache rather than from a walk over the type's
/// edges; largest first, triples without edges left out.
pub fn preview_for_type(graph: &DirGraph, node_type: &str) -> (r: Vec<RelationshipPreview>)
    ensures
        exists|triples: Seq<ConnectivityTriple>, p: Seq<int>|
            triples.map_values(|t: ConnectivityTriple| triple_view(t)).to_multiset() == connectivity_held(
                *graph,
            ) && stably_ordered(type_candidates(triples, node_type@), r@, p),
{
    let triples = type_connectivity(graph);
    previews_from_connectivity(&triples, node_type)
}

/// Per-relationship counts for one node: its type's candidates, each
/// counted on the node itself along the candidate's direction, relationship
/// and far type; a count the engine cannot give is taken as none. Largest
/// first, relationships the node has no edge of left out.
pub fn preview_for_node(graph: &DirGraph, node: u32, node_type: &str, deadline: Option<Instant>) -> (r:
    Vec<RelationshipPreview>)
    ensures
        exists|triples: Seq<ConnectivityTriple>, candidates: Seq<RelationshipPreview>, counts: Seq<
            u64,
        >, p: Seq<int>, p2: Seq<int>|
            triples.map_values(|t: ConnectivityTriple| triple_view(t)).to_multiset() == connectivity_held(
                *graph,
            ) && stably_ordered(type_candidates(triples, node_type@), candidates, p2)
                && counts.len() == candidates.len() && (forall|i: int|
                0 <= i < counts.len() ==> #[trigger] counts[i] == edge_count_for(*graph, node, candidates[i])
                    || (deadline is Some && counts[i] == 0)) && stably_ordered(
                node_candidates(candidates, counts),
                r@,
                p,
            ),
{
    let candidates = preview_for_type(graph, node_type);
    let mut counts: Vec<u64> = Vec::new();
    let mut i: usize = 0;
    while i < candidates.len()
        invariant
            i <= candidates@.len(),
            counts@.len() == i,
            forall|j: int|
                0 <= j < i ==> #[trigger] counts@[j] == edge_count_for(*graph, node, candidates@[j])
                    || (deadline is Some && counts@[j] == 0),
        decreases candidates@.len() - i,
    {
        let c = &candidates[i];
        let found = match c.direction {
            EdgeDirection::Out => count_edges_filtered(
                graph,
                node,
                true,
                c.name.as_str(),
                c.other_type.as_str(),
                deadline,
            ),
            EdgeDirection::In => count_edges_filtered(
                graph,
                node,
                false,
                c.name.as_str(),
                c.other_type.as_str(),
                deadline,
            ),
            EdgeDirection::Both => None,
        };
        let count: u64 = match found {
            Some(n) => n as u64,
            None => 0,
        };
        counts.push(count);
        i = i + 1;
    }
    previews_with_counts(candidates, &counts)
}

/// One edge an expansion found, between node identities.
#[derive(Debug, Clone)]
pub struct FoundEdge {
    pub source: u32,
    pub target: u32,
    pub name: String,
}

/// What one expansion found, already bounded.
pub struct Expansion {
    /// Nodes to add, in discovery order, each once.
    pub nodes: Vec<u32>,
    /// Edges among them, sorted and each once. Never references a node
    /// outside `nodes`.
    pub edges: Vec<FoundEdge>,
    /// What the bound did to the node list.
    pub bound: BoundInfo,
    /// What the bound did to the link list. `total` counts every edge the
    /// walk found and refused, an upper bound on the distinct links cut.
    pub link_bound: BoundInfo,
}

/// A peer one walk step found: its identity, its serialized-size estimate
/// and the relationship that reached it.
pub struct PeerFound {
    pub peer: u32,
    pub peer_bytes: usize,
    pub name: String,
}

/// What the graph holds around one seed: its size estimate, and its peers
/// along outgoing and along incoming edges, in the order the graph lists
/// them.
pub struct SeedWalk {
    pub seed: u32,
    pub seed_bytes: usize,
    pub outgoing: Vec<PeerFound>,
    pub incoming: Vec<PeerFound>,
}

/// The key an edge is ordered and deduplicated by.
pub open spec fn edge_key(e: FoundEdge) -> (u32, u32, Seq<char>) {
    (e.source, e.target, e.name@)
}

/// `a` sorts before `b`: by source, then target, then name.
pub open spec fn key_lt(a: (u32, u32, Seq<char>), b: (u32, u32, Seq<char>)) -> bool {
    ||| a.0 < b.0
    ||| a.0 == b.0 && a.1 < b.1
    ||| a.0 == b.0 && a.1 == b.1 && lex_lt(a.2, b.2)
}

proof fn lemma_key_order(a: (u32, u32, Seq<char>), b: (u32, u32, Seq<char>), c: (u32, u32, Seq<char>))
    ensures
        !key_lt(a, a),
        key_lt(a, b) ==> !key_lt(b, a),
        key_lt(a, b) && key_lt(b, c) ==> key_lt(a, c),
        key_lt(a, b) || key_lt(b, a) || a == b,
{
    lemma_lex_order(a.2, b.2, c.2);
}

/// The state of a walk, as values: admitted nodes in order, kept edges by
/// key, bytes charged, nodes reached, whether a node was refused, and how
/// many edges were refused.
#[verifier::ext_equal]
pub struct WalkModel {
    pub nodes: Seq<u32>,
    pub edges: Seq<(u32, u32, Seq<char>)>,
    pub bytes: int,
    pub reachable: Set<u32>,
    pub truncated: bool,
    pub refused: int,
}

/// Counting one more refused edge, saturating at the counter's width.
pub open spec fn one_more(refused: int) -> int {
    if refused < usize::MAX {
        refused + 1
    } else {
        refused
    }
}

/// Admitting node `idx` of `size` bytes: a node already admitted stays; a
/// new one is admitted while the node count and the byte budget allow.
pub open spec fn model_take(m: WalkModel, bound: Bound, idx: u32, size: int) -> (bool, WalkModel) {
    if m.nodes.contains(idx) {
        (true, m)
    } else if m.nodes.len() >= bound.max_items || m.bytes + size > bound.max_bytes {
        (false, m)
    } else {
        (true, WalkModel { nodes: m.nodes.push(idx), bytes: m.bytes + size, ..m })
    }
}

proof fn lemma_take_keeps(m: WalkModel, bound: Bound, idx: u32, size: int)
    ensures
        model_take(m, bound, idx, size).0 ==> model_take(m, bound, idx, size).1.nodes.contains(idx),
        forall|x: u32| m.nodes.contains(x) ==> #[trigger] model_take(m, bound, idx, size).1.nodes.contains(x),
{
    let r = model_take(m, bound, idx, size);
    if !m.nodes.contains(idx) && r.0 {
        assert(r.1.nodes[m.nodes.len() as int] == idx);
        assert forall|x: u32| m.nodes.contains(x) implies #[trigger] r.1.nodes.contains(x) by {
            let q = choose|q: int| 0 <= q < m.nodes.len() && m.nodes[q] == x;
            assert(r.1.nodes[q] == x);
        }
    }
}

proof fn lemma_push_contains<T>(s: Seq<T>, v: T, x: T)
    ensures
        s.push(v).contains(x) == (s.contains(x) || x == v),
{
    if s.contains(x) {
        let q = choose|q: int| 0 <= q < s.len() && s[q] == x;
        assert(s.push(v)[q] == x);
    }
    if x == v {
        assert(s.push(v)[s.len() as int] == x);
    }
    if s.push(v).contains(x) {
        let q = choose|q: int| 0 <= q < s.push(v).len() && s.push(v)[q] == x;
        if q < s.len() {
            assert(s[q] == x);
        }
    }
}

proof fn lemma_insert_contains<T>(s: Seq<T>, pos: int, v: T, x: T)
    requires
        0 <= pos <= s.len(),
    ensures
        s.insert(pos, v).contains(x) == (s.contains(x) || x == v),
{
    let t = s.insert(pos, v);
    if s.contains(x) {
        let q = choose|q: int| 0 <= q < s.len() && s[q] == x;
        if q < pos {
            assert(t[q] == x);
        } else {
            assert(t[q + 1] == x);
        }
    }
    if x == v {
        assert(t[pos] == x);
    }
    if t.contains(x) {
        let q = choose|q: int| 0 <= q < t.len() && t[q] == x;
        if q < pos {
            assert(s[q] == x);
        } else if q > pos {
            assert(s[q - 1] == x);
        }
    }
}

/// One edge the walk finds from `seed` to `peer` (along it when
/// `outgoing`, against it otherwise): the peer is reached; the seed and
/// then the peer must be admitted, else the node list is truncated and the
/// edge refused; the edge is then charged to the same budget, and refused
/// if it does not fit.
pub open spec fn model_visit(
    m: WalkModel,
    bound: Bound,
    seed: u32,
    seed_bytes: int,
    peer: u32,
    peer_bytes: int,
    name: Seq<char>,
    outgoing: bool,
) -> WalkModel {
    let m1 = WalkModel { reachable: m.reachable.insert(peer), ..m };
    let (a, m2) = model_take(m1, bound, seed, seed_bytes);
    if !a {
        WalkModel { truncated: true, refused: one_more(m2.refused), ..m2 }
    } else {
        let (b, m3) = model_take(m2, bound, peer, peer_bytes);
        if !b {
            WalkModel { truncated: true, refused: one_more(m3.refused), ..m3 }
        } else {
            let link = encode_utf8(name).len() + 64;
            if m3.bytes + link > bound.max_bytes {
                WalkModel { refused: one_more(m3.refused), ..m3 }
            } else {
                let key = if outgoing {
                    (seed, peer, name)
                } else {
                    (peer, seed, name)
                };
                WalkModel { bytes: m3.bytes + link, edges: m3.edges.push(key), ..m3 }
            }
        }
    }
}

/// Every peer of `peers`, in order, found from `seed`.
pub open spec fn model_visit_all(
    m: WalkModel,
    bound: Bound,
    seed: u32,
    seed_bytes: int,
    peers: Seq<PeerFound>,
    outgoing: bool,
) -> WalkModel
    decreases peers.len(),
{
    if peers.len() == 0 {
        m
    } else {
        let p = peers.last();
        model_visit(
            model_visit_all(m, bound, seed, seed_bytes, peers.drop_last(), outgoing),
            bound,
            seed,
            seed_bytes,
            p.peer,
            p.peer_bytes as int,
            p.name@,
            outgoing,
        )
    }
}

/// One seed: it is reached, then its peers are walked in the directions
/// asked, outgoing before incoming.
pub open spec fn model_seed(m: WalkModel, bound: Bound, w: SeedWalk, direction: EdgeDirection) -> WalkModel {
    let m1 = WalkModel { reachable: m.reachable.insert(w.seed), ..m };
    let out = if direction != EdgeDirection::In {
        model_visit_all(m1, bound, w.seed, w.seed_bytes as int, w.outgoing@, true)
    } else {
        m1
    };
    if direction != EdgeDirection::Out {
        model_visit_all(out, bound, w.seed, w.seed_bytes as int, w.incoming@, false)
    } else {
        out
    }
}

/// The first `k` seeds, walked in order from an empty walk.
pub open spec fn model_walk(bound: Bound, seeds: Seq<SeedWalk>, k: int, direction: EdgeDirection) -> WalkModel
    decreases k,
{
    if k <= 0 {
        WalkModel {
            nodes: Seq::empty(),
            edges: Seq::empty(),
            bytes: 0,
            reachable: Set::empty(),
            truncated: false,
            refused: 0,
        }
    } else {
        model_seed(model_walk(bound, seeds, k - 1, direction), bound, seeds[k - 1], direction)
    }
}

/// What every walk state keeps: the node count and the bytes charged
/// within the bound, each node admitted once and reached, and every kept
/// edge between admitted nodes.
pub open spec fn model_sound(m: WalkModel, bound: Bound) -> bool {
    &&& 0 <= m.bytes <= bound.max_bytes
    &&& m.nodes.len() <= bound.max_items
    &&& 0 <= m.refused <= usize::MAX
    &&& forall|i: int, j: int| 0 <= i < j < m.nodes.len() ==> m.nodes[i] != m.nodes[j]
    &&& forall|i: int| 0 <= i < m.nodes.len() ==> m.reachable.contains(#[trigger] m.nodes[i])
    &&& forall|e: int|
        0 <= e < m.edges.len() ==> m.nodes.contains((#[trigger] m.edges[e]).0) && m.nodes.contains(
            m.edges[e].1,
        )
}

struct ExpansionWalk {
    bound: Bound,
    nodes: Vec<u32>,
    seen: HashSet<u32>,
    edges: Vec<FoundEdge>,
    bytes: usize,
    reachable: HashSet<u32>,
    truncated: bool,
    links_refused: usize,
}

impl ExpansionWalk {
    spec fn model(&self) -> WalkModel {
        WalkModel {
            nodes: self.nodes@,
            edges: self.edges@.map_values(|e: FoundEdge| edge_key(e)),
            bytes: self.bytes as int,
            reachable: self.reachable@,
            truncated: self.truncated,
            refused: self.links_refused as int,
        }
    }

    spec fn wf(&self) -> bool {
        &&& model_sound(self.model(), self.bound)
        &&& forall|x: u32| self.seen@.contains(x) <==> self.nodes@.contains(x)
    }

    fn new(bound: Bound) -> (w: Self)
        ensures
            w.wf(),
            w.bound == bound,
            w.model() == model_walk(bound, Seq::empty(), 0, EdgeDirection::Both),
    {
        broadcast use vstd::std_specs::hash::group_hash_axioms;

        let w = ExpansionWalk {
            bound,
            nodes: Vec::new(),
            seen: HashSet::new(),
            edges: Vec::new(),
            bytes: 0,
            reachable: HashSet::new(),
            truncated: false,
            links_refused: 0,
        };
        assert(w.model() =~= model_walk(bound, Seq::empty(), 0, EdgeDirection::Both));
        w
    }

    fn reach(&mut self, idx: u32)
        requires
            old(self).wf(),
        ensures
            final(self).wf(),
            final(self).bound == old(self).bound,
            final(self).model() == (WalkModel { reachable: old(self).model().reachable.insert(idx), ..old(self).model() }),
    {
        broadcast use vstd::std_specs::hash::group_hash_axioms;

        self.reachable.insert(idx);
        assert(self.model() =~= (WalkModel { reachable: old(self).model().reachable.insert(idx), ..old(self).model() }));
    }

    fn take_node(&mut self, idx: u32, size: usize) -> (r: bool)
        requires
            old(self).wf(),
            old(self).reachable@.contains(idx),
        ensures
            final(self).wf(),
            final(self).bound == old(self).bound,
            (r, final(self).model()) == model_take(old(self).model(), old(self).bound, idx, size as int),
    {
        broadcast use vstd::std_specs::hash::group_hash_axioms;

        if self.seen.contains(&idx) {
            return true;
        }
        if self.nodes.len() >= self.bound.max_items || size > self.bound.max_bytes - self.bytes {
            return false;
        }
        self.seen.insert(idx);
        self.nodes.push(idx);
        self.bytes = self.bytes + size;
        proof {
            let m = old(self).model();
            assert(self.model() =~= (WalkModel { nodes: m.nodes.push(idx), bytes: m.bytes + size, ..m }));
            assert forall|i: int, j: int| 0 <= i < j < self.nodes@.len() implies self.nodes@[i] != self.nodes@[j] by {
                if j == self.nodes@.len() - 1 {
                    assert(!old(self).nodes@.contains(idx));
                    assert(old(self).nodes@[i] == self.nodes@[i]);
                }
            }
            assert forall|e: int| 0 <= e < self.model().edges.len() implies self.model().nodes.contains((#[trigger] self.model().edges[e]).0)
                && self.model().nodes.contains(self.model().edges[e].1) by {
                assert(m.nodes.contains(m.edges[e].0));
                assert(m.nodes.contains(m.edges[e].1));
                let a = choose|q: int| 0 <= q < m.nodes.len() && m.nodes[q] == m.edges[e].0;
                let b = choose|q: int| 0 <= q < m.nodes.len() && m.nodes[q] == m.edges[e].1;
                assert(self.nodes@[a] == m.nodes[a]);
                assert(self.nodes@[b] == m.nodes[b]);
            }
            assert forall|x: u32| self.seen@.contains(x) <==> self.nodes@.contains(x) by {
                if old(self).nodes@.contains(x) {
                    let q = choose|q: int| 0 <= q < old(self).nodes@.len() && old(self).nodes@[q] == x;
                    assert(self.nodes@[q] == x);
                }
                if x == idx {
                    assert(self.nodes@[self.nodes@.len() - 1] == idx);
                }
                if self.nodes@.contains(x) && x != idx {
                    let q = choose|q: int| 0 <= q < self.nodes@.len() && self.nodes@[q] == x;
                    assert(q < old(self).nodes@.len());
                    assert(old(self).nodes@[q] == x);
                }
            }
        }
        true
    }

    fn visit(&mut self, seed: u32, seed_bytes: usize, found: &PeerFound, outgoing: bool)
        requires
            old(self).wf(),
            old(self).reachable@.contains(seed),
        ensures
            final(self).wf(),
            final(self).bound == old(self).bound,
            final(self).reachable@.contains(seed),
            final(self).model() == model_visit(
                old(self).model(),
                old(self).bound,
                seed,
                seed_bytes as int,
                found.peer,
                found.peer_bytes as int,
                found.name@,
                outgoing,
            ),
    {
        let ghost m0 = self.model();
        self.reach(found.peer);
        let ghost m1 = self.model();
        let seed_in = self.take_node(seed, seed_bytes);
        if !seed_in {
            self.truncated = true;
            if self.links_refused < usize::MAX {
                self.links_refused = self.links_refused + 1;
            }
            assert(self.model() =~= model_visit(m0, self.bound, seed, seed_bytes as int, found.peer, found.peer_bytes as int, found.name@, outgoing));
            return;
        }
        let ghost m2 = self.model();
        let peer_in = self.take_node(found.peer, found.peer_bytes);
        if !peer_in {
            self.truncated = true;
            if self.links_refused < usize::MAX {
                self.links_refused = self.links_refused + 1;
            }
            assert(self.model() =~= model_visit(m0, self.bound, seed, seed_bytes as int, found.peer, found.peer_bytes as int, found.name@, outgoing));
            return;
        }
        let ghost m3 = self.model();
        let len = found.name.as_str().as_bytes().len();
        let room = self.bound.max_bytes - self.bytes;
        if room < 64 || len > room - 64 {
            if self.links_refused < usize::MAX {
                self.links_refused = self.links_refused + 1;
            }
            assert(self.model() =~= model_visit(m0, self.bound, seed, seed_bytes as int, found.peer, found.peer_bytes as int, found.name@, outgoing));
            return;
        }
        self.bytes = self.bytes + len + 64;
        let (source, target) = if outgoing {
            (seed, found.peer)
        } else {
            (found.peer, seed)
        };
        self.edges.push(FoundEdge { source, target, name: found.name.clone() });
        proof {
            let key = if outgoing {
                (seed, found.peer, found.name@)
            } else {
                (found.peer, seed, found.name@)
            };
            assert(self.model().edges =~= m3.edges.push(key));
            assert(self.model() =~= model_visit(m0, self.bound, seed, seed_bytes as int, found.peer, found.peer_bytes as int, found.name@, outgoing));
            lemma_take_keeps(m1, self.bound, seed, seed_bytes as int);
            lemma_take_keeps(m2, self.bound, found.peer, found.peer_bytes as int);
            assert(m2.nodes.contains(seed));
            assert(m3.nodes.contains(seed));
            assert(m3.nodes.contains(found.peer));
            assert forall|e: int| 0 <= e < self.model().edges.len() implies self.model().nodes.contains((#[trigger] self.model().edges[e]).0)
                && self.model().nodes.contains(self.model().edges[e].1) by {
                if e < m3.edges.len() {
                    assert(self.model().edges[e] == m3.edges[e]);
                }
            }
        }
    }

    fn visit_all(&mut self, seed: u32, seed_bytes: usize, peers: &Vec<PeerFound>, outgoing: bool)
        requires
            old(self).wf(),
            old(self).reachable@.contains(seed),
        ensures
            final(self).wf(),
            final(self).bound == old(self).bound,
            final(self).reachable@.contains(seed),
            final(self).model() == model_visit_all(
                old(self).model(),
                old(self).bound,
                seed,
                seed_bytes as int,
                peers@,
                outgoing,
            ),
    {
        let ghost m0 = self.model();
        let ghost bound = self.bound;
        let mut i: usize = 0;
        assert(peers@.subrange(0, 0) =~= Seq::<PeerFound>::empty());
        while i < peers.len()
            invariant
                i <= peers@.len(),
                self.wf(),
                self.bound == bound,
                self.reachable@.contains(seed),
                self.model() == model_visit_all(m0, bound, seed, seed_bytes as int, peers@.subrange(0, i as int), outgoing),
            decreases peers@.len() - i,
        {
            self.visit(seed, seed_bytes, &peers[i], outgoing);
            let ghost pre = peers@.subrange(0, i + 1);
            assert(pre.drop_last() =~= peers@.subrange(0, i as int));
            assert(pre.last() == peers@[i as int]);
            i = i + 1;
        }
        assert(peers@.subrange(0, peers@.len() as int) =~= peers@);
    }

}


fn clone_edge(e: &FoundEdge) -> (r: FoundEdge)
    ensures
        edge_key(r) == edge_key(*e),
{
    FoundEdge { source: e.source, target: e.target, name: e.name.clone() }
}

fn edge_precedes(a: &FoundEdge, b: &FoundEdge) -> (r: bool)
    ensures
        r == key_lt(edge_key(*a), edge_key(*b)),
{
    if a.source != b.source {
        return a.source < b.source;
    }
    if a.target != b.target {
        return a.target < b.target;
    }
    text_order(a.name.as_str(), b.name.as_str()) < 0
}

fn same_edge(a: &FoundEdge, b: &FoundEdge) -> (r: bool)
    ensures
        r == (edge_key(*a) == edge_key(*b)),
{
    a.source == b.source && a.target == b.target && text_order(a.name.as_str(), b.name.as_str()) == 0
}

/// The keys of a list of edges, in order.
pub open spec fn edge_keys(edges: Seq<FoundEdge>) -> Seq<(u32, u32, Seq<char>)> {
    edges.map_values(|e: FoundEdge| edge_key(e))
}

/// Each key once, in increasing order.
pub open spec fn strictly_sorted(keys: Seq<(u32, u32, Seq<char>)>) -> bool {
    forall|k: int, l: int| 0 <= k < l < keys.len() ==> key_lt(#[trigger] keys[k], #[trigger] keys[l])
}

/// The edges sorted by key with repeats dropped.
#[verifier::loop_isolation(false)]
fn sorted_unique_edges(edges: &Vec<FoundEdge>) -> (r: Vec<FoundEdge>)
    ensures
        strictly_sorted(edge_keys(r@)),
        forall|x: (u32, u32, Seq<char>)| edge_keys(r@).contains(x) <==> edge_keys(edges@).contains(x),
        r@.len() <= edges@.len(),
{
    let mut out: Vec<FoundEdge> = Vec::new();
    let mut i: usize = 0;
    while i < edges.len()
        invariant
            i <= edges@.len(),
            out@.len() <= i,
            strictly_sorted(edge_keys(out@)),
            forall|x: (u32, u32, Seq<char>)|
                edge_keys(out@).contains(x) <==> edge_keys(edges@.subrange(0, i as int)).contains(x),
        decreases edges@.len() - i,
    {
        let e = &edges[i];
        let ghost ke = edge_key(*e);
        let ghost old_keys = edge_keys(out@);
        let mut pos: usize = out.len();
        while pos > 0 && edge_precedes(e, &out[pos - 1])
            invariant
                pos <= out@.len(),
                forall|l: int| pos <= l < out@.len() ==> key_lt(ke, #[trigger] edge_keys(out@)[l]),
            decreases pos,
        {
            pos = pos - 1;
        }
        let ghost prefix_keys = edge_keys(edges@.subrange(0, i + 1));
        assert(prefix_keys =~= edge_keys(edges@.subrange(0, i as int)).push(ke));
        if pos > 0 && same_edge(&out[pos - 1], e) {
            proof {
                assert(old_keys[pos - 1] == ke);
                assert forall|x: (u32, u32, Seq<char>)| edge_keys(out@).contains(x) <==> prefix_keys.contains(x) by {
                    lemma_push_contains(edge_keys(edges@.subrange(0, i as int)), ke, x);
                    if x == ke {
                        assert(edge_keys(out@)[pos - 1] == x);
                    }
                }
            }
        } else {
            proof {
                if pos > 0 {
                    assert(!key_lt(ke, old_keys[pos - 1]));
                    lemma_key_order(ke, old_keys[pos - 1], ke);
                    assert(key_lt(old_keys[pos - 1], ke));
                    assert forall|k: int| 0 <= k < pos implies key_lt(#[trigger] old_keys[k], ke) by {
                        if k < pos - 1 {
                            lemma_key_order(old_keys[k], old_keys[pos - 1], ke);
                        }
                    }
                }
            }
            out.insert(pos, clone_edge(e));
            proof {
                let nk = edge_keys(out@);
                assert(nk =~= old_keys.insert(pos as int, ke));
                assert forall|k: int, l: int| 0 <= k < l < nk.len() implies key_lt(#[trigger] nk[k], #[trigger] nk[l]) by {
                    if k == pos {
                        assert(nk[l] == old_keys[l - 1]);
                    } else if l == pos {
                        assert(nk[k] == old_keys[k]);
                    } else {
                        let k0 = if k < pos { k } else { k - 1 };
                        let l0 = if l < pos { l } else { l - 1 };
                        assert(nk[k] == old_keys[k0]);
                        assert(nk[l] == old_keys[l0]);
                    }
                }
                assert forall|x: (u32, u32, Seq<char>)| nk.contains(x) <==> prefix_keys.contains(x) by {
                    lemma_push_contains(edge_keys(edges@.subrange(0, i as int)), ke, x);
                    lemma_insert_contains(old_keys, pos as int, ke, x);
                }
            }
        }
        i = i + 1;
    }
    assert(edges@.subrange(0, edges@.len() as int) =~= edges@);
    out
}

/// A walk stopped before seed `k` when `k` is short of the seeds: the walk
/// of the first `k` seeds, marked truncated if any seed was left.
pub open spec fn stopped_walk(bound: Bound, seeds: Seq<SeedWalk>, k: int, direction: EdgeDirection) -> WalkModel {
    let m = model_walk(bound, seeds, k, direction);
    if k < seeds.len() {
        WalkModel { truncated: true, ..m }
    } else {
        m
    }
}

/// The count of edges sent plus edges refused, saturating.
pub open spec fn sat_total(sent: int, refused: int) -> int {
    if sent + refused <= usize::MAX {
        sent + refused
    } else {
        usize::MAX as int
    }
}

/// `r` reports walk `m`: its nodes in order, its edges sorted with repeats
/// dropped, and what the bound did to each list.
pub open spec fn expansion_of(m: WalkModel, r: Expansion) -> bool {
    &&& r.nodes@ == m.nodes
    &&& strictly_sorted(edge_keys(r.edges@))
    &&& forall|x: (u32, u32, Seq<char>)| edge_keys(r.edges@).contains(x) <==> m.edges.contains(x)
    &&& r.bound.returned == m.nodes.len() as u32
    &&& r.bound.total == m.reachable.len() as u32
    &&& r.bound.truncated == (m.truncated || m.nodes.len() < m.reachable.len())
    &&& r.link_bound.returned == r.edges@.len() as u32
    &&& r.link_bound.total == sat_total(r.edges@.len() as int, m.refused) as u32
    &&& r.link_bound.truncated == (m.refused > 0)
}

/// Walks the neighbourhood of `seeds`, bounded.
///
/// `seeds` is one node for an instance expansion and every node of a type
/// for a type expansion; each carries the peers the graph lists for it. A
/// seed is admitted with its first peer, not before. The walk stops at the
/// bound, and stops taking seeds once `deadline` has passed; every edge kept
/// has both endpoints among the nodes, and the node and link bytes together
/// stay within the byte budget.
#[verifier::loop_isolation(false)]
pub fn expand(seeds: &Vec<SeedWalk>, direction: EdgeDirection, bound: Bound, deadline: Option<Instant>) -> (r: Expansion)
    ensures
        exists|k: int|
            0 <= k <= seeds@.len() && (deadline is None ==> k == seeds@.len()) && model_sound(
                stopped_walk(bound, seeds@, k, direction),
                bound,
            ) && expansion_of(stopped_walk(bound, seeds@, k, direction), r),
{
    broadcast use vstd::std_specs::hash::group_hash_axioms;

    let mut walk = ExpansionWalk::new(bound);
    let mut k: usize = 0;
    let mut stopped = false;
    while k < seeds.len() && !stopped
        invariant
            k <= seeds@.len(),
            stopped ==> k < seeds@.len(),
            walk.wf(),
            walk.bound == bound,
            walk.model() == model_walk(bound, seeds@, k as int, direction),
            deadline is None ==> !stopped,
        decreases seeds@.len() - k + if stopped {
            0int
        } else {
            1int
        },
    {
        let late = match deadline {
            Some(d) => crate::clock::deadline_passed(d),
            None => false,
        };
        if late {
            stopped = true;
        } else {
            let w = &seeds[k];
            let ghost m0 = walk.model();
            walk.reach(w.seed);
            let ghost m1 = walk.model();
            let go_out = match direction {
                EdgeDirection::In => false,
                _ => true,
            };
            let go_in = match direction {
                EdgeDirection::Out => false,
                _ => true,
            };
            if go_out {
                walk.visit_all(w.seed, w.seed_bytes, &w.outgoing, true);
            }
            if go_in {
                walk.visit_all(w.seed, w.seed_bytes, &w.incoming, false);
            }
            proof {
                assert(m1 =~= (WalkModel { reachable: m0.reachable.insert(w.seed), ..m0 }));
                assert(walk.model() == model_seed(m0, bound, *w, direction));
            }
            k = k + 1;
        }
    }
    let ghost before = walk.model();
    if stopped {
        assert(k < seeds@.len());
        walk.truncated = true;
    }
    let ghost m = walk.model();
    assert(m =~= stopped_walk(bound, seeds@, k as int, direction));
    let edges = sorted_unique_edges(&walk.edges);
    let node_count = walk.nodes.len();
    let reached = walk.reachable.len();
    let sent = edges.len();
    let total_links = if walk.links_refused <= usize::MAX - sent {
        sent + walk.links_refused
    } else {
        usize::MAX
    };
    let info = BoundInfo {
        returned: node_count as u32,
        total: reached as u32,
        truncated: walk.truncated || node_count < reached,
    };
    let link_info = BoundInfo {
        returned: sent as u32,
        total: total_links as u32,
        truncated: walk.links_refused > 0,
    };
    proof {
        assert(edge_keys(walk.edges@) == m.edges);
    }
    Expansion { nodes: walk.nodes, edges, bound: info, link_bound: link_info }
}

/// An optional relationship name as plain values.
pub open spec fn name_view(relationship: Option<&str>) -> Option<Seq<char>> {
    match relationship {
        Some(n) => Some(n@),
        None => None,
    }
}

/// The peers an expansion reads for `node` along one direction: those over
/// the named relationship, each with that name, or, with no name, every
/// peer with its edge's name.
pub open spec fn peers_read(graph: DirGraph, node: u32, outgoing: bool, relationship: Option<Seq<char>>) -> Seq<
    (u32, Seq<char>),
> {
    match relationship {
        Some(name) => named_peers_held(graph, node, outgoing, name).map_values(|p: u32| (p, name)),
        None => peers_held(graph, node, outgoing),
    }
}

/// `found` lists the peers `held`, in order, each sized by `node_bytes`.
pub open spec fn peers_sized<F: Fn(u32) -> usize>(
    found: Seq<PeerFound>,
    held: Seq<(u32, Seq<char>)>,
    node_bytes: F,
) -> bool {
    &&& found.len() == held.len()
    &&& forall|j: int|
        0 <= j < found.len() ==> (#[trigger] found[j]).peer == held[j].0 && found[j].name@ == held[j].1
            && node_bytes.ensures((held[j].0,), found[j].peer_bytes)
}

/// `walks` are what the graph holds around each of `seeds`, in order: the
/// seed sized by `node_bytes`, and its peers along each direction the
/// expansion walks.
pub open spec fn walks_read<F: Fn(u32) -> usize>(
    graph: DirGraph,
    seeds: Seq<u32>,
    relationship: Option<Seq<char>>,
    direction: EdgeDirection,
    node_bytes: F,
    walks: Seq<SeedWalk>,
) -> bool {
    &&& walks.len() == seeds.len()
    &&& forall|i: int|
        0 <= i < walks.len() ==> {
            &&& (#[trigger] walks[i]).seed == seeds[i]
            &&& node_bytes.ensures((seeds[i],), walks[i].seed_bytes)
            &&& !(direction is In) ==> peers_sized(
                walks[i].outgoing@,
                peers_read(graph, seeds[i], true, relationship),
                node_bytes,
            )
            &&& !(direction is Out) ==> peers_sized(
                walks[i].incoming@,
                peers_read(graph, seeds[i], false, relationship),
                node_bytes,
            )
        }
}

/// The peers of `node` along one direction, sized.
fn read_peers<F: Fn(u32) -> usize>(
    graph: &DirGraph,
    node: u32,
    outgoing: bool,
    relationship: Option<&str>,
    node_bytes: &F,
) -> (r: Vec<PeerFound>)
    requires
        forall|n: u32| node_bytes.requires((n,)),
    ensures
        peers_sized(r@, peers_read(*graph, node, outgoing, name_view(relationship)), *node_bytes),
{
    let held: Vec<(u32, String)> = match relationship {
        Some(name) => {
            let peers = peers_named(graph, node, outgoing, name);
            let mut out: Vec<(u32, String)> = Vec::new();
            let mut i: usize = 0;
            while i < peers.len()
                invariant
                    i <= peers@.len(),
                    out@.len() == i,
                    forall|j: int| 0 <= j < i ==> #[trigger] out@[j].0 == peers@[j] && out@[j].1@ == name@,
                decreases peers@.len() - i,
            {
                out.push((peers[i], name.to_owned()));
                i = i + 1;
            }
            assert(peer_name_views(out@) =~= peers_read(*graph, node, outgoing, name_view(relationship)));
            out
        },
        None => peers_all(graph, node, outgoing),
    };
    let ghost want = peers_read(*graph, node, outgoing, name_view(relationship));
    assert(peer_name_views(held@) == want);
    let mut found: Vec<PeerFound> = Vec::new();
    let mut k: usize = 0;
    while k < held.len()
        invariant
            k <= held@.len(),
            peer_name_views(held@) == want,
            forall|n: u32| node_bytes.requires((n,)),
            found@.len() == k,
            forall|j: int|
                0 <= j < k ==> (#[trigger] found@[j]).peer == want[j].0 && found@[j].name@ == want[j].1
                    && node_bytes.ensures((want[j].0,), found@[j].peer_bytes),
        decreases held@.len() - k,
    {
        let peer = held[k].0;
        assert(want[k as int] == (held@[k as int].0, held@[k as int].1@));
        let peer_bytes = node_bytes(peer);
        found.push(PeerFound { peer, peer_bytes, name: held[k].1.clone() });
        k = k + 1;
    }
    found
}

/// Walks the neighbourhood of `seeds` in the graph, bounded: each seed's
/// peers along `direction` (over `relationship` where one is named) are
/// read from the graph, every node is sized by `node_bytes` (the caller's
/// serialized-size estimate of a node), and the walk is `expand`'s over
/// what was read.
pub fn expand_in<F: Fn(u32) -> usize>(
    graph: &DirGraph,
    seeds: &Vec<u32>,
    relationship: Option<&str>,
    direction: EdgeDirection,
    bound: Bound,
    deadline: Option<Instant>,
    node_bytes: F,
) -> (r: Expansion)
    requires
        forall|n: u32| node_bytes.requires((n,)),
    ensures
        exists|walks: Seq<SeedWalk>, k: int|
            #![trigger walks_read(*graph, seeds@, name_view(relationship), direction, node_bytes, walks), stopped_walk(bound, walks, k, direction)]
            walks_read(*graph, seeds@, name_view(relationship), direction, node_bytes, walks) && 0 <= k
                <= walks.len() && (deadline is None ==> k == walks.len()) && model_sound(
                stopped_walk(bound, walks, k, direction),
                bound,
            ) && expansion_of(stopped_walk(bound, walks, k, direction), r),
{
    let mut walks: Vec<SeedWalk> = Vec::new();
    let mut i: usize = 0;
    while i < seeds.len()
        invariant
            i <= seeds@.len(),
            forall|n: u32| node_bytes.requires((n,)),
            walks@.len() == i,
            forall|j: int|
                0 <= j < i ==> {
                    &&& (#[trigger] walks@[j]).seed == seeds@[j]
                    &&& node_bytes.ensures((seeds@[j],), walks@[j].seed_bytes)
                    &&& !(direction is In) ==> peers_sized(
                        walks@[j].outgoing@,
                        peers_read(*graph, seeds@[j], true, name_view(relationship)),
                        node_bytes,
                    )
                    &&& !(direction is Out) ==> peers_sized(
                        walks@[j].incoming@,
                        peers_read(*graph, seeds@[j], false, name_view(relationship)),
                        node_bytes,
                    )
                },
        decreases seeds@.len() - i,
    {
        let seed = seeds[i];
        let seed_bytes = node_bytes(seed);
        let outgoing = match direction {
            EdgeDirection::In => Vec::new(),
            _ => read_peers(graph, seed, true, relationship, &node_bytes),
        };
        let incoming = match direction {
            EdgeDirection::Out => Vec::new(),
            _ => read_peers(graph, seed, false, relationship, &node_bytes),
        };
        walks.push(SeedWalk { seed, seed_bytes, outgoing, incoming });
        i = i + 1;
    }
    assert(walks_read(*graph, seeds@, name_view(relationship), direction, node_bytes, walks@));
    expand(&walks, direction, bound, deadline)
}

/// The bytes `size` gives the nodes of `nodes`, summed.
pub open spec fn node_sum(nodes: Seq<u32>, size: spec_fn(u32) -> int) -> int
    decreases nodes.len(),
{
    if nodes.len() == 0 {
        0
    } else {
        node_sum(nodes.drop_last(), size) + size(nodes.last())
    }
}

/// The serialized size of one link of key `e`.
pub open spec fn link_cost(e: (u32, u32, Seq<char>)) -> int {
    encode_utf8(e.2).len() as int + 64
}

/// The link sizes of `edges`, summed.
pub open spec fn link_sum(edges: Seq<(u32, u32, Seq<char>)>) -> int
    decreases edges.len(),
{
    if edges.len() == 0 {
        0
    } else {
        link_sum(edges.drop_last()) + link_cost(edges.last())
    }
}

/// Every size a walk carries is what `size` gives its node.
pub open spec fn sized_by(walks: Seq<SeedWalk>, size: spec_fn(u32) -> int) -> bool {
    forall|i: int|
        0 <= i < walks.len() ==> {
            &&& size((#[trigger] walks[i]).seed) == walks[i].seed_bytes
            &&& forall|j: int| 0 <= j < walks[i].outgoing@.len() ==> size(walks[i].outgoing@[j].peer) == #[trigger] walks[i].outgoing@[j].peer_bytes
            &&& forall|j: int| 0 <= j < walks[i].incoming@.len() ==> size(walks[i].incoming@[j].peer) == #[trigger] walks[i].incoming@[j].peer_bytes
        }
}

/// The bytes a walk charges are its admitted nodes' sizes plus its kept
/// links' sizes.
pub open spec fn charged_as_listed(m: WalkModel, size: spec_fn(u32) -> int) -> bool {
    m.bytes == node_sum(m.nodes, size) + link_sum(m.edges)
}

proof fn lemma_visit_charges(
    m: WalkModel,
    bound: Bound,
    seed: u32,
    peer: u32,
    name: Seq<char>,
    outgoing: bool,
    size: spec_fn(u32) -> int,
)
    requires
        charged_as_listed(m, size),
    ensures
        charged_as_listed(model_visit(m, bound, seed, size(seed), peer, size(peer), name, outgoing), size),
{
    let m1 = WalkModel { reachable: m.reachable.insert(peer), ..m };
    let (a, m2) = model_take(m1, bound, seed, size(seed));
    assert(charged_as_listed(m1, size));
    if a && !m1.nodes.contains(seed) {
        assert(m2.nodes.drop_last() =~= m1.nodes);
        assert(m2.nodes.last() == seed);
    }
    assert(charged_as_listed(m2, size));
    if a {
        let (b, m3) = model_take(m2, bound, peer, size(peer));
        if b && !m2.nodes.contains(peer) {
            assert(m3.nodes.drop_last() =~= m2.nodes);
            assert(m3.nodes.last() == peer);
        }
        assert(charged_as_listed(m3, size));
        if b {
            let key = if outgoing { (seed, peer, name) } else { (peer, seed, name) };
            assert(m3.edges.push(key).drop_last() =~= m3.edges);
            assert(link_sum(m3.edges.push(key)) == link_sum(m3.edges) + link_cost(key));
            assert(link_cost(key) == encode_utf8(name).len() + 64);
        }
    }
}

proof fn lemma_visit_all_charges(
    m: WalkModel,
    bound: Bound,
    seed: u32,
    peers: Seq<PeerFound>,
    outgoing: bool,
    size: spec_fn(u32) -> int,
)
    requires
        charged_as_listed(m, size),
        forall|j: int| 0 <= j < peers.len() ==> size(peers[j].peer) == #[trigger] peers[j].peer_bytes,
    ensures
        charged_as_listed(model_visit_all(m, bound, seed, size(seed), peers, outgoing), size),
    decreases peers.len(),
{
    if peers.len() > 0 {
        let d = peers.drop_last();
        assert forall|j: int| 0 <= j < d.len() implies size(d[j].peer) == #[trigger] d[j].peer_bytes by {
            assert(d[j] == peers[j]);
        }
        lemma_visit_all_charges(m, bound, seed, d, outgoing, size);
        let p = peers.last();
        assert(size(p.peer) == p.peer_bytes);
        lemma_visit_charges(
            model_visit_all(m, bound, seed, size(seed), d, outgoing),
            bound,
            seed,
            p.peer,
            p.name@,
            outgoing,
            size,
        );
    }
}

proof fn lemma_walk_charges(bound: Bound, walks: Seq<SeedWalk>, k: int, direction: EdgeDirection, size: spec_fn(u32) -> int)
    requires
        0 <= k <= walks.len(),
        sized_by(walks, size),
    ensures
        charged_as_listed(model_walk(bound, walks, k, direction), size),
    decreases k,
{
    if k > 0 {
        lemma_walk_charges(bound, walks, k - 1, direction, size);
        let w = walks[k - 1];
        assert(size(w.seed) == w.seed_bytes);
        let m = model_walk(bound, walks, k - 1, direction);
        let m1 = WalkModel { reachable: m.reachable.insert(w.seed), ..m };
        assert forall|j: int| 0 <= j < w.outgoing@.len() implies size(w.outgoing@[j].peer) == #[trigger] w.outgoing@[j].peer_bytes by {
            assert(sized_by(walks, size));
            assert(walks[k - 1] == w);
        }
        assert forall|j: int| 0 <= j < w.incoming@.len() implies size(w.incoming@[j].peer) == #[trigger] w.incoming@[j].peer_bytes by {
            assert(walks[k - 1] == w);
        }
        lemma_visit_all_charges(m1, bound, w.seed, w.outgoing@, true, size);
        let out = if direction != EdgeDirection::In {
            model_visit_all(m1, bound, w.seed, w.seed_bytes as int, w.outgoing@, true)
        } else {
            m1
        };
        lemma_visit_all_charges(out, bound, w.seed, w.incoming@, false, size);
    }
}

/// Removing one entry takes its cost off the sum.
proof fn lemma_link_sum_remove(s: Seq<(u32, u32, Seq<char>)>, i: int)
    requires
        0 <= i < s.len(),
    ensures
        link_sum(s) == link_sum(s.remove(i)) + link_cost(s[i]),
    decreases s.len(),
{
    if i < s.len() - 1 {
        let d = s.drop_last();
        lemma_link_sum_remove(d, i);
        assert(s.remove(i).drop_last() =~= d.remove(i));
        assert(s.remove(i).last() == s.last());
    } else {
        assert(s.remove(i) =~= s.drop_last());
    }
}

proof fn lemma_link_sum_nonneg(s: Seq<(u32, u32, Seq<char>)>)
    ensures
        link_sum(s) >= 0,
    decreases s.len(),
{
    if s.len() > 0 {
        lemma_link_sum_nonneg(s.drop_last());
    }
}

/// Distinct keys, each found in `s`, cost no more than `s`.
proof fn lemma_distinct_sum_within(d: Seq<(u32, u32, Seq<char>)>, s: Seq<(u32, u32, Seq<char>)>)
    requires
        forall|a: int, b: int| 0 <= a < b < d.len() ==> #[trigger] d[a] != #[trigger] d[b],
        forall|a: int| 0 <= a < d.len() ==> s.contains(#[trigger] d[a]),
    ensures
        link_sum(d) <= link_sum(s),
    decreases s.len(),
{
    if s.len() == 0 {
        if d.len() > 0 {
            assert(s.contains(d[0]));
        }
    } else {
        let x = s.last();
        let t = s.drop_last();
        if d.contains(x) {
            let i = choose|i: int| 0 <= i < d.len() && d[i] == x;
            let d2 = d.remove(i);
            assert forall|a: int| 0 <= a < d2.len() implies t.contains(#[trigger] d2[a]) by {
                let src = if a < i { a } else { a + 1 };
                assert(d2[a] == d[src]);
                assert(d[src] != x);
                let q = choose|q: int| 0 <= q < s.len() && s[q] == d[src];
                assert(q != s.len() - 1);
                assert(t[q] == d[src]);
            }
            assert forall|a: int, b: int| 0 <= a < b < d2.len() implies #[trigger] d2[a] != #[trigger] d2[b] by {
                let sa = if a < i { a } else { a + 1 };
                let sb = if b < i { b } else { b + 1 };
                assert(d2[a] == d[sa] && d2[b] == d[sb]);
            }
            lemma_distinct_sum_within(d2, t);
            lemma_link_sum_remove(d, i);
        } else {
            assert forall|a: int| 0 <= a < d.len() implies t.contains(#[trigger] d[a]) by {
                let q = choose|q: int| 0 <= q < s.len() && s[q] == d[a];
                assert(q != s.len() - 1);
                assert(t[q] == d[a]);
            }
            lemma_distinct_sum_within(d, t);
        }
    }
}

/// One budget for nodes and links: where every node is sized by `size`,
/// the nodes an expansion returns and the links it returns cost, together,
/// no more than the bound's byte budget.
pub proof fn lemma_expansion_within_budget(
    walks: Seq<SeedWalk>,
    k: int,
    direction: EdgeDirection,
    bound: Bound,
    size: spec_fn(u32) -> int,
    r: Expansion,
)
    requires
        0 <= k <= walks.len(),
        sized_by(walks, size),
        model_sound(stopped_walk(bound, walks, k, direction), bound),
        expansion_of(stopped_walk(bound, walks, k, direction), r),
    ensures
        node_sum(r.nodes@, size) + link_sum(edge_keys(r.edges@)) <= bound.max_bytes,
{
    let m = stopped_walk(bound, walks, k, direction);
    lemma_walk_charges(bound, walks, k, direction, size);
    let keys = edge_keys(r.edges@);
    assert forall|a: int, b: int| 0 <= a < b < keys.len() implies #[trigger] keys[a] != #[trigger] keys[b] by {
        lemma_key_order(keys[a], keys[b], keys[b]);
    }
    assert forall|a: int| 0 <= a < keys.len() implies m.edges.contains(#[trigger] keys[a]) by {
        assert(keys.contains(keys[a]));
    }
    lemma_distinct_sum_within(keys, m.edges);
}

/// The relation a peer found from `seed` stands for, as the graph holds
/// it: from the seed to the peer along an outgoing edge, from the peer to
/// the seed along an incoming one.
pub open spec fn held_relation(seed: u32, p: PeerFound, outgoing: bool) -> (u32, u32, Seq<char>) {
    if outgoing {
        (seed, p.peer, p.name@)
    } else {
        (p.peer, seed, p.name@)
    }
}

/// `e` is a relation one of the first `k` seeds lists along a direction
/// the walk was asked to follow, in the orientation the graph holds it.
pub open spec fn listed_relation(seeds: Seq<SeedWalk>, k: int, direction: EdgeDirection, e: (u32, u32, Seq<char>)) -> bool {
    exists|i: int, j: int|
        #![trigger seeds[i].outgoing@[j], listed_at(seeds, i, j, direction, e)]
        0 <= i < k && listed_at(seeds, i, j, direction, e)
}

/// `e` is the `j`th outgoing (where the walk goes out) or the `j`th
/// incoming (where it comes in) relation of seed `i`.
pub open spec fn listed_at(seeds: Seq<SeedWalk>, i: int, j: int, direction: EdgeDirection, e: (u32, u32, Seq<char>)) -> bool {
    ||| (direction != EdgeDirection::In && 0 <= j < seeds[i].outgoing@.len() && e == held_relation(
        seeds[i].seed,
        seeds[i].outgoing@[j],
        true,
    ))
    ||| (direction != EdgeDirection::Out && 0 <= j < seeds[i].incoming@.len() && e == held_relation(
        seeds[i].seed,
        seeds[i].incoming@[j],
        false,
    ))
}

proof fn lemma_visit_edges(
    m: WalkModel,
    bound: Bound,
    seed: u32,
    seed_bytes: int,
    peer: u32,
    peer_bytes: int,
    name: Seq<char>,
    outgoing: bool,
)
    ensures
        ({
            let r = model_visit(m, bound, seed, seed_bytes, peer, peer_bytes, name, outgoing);
            r.edges == m.edges || r.edges == m.edges.push(
                if outgoing {
                    (seed, peer, name)
                } else {
                    (peer, seed, name)
                },
            )
        }),
{
}

proof fn lemma_visit_all_edges(
    m: WalkModel,
    bound: Bound,
    seed: u32,
    seed_bytes: int,
    peers: Seq<PeerFound>,
    outgoing: bool,
)
    ensures
        forall|x: (u32, u32, Seq<char>)|
            #[trigger] model_visit_all(m, bound, seed, seed_bytes, peers, outgoing).edges.contains(x) ==> m.edges.contains(x)
                || exists|j: int| 0 <= j < peers.len() && x == held_relation(seed, #[trigger] peers[j], outgoing),
    decreases peers.len(),
{
    if peers.len() > 0 {
        let prev = model_visit_all(m, bound, seed, seed_bytes, peers.drop_last(), outgoing);
        let p = peers.last();
        lemma_visit_all_edges(m, bound, seed, seed_bytes, peers.drop_last(), outgoing);
        lemma_visit_edges(prev, bound, seed, seed_bytes, p.peer, p.peer_bytes as int, p.name@, outgoing);
        let r = model_visit_all(m, bound, seed, seed_bytes, peers, outgoing);
        assert forall|x: (u32, u32, Seq<char>)| #[trigger] r.edges.contains(x) implies m.edges.contains(x)
            || exists|j: int| 0 <= j < peers.len() && x == held_relation(seed, #[trigger] peers[j], outgoing) by {
            let key = if outgoing {
                (seed, p.peer, p.name@)
            } else {
                (p.peer, seed, p.name@)
            };
            if r.edges != prev.edges {
                lemma_push_contains(prev.edges, key, x);
            }
            if prev.edges.contains(x) {
                if !m.edges.contains(x) {
                    let j = choose|j: int| 0 <= j < peers.drop_last().len() && x == held_relation(seed, #[trigger] peers.drop_last()[j], outgoing);
                    assert(peers[j] == peers.drop_last()[j]);
                }
            } else {
                assert(x == key);
                assert(x == held_relation(seed, peers[peers.len() - 1], outgoing));
            }
        }
    }
}

proof fn lemma_walk_edges_listed(bound: Bound, seeds: Seq<SeedWalk>, k: int, direction: EdgeDirection)
    requires
        0 <= k <= seeds.len(),
    ensures
        forall|x: (u32, u32, Seq<char>)| #[trigger] model_walk(bound, seeds, k, direction).edges.contains(x) ==> listed_relation(seeds, k, direction, x),
    decreases k,
{
    if k > 0 {
        lemma_walk_edges_listed(bound, seeds, k - 1, direction);
        let m = model_walk(bound, seeds, k - 1, direction);
        let w = seeds[k - 1];
        let m1 = WalkModel { reachable: m.reachable.insert(w.seed), ..m };
        let out = if direction != EdgeDirection::In {
            model_visit_all(m1, bound, w.seed, w.seed_bytes as int, w.outgoing@, true)
        } else {
            m1
        };
        lemma_visit_all_edges(m1, bound, w.seed, w.seed_bytes as int, w.outgoing@, true);
        lemma_visit_all_edges(out, bound, w.seed, w.seed_bytes as int, w.incoming@, false);
        let r = model_walk(bound, seeds, k, direction);
        assert(r == model_seed(m, bound, w, direction));
        assert(m1.edges == m.edges);
        assert forall|x: (u32, u32, Seq<char>)| #[trigger] r.edges.contains(x) implies listed_relation(seeds, k, direction, x) by {
            if direction != EdgeDirection::Out {
                assert(r.edges == model_visit_all(out, bound, w.seed, w.seed_bytes as int, w.incoming@, false).edges);
            } else {
                assert(r.edges == out.edges);
            }
            if direction == EdgeDirection::In {
                assert(out.edges == m1.edges);
            }
            let in_out = out.edges.contains(x);
            if in_out && m1.edges.contains(x) {
                assert(m.edges.contains(x));
                assert(listed_relation(seeds, k - 1, direction, x));
                let (i, j) = choose|i: int, j: int| 0 <= i < k - 1 && listed_at(seeds, i, j, direction, x);
                assert(listed_at(seeds, i, j, direction, x));
            } else if in_out {
                assert(direction != EdgeDirection::In);
                let j = choose|j: int| 0 <= j < w.outgoing@.len() && x == held_relation(w.seed, #[trigger] w.outgoing@[j], true);
                assert(listed_at(seeds, k - 1, j, direction, x));
            } else {
                assert(direction != EdgeDirection::Out);
                let j = choose|j: int| 0 <= j < w.incoming@.len() && x == held_relation(w.seed, #[trigger] w.incoming@[j], false);
                assert(listed_at(seeds, k - 1, j, direction, x));
            }
        }
    }
}

/// Every edge an expansion reports is a relation the graph holds, in the
/// orientation it holds it: one a seed lists along a direction the walk
/// was asked to follow, seed to peer for an outgoing one and peer to seed
/// for an incoming one, whatever direction was asked.
pub proof fn lemma_expansion_edges_are_held(bound: Bound, seeds: Seq<SeedWalk>, k: int, direction: EdgeDirection, r: Expansion)
    requires
        0 <= k <= seeds.len(),
        expansion_of(stopped_walk(bound, seeds, k, direction), r),
    ensures
        forall|e: int| 0 <= e < r.edges@.len() ==> listed_relation(seeds, k, direction, edge_key(#[trigger] r.edges@[e])),
{
    lemma_walk_edges_listed(bound, seeds, k, direction);
    assert(stopped_walk(bound, seeds, k, direction).edges == model_walk(bound, seeds, k, direction).edges);
    assert forall|e: int| 0 <= e < r.edges@.len() implies listed_relation(seeds, k, direction, edge_key(#[trigger] r.edges@[e])) by {
        assert(edge_keys(r.edges@)[e] == edge_key(r.edges@[e]));
        assert(edge_keys(r.edges@).contains(edge_key(r.edges@[e])));
        assert(model_walk(bound, seeds, k, direction).edges.contains(edge_key(r.edges@[e])));
    }
}

} // verus!
