//! What the library reads from a loaded kglite graph, each read a single
//! call whose answer comes back as plain values.
//!
//! The graph itself is opaque here. Four reads of what the graph holds
//! (its type index, its node index, its connectivity cache, its relation
//! records) are tied to names for those contents, free of the order in which
//! the engine's hash maps are walked; the other reads state nothing of what
//! they return, and the logic that uses them is verified for every answer.
use kglite::api::{DirGraph, Direction, EdgeIndex, GraphRead, InternedKey, NodeIndex, Value};

use std::time::Instant;

use vstd::multiset::Multiset;
use vstd::prelude::*;

use crate::bookmark_members::{key_view, MemberKey};
use crate::expand::ConnectivityTriple;

verus! {

/// A loaded kglite graph.
#[verifier::external_type_specification]
#[verifier::external_body]
pub struct ExDirGraph(DirGraph);

/// What the graph's type index holds: each node type's name with the number
/// of nodes listed under it.
pub uninterp spec fn type_index_held(graph: DirGraph) -> Multiset<(Seq<char>, usize)>;

/// The node indices the graph's type index lists (as `u32`), each as often
/// as it is listed.
pub uninterp spec fn indexed_nodes(graph: DirGraph) -> Multiset<u32>;

/// What the graph's connectivity cache holds (or the scan that fills it
/// computes): source type, relationship, target type and count of each
/// triple.
pub uninterp spec fn connectivity_held(graph: DirGraph) -> Multiset<
    (Seq<char>, Seq<char>, Seq<char>, u64),
>;

/// The relation records the graph holds: each edge index with its source
/// and target node indices.
pub uninterp spec fn graph_edges(graph: DirGraph) -> Map<u32, (u32, u32)>;

/// Type-index pairs as plain values.
pub open spec fn pair_views(counts: Seq<(String, usize)>) -> Seq<(Seq<char>, usize)> {
    counts.map_values(|p: (String, usize)| (p.0@, p.1))
}

/// The node types the graph's `is_a` forest gives a parent (the keys of
/// `parent_types`).
pub uninterp spec fn parent_types_held(graph: DirGraph) -> Set<Seq<char>>;

/// The number of nodes the graph's store holds, by its own counter.
pub uninterp spec fn node_total(graph: DirGraph) -> usize;

/// The number of relation records the graph's store holds, by its own
/// counter.
pub uninterp spec fn edge_total(graph: DirGraph) -> usize;

/// The edges of `node` along one direction whose relationship is `name`
/// and whose far node has type `other_type`, as the engine counts them.
pub uninterp spec fn filtered_edge_count(
    graph: DirGraph,
    node: u32,
    outgoing: bool,
    name: Seq<char>,
    other_type: Seq<char>,
) -> usize;

/// The peers the graph lists for `node` along one direction (outgoing or
/// incoming) over edges whose relationship is `name`, in the order the
/// graph lists them.
pub uninterp spec fn named_peers_held(graph: DirGraph, node: u32, outgoing: bool, name: Seq<char>) -> Seq<u32>;

/// The peers the graph lists for `node` along one direction over every
/// edge, each with its edge's relationship name, in the order the graph
/// lists them.
pub uninterp spec fn peers_held(graph: DirGraph, node: u32, outgoing: bool) -> Seq<(u32, Seq<char>)>;

/// Peer and name pairs as plain values.
pub open spec fn peer_name_views(found: Seq<(u32, String)>) -> Seq<(u32, Seq<char>)> {
    found.map_values(|p: (u32, String)| (p.0, p.1@))
}

/// The node types with a time-series config.
pub uninterp spec fn timeseries_types_held(graph: DirGraph) -> Set<Seq<char>>;

/// Each node type with a spatial config: whether it names a location, how
/// many named points it has, whether it names a geometry, how many named
/// shapes it has.
pub uninterp spec fn spatial_held(graph: DirGraph) -> Map<Seq<char>, (bool, usize, bool, usize)>;

/// Each node type with metadata: the declared type names of its properties
/// (a hash map's values, so a multiset).
pub uninterp spec fn property_types_held(graph: DirGraph) -> Map<Seq<char>, Multiset<Seq<char>>>;

/// The node type of every embedding store (a hash map's keys, so a
/// multiset).
pub uninterp spec fn embedding_types_held(graph: DirGraph) -> Multiset<Seq<char>>;

/// Texts as plain values.
pub open spec fn text_views(v: Seq<String>) -> Seq<Seq<char>> {
    v.map_values(|s: String| s@)
}

/// The relation records leaving `node`, each with its target, in the
/// order the graph lists them.
pub uninterp spec fn out_edges_held(graph: DirGraph, node: u32) -> Seq<(u32, u32)>;

/// A connectivity triple as plain values.
pub open spec fn triple_view(t: ConnectivityTriple) -> (Seq<char>, Seq<char>, Seq<char>, u64) {
    (t.src@, t.conn@, t.tgt@, t.count)
}

/// `type_indices`: every node type with the number of nodes it holds, in
/// the store's own order (a hash map's walk, so only the multiset of pairs
/// is stated).
#[verifier::external_body]
pub(crate) fn type_index_counts(graph: &DirGraph) -> (r: Vec<(String, usize)>)
    ensures
        pair_views(r@).to_multiset() == type_index_held(*graph),
{
    graph.type_indices.iter().map(|(name, nodes)| (name.to_string(), nodes.len())).collect()
}

/// `type_indices`: the indices of every node of every type, type after
/// type in the store's own order (only the multiset is stated).
#[verifier::external_body]
pub(crate) fn type_index_nodes(graph: &DirGraph) -> (r: Vec<u32>)
    ensures
        r@.to_multiset() == indexed_nodes(*graph),
{
    graph.type_indices.iter().flat_map(|(_, nodes)| nodes.to_vec()).map(|i| i.index() as u32).collect()
}

/// `parent_types.contains_key`: the type has a parent in the `is_a` forest.
#[verifier::external_body]
pub(crate) fn has_parent_type(graph: &DirGraph, node_type: &str) -> (r: bool)
    ensures
        r == parent_types_held(*graph).contains(node_type@),
{
    graph.parent_types.contains_key(node_type)
}

/// The graph's own node counter.
#[verifier::external_body]
pub(crate) fn graph_node_count(graph: &DirGraph) -> (r: usize)
    ensures
        r == node_total(*graph),
{
    graph.graph.node_count()
}

/// The graph's own edge counter.
#[verifier::external_body]
pub(crate) fn graph_edge_count(graph: &DirGraph) -> (r: usize)
    ensures
        r == edge_total(*graph),
{
    graph.graph.edge_count()
}

/// `get_or_compute_type_connectivity`: the persisted cardinality cache, or
/// the scan that fills it when it is absent. It panics only when the cache's
/// lock was poisoned by a panic in another thread. The scan walks a hash
/// map, so only the multiset of triples is stated.
#[verifier::external_body]
pub(crate) fn type_connectivity(graph: &DirGraph) -> (r: Vec<ConnectivityTriple>)
    ensures
        r@.map_values(|t: ConnectivityTriple| triple_view(t)).to_multiset() == connectivity_held(
            *graph,
        ),
{
    graph
        .get_or_compute_type_connectivity()
        .into_iter()
        .map(|t| ConnectivityTriple { src: t.src, conn: t.conn, tgt: t.tgt, count: t.count as u64 })
        .collect()
}

/// `timeseries_configs.contains_key`: the type has a time-series config.
#[verifier::external_body]
pub(crate) fn has_timeseries_config(graph: &DirGraph, node_type: &str) -> (r: bool)
    ensures
        r == timeseries_types_held(*graph).contains(node_type@),
{
    graph.timeseries_configs.contains_key(node_type)
}

/// `spatial_configs.get`: for a type with a spatial config, whether it names
/// a location, how many named points it has, whether it names a geometry,
/// and how many named shapes it has.
#[verifier::external_body]
pub(crate) fn spatial_config_facts(graph: &DirGraph, node_type: &str) -> (r: Option<(bool, usize, bool, usize)>)
    ensures
        r == (if spatial_held(*graph).contains_key(node_type@) {
            Some(spatial_held(*graph)[node_type@])
        } else {
            None
        }),
{
    graph.spatial_configs.get(node_type).map(
        |sc| (sc.location.is_some(), sc.points.len(), sc.geometry.is_some(), sc.shapes.len()),
    )
}

/// `node_type_metadata.get`: the declared type names of a type's
/// properties, when the type has metadata.
#[verifier::external_body]
pub(crate) fn property_type_names(graph: &DirGraph, node_type: &str) -> (r: Option<Vec<String>>)
    ensures
        r is Some <==> property_types_held(*graph).contains_key(node_type@),
        r matches Some(v) ==> text_views(v@).to_multiset() == property_types_held(*graph)[node_type@],
{
    graph.node_type_metadata.get(node_type).map(|meta| meta.values().cloned().collect())
}

/// `embeddings.keys`: the node type of every embedding store.
#[verifier::external_body]
pub(crate) fn embedding_node_types(graph: &DirGraph) -> (r: Vec<String>)
    ensures
        text_views(r@).to_multiset() == embedding_types_held(*graph),
{
    graph.embeddings.keys().map(|(node_type, _)| node_type.clone()).collect()
}

/// `count_edges_filtered`: the edges of `node` along one direction with the
/// given relationship name whose far node has the given type; `None` where
/// the engine answers with an error, which it does only when the deadline
/// has passed.
#[verifier::external_body]
pub(crate) fn count_edges_filtered(
    graph: &DirGraph,
    node: u32,
    outgoing: bool,
    name: &str,
    other_type: &str,
    deadline: Option<Instant>,
) -> (r: Option<usize>)
    ensures
        r matches Some(c) ==> c == filtered_edge_count(*graph, node, outgoing, name@, other_type@),
        deadline is None ==> r == Some(filtered_edge_count(*graph, node, outgoing, name@, other_type@)),
{
    let dir = if outgoing { Direction::Outgoing } else { Direction::Incoming };
    graph
        .graph
        .count_edges_filtered(
            NodeIndex::new(node as usize),
            dir,
            Some(InternedKey::from_str(name)),
            Some(InternedKey::from_str(other_type)),
            deadline,
        )
        .ok()
}

/// `edge_endpoints`: the source and target of a relation record, `None`
/// where the graph holds no such record.
#[verifier::external_body]
pub(crate) fn edge_endpoints(graph: &DirGraph, edge_id: u32) -> (r: Option<(u32, u32)>)
    ensures
        r == (if graph_edges(*graph).contains_key(edge_id) {
            Some(graph_edges(*graph)[edge_id])
        } else {
            None
        }),
{
    graph
        .graph
        .edge_endpoints(EdgeIndex::new(edge_id as usize))
        .map(|(source, target)| (source.index() as u32, target.index() as u32))
}

/// `iter_peers_filtered`: the peers of `node` along one direction over
/// edges named `name`, in the order the graph lists them.
#[verifier::external_body]
pub(crate) fn peers_named(graph: &DirGraph, node: u32, outgoing: bool, name: &str) -> (r: Vec<u32>)
    ensures
        r@ == named_peers_held(*graph, node, outgoing, name@),
{
    let _guard = graph.begin_read_pass();
    let dir = if outgoing { Direction::Outgoing } else { Direction::Incoming };
    let conn = Some(InternedKey::from_str(name).as_u64());
    graph
        .graph
        .iter_peers_filtered(NodeIndex::new(node as usize), dir, conn)
        .map(|(peer, _)| peer.index() as u32)
        .collect()
}

/// `edges_directed_filtered` with no relationship filter: the peers of
/// `node` along one direction, each with its edge's relationship name (read
/// through the graph's interner), in the order the graph lists them.
#[verifier::external_body]
pub(crate) fn peers_all(graph: &DirGraph, node: u32, outgoing: bool) -> (r: Vec<(u32, String)>)
    ensures
        peer_name_views(r@) == peers_held(*graph, node, outgoing),
{
    let _guard = graph.begin_read_pass();
    let dir = if outgoing { Direction::Outgoing } else { Direction::Incoming };
    graph
        .graph
        .edges_directed_filtered(NodeIndex::new(node as usize), dir, None)
        .map(|er| {
            let peer = if outgoing { er.target() } else { er.source() };
            (peer.index() as u32, graph.interner.resolve(er.connection_type()).to_string())
        })
        .collect()
}

/// `edges`: the outgoing relation records of `node`, each with its target,
/// in the order the graph lists them.
#[verifier::external_body]
pub(crate) fn out_edges(graph: &DirGraph, node: u32) -> (r: Vec<(u32, u32)>)
    ensures
        r@ == out_edges_held(*graph, node),
{
    let _guard = graph.begin_read_pass();
    graph
        .graph
        .edges(NodeIndex::new(node as usize))
        .map(|edge| (edge.id().index() as u32, edge.target().index() as u32))
        .collect()
}

/// Whether the graph holds a node at `node`.
pub uninterp spec fn node_held(graph: DirGraph, node: u32) -> bool;

/// The nodes the type index lists under the type `name`, in its order;
/// `None` where the index has no such type.
pub uninterp spec fn typed_nodes_held(graph: DirGraph, name: Seq<char>) -> Option<Seq<u32>>;

/// A node's `id` cell, as the library's key view; `None` where the graph
/// holds no such node or the cell holds a kind of value (a float, a date, a
/// point, a duration) that no bookmark key here can carry.
pub uninterp spec fn id_cell_held(graph: DirGraph, node: u32) -> Option<(u8, int, Seq<char>)>;

/// `node_view(node).is_some()`: whether the graph holds a node at `node`.
#[verifier::external_body]
pub(crate) fn node_present(graph: &DirGraph, node: u32) -> (r: bool)
    ensures
        r == node_held(*graph, node),
{
    graph.node_view(NodeIndex::new(node as usize)).is_some()
}

/// `type_indices.get(name)`: the nodes listed under the type `name`, in
/// the index's order.
#[verifier::external_body]
pub(crate) fn typed_nodes(graph: &DirGraph, name: &str) -> (r: Option<Vec<u32>>)
    ensures
        match typed_nodes_held(*graph, name@) {
            Some(held) => r matches Some(v) && v@ == held,
            None => r is None,
        },
{
    graph.type_indices.get(name).map(|nodes| nodes.iter().map(|i| i.index() as u32).collect())
}

/// `node_view(node)` and its `id()` cell, each kind of value moved into
/// the key it stands for; `None` for no node or a kind no key carries.
#[verifier::external_body]
pub(crate) fn id_cell(graph: &DirGraph, node: u32) -> (r: Option<MemberKey>)
    ensures
        match r {
            Some(k) => id_cell_held(*graph, node) == Some(key_view(k)),
            None => id_cell_held(*graph, node) is None,
        },
{
    let view = graph.node_view(NodeIndex::new(node as usize))?;
    match view.id().into_owned() {
        Value::Null => Some(MemberKey::Null),
        Value::Int64(i) => Some(MemberKey::Int(i)),
        Value::String(s) => Some(MemberKey::Text(s)),
        Value::Boolean(b) => Some(MemberKey::Bool(b)),
        Value::UniqueId(u) => Some(MemberKey::Unique(u)),
        _ => None,
    }
}

} // verus!
