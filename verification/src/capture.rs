//! What an output captures from the shared view: which source nodes, and
//! which relation records among them, checked against the revision the
//! caller saw and the capture ceilings.
use std::collections::HashSet;
use std::time::Instant;

use vstd::prelude::*;

use kglite::api::DirGraph;

use crate::calculation_kernels::{MAX_LOADED_EDGES, MAX_LOADED_NODES};
use crate::calculations::{held_end, lemma_unique_sorted_is_canonical, r_nodes, sorted_unique, strictly_increasing};
use crate::error::{is_conflict, is_refusal, refusal, CoreError, RevisionConflict};
use crate::graph_reads::{edge_endpoints, graph_edges, out_edges, out_edges_held};
use crate::output::{CaptureOutputRequest, OutputScope};
use crate::output_values::{check_deadline, output_deadline_message};
use crate::shared::{check_stamp, copy_stamp, revision_conflict_code, revision_conflict_message, RevisionStamp};

verus! {

/// What a capture reads of the shared view, as plain values.
#[derive(Debug, Clone)]
pub struct ViewSnapshot {
    /// The visible subset's revision, as the caller is shown it.
    pub subset_revision: String,
    /// The node ids of the visible subset's nodes.
    pub visible_nodes: Vec<u32>,
    /// The node ids of the view's live node slots.
    pub live_nodes: Vec<u32>,
    /// The relation record each edge of the view stands for, if any.
    pub view_edges: Vec<Option<u32>>,
    /// The visible subset's relation records.
    pub visible_edge_ids: Vec<u32>,
}

/// The refusal of an empty scope.
pub open spec fn empty_scope_message() -> Seq<char> {
    "there are no instance nodes in this output scope; load nodes or change the filters first"@
}

/// The refusal of a scope over the node ceiling.
pub open spec fn too_many_nodes_message() -> Seq<char> {
    "output exceeds 5000 instance nodes"@
}

/// The refusal of an induced walk over the relation ceiling.
pub open spec fn loaded_edges_message() -> Seq<char> {
    "loaded induced output exceeds 20000 relation records"@
}

/// The refusal of a capture over the relation ceiling.
pub open spec fn too_many_edges_message() -> Seq<char> {
    "output exceeds 20000 relation records"@
}

/// The code of a subset-revision conflict.
pub open spec fn subset_conflict_code() -> Seq<char> {
    "subset-revision-conflict"@
}

/// The message of a subset-revision conflict.
pub open spec fn subset_conflict_message() -> Seq<char> {
    "visible subset changed; refresh the output preview"@
}

/// The node ids a scope names, before sorting.
pub open spec fn scope_listing(state: ViewSnapshot, scope: OutputScope) -> Seq<u32> {
    match scope {
        OutputScope::Visible => state.visible_nodes@,
        OutputScope::LoadedInduced => state.live_nodes@,
    }
}

/// The source nodes an output captures: a stamp other than the current
/// one is a revision conflict, then a subset revision other than the
/// view's is a subset conflict; otherwise the scope's node ids, each once
/// and ascending, refused when there are none or more than 5000.
pub fn capture_scope(
    state: &ViewSnapshot,
    expected: &RevisionStamp,
    actual: &RevisionStamp,
    subset_revision: &str,
    scope: OutputScope,
) -> (r: Result<Vec<u32>, CoreError>)
    ensures
        ({
            let fresh = expected.generation@ == actual.generation@ && expected.revision@ == actual.revision@;
            let same_subset = subset_revision@ == state.subset_revision@;
            let ids = r_nodes(scope_listing(*state, scope));
            &&& !fresh ==> (r matches Err(e) && is_conflict(
                e,
                revision_conflict_code(),
                *expected,
                *actual,
                revision_conflict_message(),
            ))
            &&& fresh && !same_subset ==> (r matches Err(e) && is_conflict(
                e,
                subset_conflict_code(),
                *expected,
                *actual,
                subset_conflict_message(),
            ))
            &&& fresh && same_subset && ids.len() == 0 ==> (r matches Err(e) && is_refusal(e, empty_scope_message()))
            &&& fresh && same_subset && ids.len() > MAX_LOADED_NODES ==> (r matches Err(e) && is_refusal(
                e,
                too_many_nodes_message(),
            ))
            &&& r is Ok <==> (fresh && same_subset && 0 < ids.len() <= MAX_LOADED_NODES)
            &&& r matches Ok(v) ==> v@ == ids && strictly_increasing(v@)
        }),
{
    match check_stamp(expected, actual) {
        Ok(()) => {},
        Err(e) => {
            return Err(e);
        },
    }
    if !crate::export::str_eq(subset_revision, state.subset_revision.as_str()) {
        return Err(
            CoreError::Conflict(
                RevisionConflict {
                    code: "subset-revision-conflict".to_owned(),
                    expected: copy_stamp(expected),
                    actual: copy_stamp(actual),
                    message: "visible subset changed; refresh the output preview".to_owned(),
                },
            ),
        );
    }
    let listing = match scope {
        OutputScope::Visible => &state.visible_nodes,
        OutputScope::LoadedInduced => &state.live_nodes,
    };
    let ids = sorted_unique(listing);
    proof {
        lemma_unique_sorted_is_canonical(ids@, listing@);
    }
    if ids.len() == 0 {
        return Err(
            refusal(
                "there are no instance nodes in this output scope; load nodes or change the filters first",
            ),
        );
    }
    if ids.len() > MAX_LOADED_NODES {
        return Err(refusal("output exceeds 5000 instance nodes"));
    }
    Ok(ids)
}

/// The relation records of the view's edges that the visible subset
/// shows, in view order (a record may repeat).
pub open spec fn visible_edge_listing(view_edges: Seq<Option<u32>>, visible: Seq<u32>) -> Seq<u32>
    decreases view_edges.len(),
{
    if view_edges.len() == 0 {
        Seq::empty()
    } else {
        let rest = visible_edge_listing(view_edges.drop_last(), visible);
        match view_edges.last() {
            Some(id) => if visible.contains(id) {
                rest.push(id)
            } else {
                rest
            },
            None => rest,
        }
    }
}

/// The records among `out` (record, target) whose target is a member, in
/// order.
pub open spec fn edge_hits(out: Seq<(u32, u32)>, members: Set<u32>) -> Seq<u32>
    decreases out.len(),
{
    if out.len() == 0 {
        Seq::empty()
    } else {
        let rest = edge_hits(out.drop_last(), members);
        if members.contains(out.last().1) {
            rest.push(out.last().0)
        } else {
            rest
        }
    }
}

/// The induced walk over the first `a` nodes: each node's outgoing records
/// to a member, node after node, in the order the graph lists them.
pub open spec fn induced_walk(graph: DirGraph, nodes: Seq<u32>, a: int) -> Seq<u32>
    decreases a,
{
    if a <= 0 || a > nodes.len() {
        Seq::empty()
    } else {
        induced_walk(graph, nodes, a - 1) + edge_hits(out_edges_held(graph, nodes[a - 1]), nodes.to_set())
    }
}

/// `s` with repeats dropped, first occurrences kept in order.
pub open spec fn distinct(s: Seq<u32>) -> Seq<u32>
    decreases s.len(),
{
    if s.len() == 0 {
        Seq::empty()
    } else {
        let p = distinct(s.drop_last());
        if p.contains(s.last()) {
            p
        } else {
            p.push(s.last())
        }
    }
}

/// The first problem among the first `k` of `ids`: a record the graph does
/// not hold, or one with an endpoint outside `members`.
pub open spec fn endpoint_problem(graph: DirGraph, members: Set<u32>, ids: Seq<u32>, k: int) -> Option<Seq<char>>
    decreases k,
{
    if k <= 0 {
        None
    } else {
        match endpoint_problem(graph, members, ids, k - 1) {
            Some(m) => Some(m),
            None => match held_end(graph, ids[k - 1]) {
                None => Some("captured relation is absent from the source"@),
                Some(st) => if !members.contains(st.0) || !members.contains(st.1) {
                    Some("captured relation has an endpoint outside the output scope"@)
                } else {
                    None
                },
            },
        }
    }
}

/// The records a scope captures, before sorting: the visible ones for the
/// visible subset, the induced walk's distinct records for every loaded node.
pub open spec fn edge_listing(graph: DirGraph, state: ViewSnapshot, nodes: Seq<u32>, scope: OutputScope) -> Seq<u32> {
    match scope {
        OutputScope::Visible => visible_edge_listing(state.view_edges@, state.visible_edge_ids@),
        OutputScope::LoadedInduced => distinct(induced_walk(graph, nodes, nodes.len() as int)),
    }
}

/// Why the records `nodes` capture are refused, the clock aside: an
/// induced walk that found more than 20000 distinct records, more than
/// 20000 records once each, or the first record the graph does not hold
/// between two of `nodes`.
pub open spec fn edges_refused(graph: DirGraph, state: ViewSnapshot, nodes: Seq<u32>, scope: OutputScope) -> Option<Seq<char>> {
    let listing = edge_listing(graph, state, nodes, scope);
    let ids = r_nodes(listing);
    if scope is LoadedInduced && listing.len() > MAX_LOADED_EDGES {
        Some(loaded_edges_message())
    } else if ids.len() > MAX_LOADED_EDGES {
        Some(too_many_edges_message())
    } else {
        endpoint_problem(graph, nodes.to_set(), ids, ids.len() as int)
    }
}

/// The relation records an output captures among `nodes`: for the visible
/// subset, the view's edges the subset shows; for every loaded node, every
/// record the graph holds between two of them (refused past 20000 as they
/// are found). Then each once and ascending, refused past 20000, and each
/// checked against the graph: held, with both endpoints among `nodes`. The
/// deadline may refuse at any record.
pub fn captured_edges(
    graph: &DirGraph,
    state: &ViewSnapshot,
    nodes: &Vec<u32>,
    scope: OutputScope,
    deadline: Instant,
) -> (r: Result<Vec<u32>, CoreError>)
    ensures
        edges_refused(*graph, *state, nodes@, scope) is Some ==> r is Err,
        r matches Ok(v) ==> v@ == r_nodes(edge_listing(*graph, *state, nodes@, scope)) && strictly_increasing(v@)
            && v@.len() <= MAX_LOADED_EDGES,
        r matches Err(e) ==> is_refusal(e, output_deadline_message()) || (edges_refused(
            *graph,
            *state,
            nodes@,
            scope,
        ) matches Some(m) && is_refusal(e, m)),
{
    broadcast use vstd::std_specs::hash::group_hash_axioms;

    let ghost members = nodes@.to_set();
    let mut member_set: HashSet<u32> = HashSet::new();
    let mut n: usize = 0;
    while n < nodes.len()
        invariant
            n <= nodes@.len(),
            forall|x: u32| member_set@.contains(x) <==> exists|q: int| 0 <= q < n && #[trigger] nodes@[q] == x,
        decreases nodes@.len() - n,
    {
        member_set.insert(nodes[n]);
        proof {
            assert forall|x: u32| member_set@.contains(x) <==> exists|q: int| 0 <= q < n + 1 && #[trigger] nodes@[q] == x by {
                if x == nodes@[n as int] {
                    assert(nodes@[n as int] == x);
                }
            }
        }
        n = n + 1;
    }
    assert(forall|x: u32| member_set@.contains(x) <==> members.contains(x));
    let ghost listing = edge_listing(*graph, *state, nodes@, scope);
    let found: Vec<u32> = match scope {
        OutputScope::Visible => {
            let mut visible: HashSet<u32> = HashSet::new();
            let mut i: usize = 0;
            while i < state.visible_edge_ids.len()
                invariant
                    i <= state.visible_edge_ids@.len(),
                    forall|x: u32| visible@.contains(x) <==> exists|q: int| 0 <= q < i && #[trigger] state.visible_edge_ids@[q] == x,
                decreases state.visible_edge_ids@.len() - i,
            {
                visible.insert(state.visible_edge_ids[i]);
                proof {
                    assert forall|x: u32| visible@.contains(x) <==> exists|q: int| 0 <= q < i + 1 && #[trigger] state.visible_edge_ids@[q] == x by {
                        if x == state.visible_edge_ids@[i as int] {
                            assert(state.visible_edge_ids@[i as int] == x);
                        }
                    }
                }
                i = i + 1;
            }
            let mut out: Vec<u32> = Vec::new();
            let mut k: usize = 0;
            while k < state.view_edges.len()
                invariant
                    k <= state.view_edges@.len(),
                    forall|x: u32| visible@.contains(x) <==> state.visible_edge_ids@.contains(x),
                    out@ == visible_edge_listing(state.view_edges@.take(k as int), state.visible_edge_ids@),
                decreases state.view_edges@.len() - k,
            {
                assert(state.view_edges@.take(k + 1).drop_last() =~= state.view_edges@.take(k as int));
                match state.view_edges[k] {
                    Some(id) => {
                        if visible.contains(&id) {
                            out.push(id);
                        }
                    },
                    None => {},
                }
                k = k + 1;
            }
            assert(state.view_edges@.take(state.view_edges@.len() as int) =~= state.view_edges@);
            out
        },
        OutputScope::LoadedInduced => {
            let mut seen: HashSet<u32> = HashSet::new();
            let mut out: Vec<u32> = Vec::new();
            let mut a: usize = 0;
            while a < nodes.len()
                invariant
                    a <= nodes@.len(),
                    scope is LoadedInduced,
                    listing == edge_listing(*graph, *state, nodes@, scope),
                    forall|x: u32| member_set@.contains(x) <==> members.contains(x),
                    members == nodes@.to_set(),
                    out@ == distinct(induced_walk(*graph, nodes@, a as int)),
                    forall|x: u32| seen@.contains(x) <==> out@.contains(x),
                    out@.len() <= MAX_LOADED_EDGES,
                decreases nodes@.len() - a,
            {
                let edges = out_edges(graph, nodes[a]);
                let ghost base = induced_walk(*graph, nodes@, a as int);
                let ghost held = out_edges_held(*graph, nodes@[a as int]);
                let mut j: usize = 0;
                while j < edges.len()
                    invariant
                        j <= edges@.len(),
                        a < nodes@.len(),
                        scope is LoadedInduced,
                        listing == edge_listing(*graph, *state, nodes@, scope),
                        members == nodes@.to_set(),
                        base == induced_walk(*graph, nodes@, a as int),
                        held == out_edges_held(*graph, nodes@[a as int]),
                        edges@ == held,
                        forall|x: u32| member_set@.contains(x) <==> members.contains(x),
                        out@ == distinct(base + edge_hits(held.take(j as int), members)),
                        forall|x: u32| seen@.contains(x) <==> out@.contains(x),
                        out@.len() <= MAX_LOADED_EDGES,
                    decreases edges@.len() - j,
                {
                    let r0 = check_deadline(deadline);
                    match r0 {
                        Ok(()) => {},
                        Err(e) => {
                            return Err(e);
                        },
                    }
                    let (id, target) = edges[j];
                    let ghost pre = base + edge_hits(held.take(j as int), members);
                    proof {
                        assert(held.take(j + 1).drop_last() =~= held.take(j as int));
                        assert(held.take(j + 1).last() == (id, target));
                    }
                    if member_set.contains(&target) {
                        assert(base + edge_hits(held.take(j + 1), members) =~= pre.push(id));
                        assert(pre.push(id).drop_last() =~= pre);
                        assert(pre.push(id).last() == id);
                        assert(out@ == distinct(pre));
                        if !seen.contains(&id) {
                            assert(!distinct(pre).contains(id));
                            assert(distinct(pre.push(id)) == distinct(pre).push(id));
                            let ghost out0 = out@;
                            let ghost seen0 = seen@;
                            seen.insert(id);
                            out.push(id);
                            assert(out@ == out0.push(id));
                            assert(out@ == distinct(pre.push(id)));
                            proof {
                                assert(out@.drop_last() =~= out0);
                                assert forall|x: u32| seen@.contains(x) <==> out@.contains(x) by {
                                    if out@.contains(x) {
                                        let q = choose|q: int| 0 <= q < out@.len() && out@[q] == x;
                                        if q < out0.len() {
                                            assert(out0[q] == x);
                                            assert(out0.contains(x));
                                        }
                                    }
                                    if seen@.contains(x) {
                                        if x == id {
                                            assert(out@[out0.len() as int] == x);
                                        } else {
                                            assert(seen0.contains(x));
                                            let q = choose|q: int| 0 <= q < out0.len() && out0[q] == x;
                                            assert(out@[q] == x);
                                        }
                                    }
                                }
                            }
                        } else {
                            assert(distinct(pre).contains(id));
                            assert(distinct(pre.push(id)) == distinct(pre));
                            assert(out@ == distinct(pre.push(id)));
                        }
                        assert(out@ == distinct(pre.push(id)));
                    } else {
                        assert(base + edge_hits(held.take(j + 1), members) =~= pre);
                        assert(out@ == distinct(pre));
                    }
                    assert(out@ == distinct(base + edge_hits(held.take(j + 1), members)));
                    if out.len() > MAX_LOADED_EDGES {
                        proof {
                            lemma_walk_reaches(*graph, nodes@, a as int, j + 1);
                            assert(listing == distinct(induced_walk(*graph, nodes@, nodes@.len() as int)));
                        }
                        return Err(refusal("loaded induced output exceeds 20000 relation records"));
                    }
                    j = j + 1;
                }
                proof {
                    assert(held.take(edges@.len() as int) =~= held);
                    assert(a + 1 <= nodes@.len());
                    assert(induced_walk(*graph, nodes@, a + 1) == base + edge_hits(held, nodes@.to_set()));
                }
                a = a + 1;
            }
            out
        },
    };
    assert(found@ == listing);
    assert(scope is LoadedInduced ==> found@.len() <= MAX_LOADED_EDGES);
    let ids = sorted_unique(&found);
    proof {
        lemma_unique_sorted_is_canonical(ids@, found@);
    }
    if ids.len() > MAX_LOADED_EDGES {
        return Err(refusal("output exceeds 20000 relation records"));
    }
    let mut k: usize = 0;
    while k < ids.len()
        invariant
            k <= ids@.len(),
            ids@ == r_nodes(listing),
            listing == edge_listing(*graph, *state, nodes@, scope),
            members == nodes@.to_set(),
            scope is LoadedInduced ==> listing.len() <= MAX_LOADED_EDGES,
            ids@.len() <= MAX_LOADED_EDGES,
            forall|x: u32| member_set@.contains(x) <==> members.contains(x),
            endpoint_problem(*graph, members, ids@, k as int) is None,
        decreases ids@.len() - k,
    {
        let r0 = check_deadline(deadline);
        match r0 {
            Ok(()) => {},
            Err(e) => {
                return Err(e);
            },
        }
        match edge_endpoints(graph, ids[k]) {
            None => {
                proof {
                    assert(endpoint_problem(*graph, members, ids@, k + 1) == Some("captured relation is absent from the source"@));
                    lemma_problem_stays(*graph, members, ids@, k + 1, ids@.len() as int);
                }
                return Err(refusal("captured relation is absent from the source"));
            },
            Some((s, t)) => {
                if !member_set.contains(&s) || !member_set.contains(&t) {
                    proof {
                        assert(held_end(*graph, ids@[k as int]) == Some((s, t)));
                        assert(endpoint_problem(*graph, members, ids@, k + 1) == Some("captured relation has an endpoint outside the output scope"@));
                        lemma_problem_stays(*graph, members, ids@, k + 1, ids@.len() as int);
                    }
                    return Err(refusal("captured relation has an endpoint outside the output scope"));
                }
            },
        }
        k = k + 1;
    }
    Ok(ids)
}

/// What an output captured of the shared view: the revision it was taken
/// at, the source nodes and the source relation records among them.
#[derive(Debug, Clone)]
pub struct CapturedSelection {
    pub stamp: RevisionStamp,
    pub subset_revision: String,
    pub scope: OutputScope,
    /// Source node ids, each once, ascending.
    pub nodes: Vec<u32>,
    /// Source relation records, each once, ascending.
    pub edge_ids: Vec<u32>,
}

/// Capture an output of the shared view at stamp `actual`, as `request`
/// asks: the stamp and subset checks and the scope's nodes of
/// `capture_scope`, then the records among them of `captured_edges`; the
/// deadline is checked once more at the end.
pub fn capture_output(
    graph: &DirGraph,
    state: &ViewSnapshot,
    actual: &RevisionStamp,
    request: &CaptureOutputRequest,
    deadline: Instant,
) -> (r: Result<CapturedSelection, CoreError>)
    ensures
        ({
            let expected = request.expected;
            let scope = request.scope;
            let fresh = expected.generation@ == actual.generation@ && expected.revision@ == actual.revision@;
            let same_subset = request.subset_revision@ == state.subset_revision@;
            let ids = r_nodes(scope_listing(*state, scope));
            let scoped = fresh && same_subset && 0 < ids.len() <= MAX_LOADED_NODES;
            &&& !fresh ==> (r matches Err(e) && is_conflict(
                e,
                revision_conflict_code(),
                expected,
                *actual,
                revision_conflict_message(),
            ))
            &&& fresh && !same_subset ==> (r matches Err(e) && is_conflict(
                e,
                subset_conflict_code(),
                expected,
                *actual,
                subset_conflict_message(),
            ))
            &&& fresh && same_subset && ids.len() == 0 ==> (r matches Err(e) && is_refusal(e, empty_scope_message()))
            &&& fresh && same_subset && ids.len() > MAX_LOADED_NODES ==> (r matches Err(e) && is_refusal(
                e,
                too_many_nodes_message(),
            ))
            &&& scoped && edges_refused(*graph, *state, ids, scope) is Some ==> r is Err
            &&& scoped ==> (r matches Err(e) ==> is_refusal(e, output_deadline_message()) || (edges_refused(
                *graph,
                *state,
                ids,
                scope,
            ) matches Some(m) && is_refusal(e, m)))
            &&& r matches Ok(c) ==> {
                &&& scoped
                &&& c.stamp == *actual
                &&& c.subset_revision@ == state.subset_revision@
                &&& c.scope == scope
                &&& c.nodes@ == ids
                &&& c.edge_ids@ == r_nodes(edge_listing(*graph, *state, ids, scope))
                &&& c.edge_ids@.len() <= MAX_LOADED_EDGES
            }
        }),
{
    let nodes = match capture_scope(state, &request.expected, actual, request.subset_revision.as_str(), request.scope) {
        Ok(v) => v,
        Err(e) => {
            return Err(e);
        },
    };
    let edge_ids = match captured_edges(graph, state, &nodes, request.scope, deadline) {
        Ok(v) => v,
        Err(e) => {
            return Err(e);
        },
    };
    match check_deadline(deadline) {
        Ok(()) => {},
        Err(e) => {
            return Err(e);
        },
    }
    Ok(
        CapturedSelection {
            stamp: copy_stamp(actual),
            subset_revision: state.subset_revision.clone(),
            scope: request.scope,
            nodes,
            edge_ids,
        },
    )
}

/// A problem found among the first `k` records is the problem of every
/// longer prefix.
proof fn lemma_problem_stays(graph: DirGraph, members: Set<u32>, ids: Seq<u32>, k: int, n: int)
    requires
        0 <= k <= n,
        endpoint_problem(graph, members, ids, k) is Some,
    ensures
        endpoint_problem(graph, members, ids, n) == endpoint_problem(graph, members, ids, k),
    decreases n - k,
{
    if k < n {
        lemma_problem_stays(graph, members, ids, k, n - 1);
    }
}

/// Appending never shrinks the distinct records.
proof fn lemma_distinct_push(s: Seq<u32>, x: u32)
    ensures
        distinct(s).len() <= distinct(s.push(x)).len(),
{
    assert(s.push(x).drop_last() =~= s);
}

/// The distinct records found by the walk up to node `a`, record `j`, are
/// no more than those of the whole walk.
proof fn lemma_walk_reaches(graph: DirGraph, nodes: Seq<u32>, a: int, j: int)
    requires
        0 <= a < nodes.len(),
        0 <= j <= out_edges_held(graph, nodes[a]).len(),
    ensures
        distinct(induced_walk(graph, nodes, a) + edge_hits(out_edges_held(graph, nodes[a]).take(j), nodes.to_set())).len()
            <= distinct(induced_walk(graph, nodes, nodes.len() as int)).len(),
    decreases nodes.len() - a, out_edges_held(graph, nodes[a]).len() - j,
{
    let held = out_edges_held(graph, nodes[a]);
    let members = nodes.to_set();
    let base = induced_walk(graph, nodes, a);
    let here = base + edge_hits(held.take(j), members);
    if j < held.len() {
        assert(held.take(j + 1).drop_last() =~= held.take(j));
        let next = base + edge_hits(held.take(j + 1), members);
        if members.contains(held[j].1) {
            assert(next =~= here.push(held[j].0));
            lemma_distinct_push(here, held[j].0);
        } else {
            assert(next =~= here);
        }
        lemma_walk_reaches(graph, nodes, a, j + 1);
    } else {
        assert(held.take(j) =~= held);
        assert(here == induced_walk(graph, nodes, a + 1));
        if a + 1 < nodes.len() {
            assert(held.take(0) =~= Seq::<(u32, u32)>::empty());
            assert(edge_hits(out_edges_held(graph, nodes[a + 1]).take(0), members) =~= Seq::<u32>::empty());
            assert(induced_walk(graph, nodes, a + 1) + edge_hits(out_edges_held(graph, nodes[a + 1]).take(0), members)
                =~= induced_walk(graph, nodes, a + 1));
            lemma_walk_reaches(graph, nodes, a + 1, 0);
        }
    }
}

} // verus!
