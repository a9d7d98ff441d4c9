use std::collections::HashMap;
use std::time::{Duration, Instant};

use kglite::api::session::{execute_mut, ExecuteOptions};
use kglite::api::DirGraph;

use kglite_visual::capture::{capture_output, capture_scope, captured_edges, ViewSnapshot};
use kglite_visual::error::CoreError;
use kglite_visual::output::{CaptureOutputRequest, OutputScope};
use kglite_visual::shared::{check_stamp, RevisionStamp};
use kglite_visual::views::{check_catalog_bytes, ViewStoreError, MAX_CATALOG_BYTES};

/// Items a, b, c, d (indices 0 to 3) with a -> b, b -> b and c -> d
/// (relation records 0, 1 and 2).
fn chain() -> DirGraph {
    let mut graph = DirGraph::new();
    let empty = HashMap::new();
    execute_mut(
        &mut graph,
        r#"
        CREATE (a:Item {title: 'a'})
        CREATE (b:Item {title: 'b'})
        CREATE (c:Item {title: 'c'})
        CREATE (d:Item {title: 'd'})
        CREATE (a)-[:LINKS]->(b)
        CREATE (b)-[:LINKS]->(b)
        CREATE (c)-[:LINKS]->(d)
        "#,
        &ExecuteOptions::eager(&empty),
    )
    .expect("the fixture builds");
    graph
}

fn stamp(revision: &str) -> RevisionStamp {
    RevisionStamp { generation: "g1".to_string(), revision: revision.to_string() }
}

fn snapshot() -> ViewSnapshot {
    ViewSnapshot {
        subset_revision: "s7".to_string(),
        visible_nodes: vec![3, 1, 1, 0],
        live_nodes: vec![2, 0, 1],
        view_edges: vec![Some(2), None, Some(0), Some(1), Some(0)],
        visible_edge_ids: vec![0, 2],
    }
}

fn later() -> Instant {
    Instant::now() + Duration::from_secs(10)
}

fn refusal_text(e: CoreError) -> String {
    match e {
        CoreError::Request(m) => m,
        CoreError::Conflict(c) => panic!("expected a refusal, got the conflict {}", c.code),
    }
}

#[test]
fn a_stale_stamp_is_a_revision_conflict_carrying_both_stamps() {
    match check_stamp(&stamp("r1"), &stamp("r2")) {
        Err(CoreError::Conflict(c)) => {
            assert_eq!(c.code, "revision-conflict");
            assert_eq!(c.expected, stamp("r1"));
            assert_eq!(c.actual, stamp("r2"));
        }
        other => panic!("expected a conflict, got {other:?}"),
    }
    assert!(check_stamp(&stamp("r2"), &stamp("r2")).is_ok());
    let other_generation = RevisionStamp { generation: "g2".to_string(), revision: "r2".to_string() };
    assert!(check_stamp(&other_generation, &stamp("r2")).is_err());
}

#[test]
fn a_changed_subset_is_a_subset_conflict() {
    match capture_scope(&snapshot(), &stamp("r2"), &stamp("r2"), "s6", OutputScope::Visible) {
        Err(CoreError::Conflict(c)) => {
            assert_eq!(c.code, "subset-revision-conflict");
            assert_eq!(c.message, "visible subset changed; refresh the output preview");
        }
        other => panic!("expected a conflict, got {other:?}"),
    }
    match capture_scope(&snapshot(), &stamp("r1"), &stamp("r2"), "s7", OutputScope::Visible) {
        Err(CoreError::Conflict(c)) => assert_eq!(c.code, "revision-conflict"),
        other => panic!("expected a conflict, got {other:?}"),
    }
}

#[test]
fn a_scope_captures_its_nodes_once_each_ascending() {
    let visible = capture_scope(&snapshot(), &stamp("r2"), &stamp("r2"), "s7", OutputScope::Visible).unwrap();
    assert_eq!(visible, vec![0, 1, 3]);
    let loaded = capture_scope(&snapshot(), &stamp("r2"), &stamp("r2"), "s7", OutputScope::LoadedInduced).unwrap();
    assert_eq!(loaded, vec![0, 1, 2]);
}

#[test]
fn an_empty_or_oversized_scope_is_refused() {
    let mut empty = snapshot();
    empty.visible_nodes.clear();
    let e = capture_scope(&empty, &stamp("r2"), &stamp("r2"), "s7", OutputScope::Visible).unwrap_err();
    assert_eq!(
        refusal_text(e),
        "there are no instance nodes in this output scope; load nodes or change the filters first"
    );
    let mut big = snapshot();
    big.live_nodes = (0..5001).collect();
    let e = capture_scope(&big, &stamp("r2"), &stamp("r2"), "s7", OutputScope::LoadedInduced).unwrap_err();
    assert_eq!(refusal_text(e), "output exceeds 5000 instance nodes");
    big.live_nodes = (0..5000).rev().collect();
    assert_eq!(capture_scope(&big, &stamp("r2"), &stamp("r2"), "s7", OutputScope::LoadedInduced).unwrap().len(), 5000);
}

#[test]
fn the_visible_scope_captures_the_shown_records_of_the_view() {
    let graph = chain();
    let edges = captured_edges(&graph, &snapshot(), &vec![0, 1, 2, 3], OutputScope::Visible, later()).unwrap();
    assert_eq!(edges, vec![0, 2]);
}

#[test]
fn the_loaded_scope_captures_every_record_between_loaded_nodes() {
    let graph = chain();
    let edges = captured_edges(&graph, &snapshot(), &vec![0, 1, 2], OutputScope::LoadedInduced, later()).unwrap();
    assert_eq!(edges, vec![0, 1]);
    let all = captured_edges(&graph, &snapshot(), &vec![3, 2, 1, 0], OutputScope::LoadedInduced, later()).unwrap();
    assert_eq!(all, vec![0, 1, 2]);
}

#[test]
fn a_visible_record_outside_the_scope_or_the_graph_is_refused() {
    let graph = chain();
    let e = captured_edges(&graph, &snapshot(), &vec![0, 1], OutputScope::Visible, later()).unwrap_err();
    assert_eq!(refusal_text(e), "captured relation has an endpoint outside the output scope");
    let mut state = snapshot();
    state.view_edges = vec![Some(99)];
    state.visible_edge_ids = vec![99];
    let e = captured_edges(&graph, &state, &vec![0, 1], OutputScope::Visible, later()).unwrap_err();
    assert_eq!(refusal_text(e), "captured relation is absent from the source");
}

#[test]
fn a_passed_deadline_refuses_the_walk() {
    let graph = chain();
    let e = captured_edges(&graph, &snapshot(), &vec![0, 1, 2], OutputScope::LoadedInduced, Instant::now()).unwrap_err();
    assert_eq!(refusal_text(e), "output capture exceeded its 10 second work deadline");
}

#[test]
fn an_output_captures_nodes_and_records_at_the_current_stamp() {
    let graph = chain();
    let request = CaptureOutputRequest {
        scope: OutputScope::Visible,
        expected: stamp("r2"),
        subset_revision: "s7".to_string(),
    };
    // Record 2 runs c -> d, and c is not among the visible nodes 0, 1, 3.
    let e = capture_output(&graph, &snapshot(), &stamp("r2"), &request, later()).unwrap_err();
    assert_eq!(refusal_text(e), "captured relation has an endpoint outside the output scope");
    let mut state = snapshot();
    state.visible_nodes = vec![0, 1, 2, 3];
    let captured = capture_output(&graph, &state, &stamp("r2"), &request, later()).unwrap();
    assert_eq!(captured.nodes, vec![0, 1, 2, 3]);
    assert_eq!(captured.edge_ids, vec![0, 2]);
    assert_eq!(captured.stamp, stamp("r2"));
    assert_eq!(captured.subset_revision, "s7");
    assert_eq!(captured.scope, OutputScope::Visible);
    let stale = capture_output(&graph, &state, &stamp("r3"), &request, later());
    assert!(matches!(stale, Err(CoreError::Conflict(_))));
}

#[test]
fn a_catalog_file_past_40_mib_is_refused_before_it_is_read() {
    assert!(check_catalog_bytes(MAX_CATALOG_BYTES as u64).is_ok());
    match check_catalog_bytes(MAX_CATALOG_BYTES as u64 + 1) {
        Err(ViewStoreError::Refused(m)) => {
            assert_eq!(m, "saved-view catalog exceeds 40 MiB; existing work was not overwritten")
        }
        other => panic!("expected a refusal, got {other:?}"),
    }
}

use kglite_visual::bookmark_members::{resolve_members, BookmarkMember, MemberKey};
use kglite_visual::shared::NodeHandle;

/// Items keyed 'a', 'b', 'c' (indices 0 to 2), a Tag keyed 7 (index 3), and
/// two Dup nodes sharing the key 'x' (indices 4 and 5).
fn keyed_graph() -> DirGraph {
    let mut graph = DirGraph::new();
    let empty = HashMap::new();
    execute_mut(
        &mut graph,
        r#"
        CREATE (:Item {id: 'a', title: 'A'})
        CREATE (:Item {id: 'b', title: 'B'})
        CREATE (:Item {id: 'c', title: 'C'})
        CREATE (:Tag {id: 7, title: 'seven'})
        CREATE (:Dup {id: 'x', title: 'one'})
        CREATE (:Dup {id: 'x', title: 'two'})
        "#,
        &ExecuteOptions::eager(&empty),
    )
    .expect("the fixture builds");
    graph
}

fn key(node_type: &str, key: MemberKey) -> BookmarkMember {
    BookmarkMember::Key { node_type: node_type.to_string(), key }
}

fn text(s: &str) -> MemberKey {
    MemberKey::Text(s.to_string())
}

fn handle(generation: &str, node_id: u32) -> BookmarkMember {
    BookmarkMember::Handle { handle: NodeHandle { generation: generation.to_string(), node_id } }
}

fn item_index(graph: &DirGraph, id: &str) -> u32 {
    let members = vec![key("Item", text(id))];
    resolve_members(graph, &members, "g1", None).unwrap()[0]
}

#[test]
fn keys_and_handles_resolve_in_member_order() {
    let graph = keyed_graph();
    let b = item_index(&graph, "b");
    let c = item_index(&graph, "c");
    assert_ne!(b, c);
    let members = vec![key("Item", text("c")), handle("g1", b), key("Tag", MemberKey::Int(7))];
    let ids = resolve_members(&graph, &members, "g1", None).unwrap();
    assert_eq!(ids.len(), 3);
    assert_eq!(ids[0], c);
    assert_eq!(ids[1], b);
    assert!(ids[2] != b && ids[2] != c);
}

#[test]
fn a_handle_of_another_generation_is_refused() {
    let graph = keyed_graph();
    let e = resolve_members(&graph, &vec![handle("g0", 0)], "g1", None).unwrap_err();
    assert_eq!(refusal_text(e), "session-only bookmark belongs to another source session");
    let e = resolve_members(&graph, &vec![handle("g1", 999)], "g1", None).unwrap_err();
    assert_eq!(refusal_text(e), "session-only bookmark belongs to another source session");
}

#[test]
fn a_key_must_be_a_scalar_and_asked_for_once() {
    let graph = keyed_graph();
    for bad in [MemberKey::Null, MemberKey::List, MemberKey::Record] {
        let e = resolve_members(&graph, &vec![key("Item", bad)], "g1", None).unwrap_err();
        assert_eq!(refusal_text(e), "durable member keys must be non-null scalar values");
    }
    let twice = vec![key("Item", text("a")), key("Item", text("a"))];
    let e = resolve_members(&graph, &twice, "g1", None).unwrap_err();
    assert_eq!(refusal_text(e), "bookmark has duplicate or invalid member keys");
    let long = vec![key(&"T".repeat(257), text("a"))];
    let e = resolve_members(&graph, &long, "g1", None).unwrap_err();
    assert_eq!(refusal_text(e), "bookmark has duplicate or invalid member keys");
}

#[test]
fn an_absent_type_an_absent_key_and_a_shared_key_are_refused() {
    let graph = keyed_graph();
    let e = resolve_members(&graph, &vec![key("Nope", text("a"))], "g1", None).unwrap_err();
    assert_eq!(refusal_text(e), "bookmark node type is absent");
    let e = resolve_members(&graph, &vec![key("Item", text("zzz"))], "g1", None).unwrap_err();
    assert_eq!(refusal_text(e), "bookmark source member is absent");
    let e = resolve_members(&graph, &vec![key("Dup", text("x"))], "g1", None).unwrap_err();
    assert_eq!(refusal_text(e), "source keys are ambiguous; exact durable restoration is unavailable");
    // A text key does not match a number key.
    let e = resolve_members(&graph, &vec![key("Tag", text("7"))], "g1", None).unwrap_err();
    assert_eq!(refusal_text(e), "bookmark source member is absent");
}

#[test]
fn two_members_naming_one_node_are_refused() {
    let graph = keyed_graph();
    let a = item_index(&graph, "a");
    let members = vec![key("Item", text("a")), handle("g1", a)];
    let e = resolve_members(&graph, &members, "g1", None).unwrap_err();
    assert_eq!(refusal_text(e), "bookmark repeats a source member");
}

#[test]
fn more_than_5000_members_are_refused() {
    let graph = keyed_graph();
    let many: Vec<BookmarkMember> = (0..5001).map(|_| handle("g1", 0)).collect();
    let e = resolve_members(&graph, &many, "g1", None).unwrap_err();
    assert_eq!(refusal_text(e), "bookmark exceeds 5000 members");
}
