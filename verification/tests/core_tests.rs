use kglite_visual::bound::{apply, Bound, BoundInfo};
use kglite_visual::calculation_kernels::{degree, weak_components, CalculationInput, MAX_LOADED_NODES};
use kglite_visual::calculations::{
    input_from_endpoints, sorted_unique, calculation_id, run, validate_results, CalculateRequest, CalculationKind, CalculationMeta,
};
use kglite_visual::export::{filename_for, ExportFormat, ExportedView};
use kglite_visual::history::{RecoveryHistory, MAX_HISTORY_BYTES, MAX_HISTORY_ENTRIES};
use kglite_visual::layout::{jitter_step, SpiralWalker, JITTER_QUANTUM};
use kglite_visual::expand::ConnectivityTriple;
use kglite_visual::meta_graph::{compute_from, tier_for_core_types, DetailTier, TypeEntry};
use kglite_visual::shared::RevisionStamp;
use kglite_visual::subset::{DerivedColumn, FieldRef};

#[test]
fn directed_parallel_edges_and_self_loop_count_separately() {
    let input = CalculationInput { node_ids: vec![3, 8, 11], edges: vec![(0, 1), (0, 1), (1, 1)] };
    assert_eq!(degree(&input, None).unwrap(), vec![[0, 2, 2], [3, 1, 4], [0, 0, 0]]);
    assert_eq!(weak_components(&input, None).unwrap(), vec![[1, 2], [1, 2], [2, 1]]);
}

#[test]
fn weak_components_ignore_direction_and_edge_order_but_preserve_isolates() {
    let input = CalculationInput { node_ids: vec![2, 5, 8, 13, 21], edges: vec![(3, 1), (4, 0), (1, 3)] };
    assert_eq!(
        weak_components(&input, None).unwrap(),
        vec![[1, 2], [2, 2], [3, 1], [2, 2], [1, 2]]
    );
    let reversed = CalculationInput {
        node_ids: input.node_ids.clone(),
        edges: input.edges.iter().rev().map(|&(a, b)| (b, a)).collect(),
    };
    assert_eq!(weak_components(&input, None).unwrap(), weak_components(&reversed, None).unwrap());
}

#[test]
fn empty_input_and_bounds_have_explicit_results() {
    let empty = CalculationInput { node_ids: Vec::new(), edges: Vec::new() };
    assert!(degree(&empty, None).unwrap().is_empty());
    assert!(weak_components(&empty, None).unwrap().is_empty());
    assert!(degree(&empty, Some(std::time::Instant::now())).is_err());
    let too_many = CalculationInput { node_ids: (0..=MAX_LOADED_NODES as u32).collect(), edges: Vec::new() };
    assert!(degree(&too_many, None).is_err());
    let outside = CalculationInput { node_ids: vec![1], edges: vec![(0, 1)] };
    assert!(weak_components(&outside, None).is_err());
}

#[test]
fn unsorted_node_identities_are_refused_with_their_message() {
    let unsorted = CalculationInput { node_ids: vec![5, 5], edges: Vec::new() };
    let err = degree(&unsorted, None).unwrap_err();
    assert_eq!(err.message(), "calculation node identities must be unique and sorted");
}

fn frozen(kind: CalculationKind) -> (CalculationMeta, Vec<DerivedColumn>) {
    run(
        &CalculationInput { node_ids: vec![3, 8, 11], edges: vec![(0, 1), (0, 1), (1, 1)] },
        kind,
        "calc-one".to_string(),
        RevisionStamp { generation: "input-generation".into(), revision: "7".into() },
        "4".to_string(),
        None,
    )
    .unwrap()
}

fn set_value(fields: &mut [DerivedColumn], column: &str, node: u32, value: u32) {
    let col = fields.iter_mut().find(|c| c.column == column).unwrap();
    for v in col.field.values.iter_mut() {
        if v.0 == node {
            v.1 = value;
        }
    }
}

#[test]
fn result_validation_keeps_input_stamp_and_rejects_corrupt_degrees() {
    let (meta, mut fields) = frozen(CalculationKind::Degree);
    assert_eq!(meta.input_stamp.generation, "input-generation");
    assert_eq!(meta.input_stamp.revision, "7");
    assert_eq!(meta.input_subset_revision, "4");
    validate_results(&vec![meta.clone()], &fields).unwrap();
    set_value(&mut fields, "total", 3, 3);
    assert!(validate_results(&vec![meta], &fields).is_err());
}

#[test]
fn component_metadata_rejects_missing_members_and_wrong_sizes() {
    let (meta, fields) = frozen(CalculationKind::WeakComponents);
    validate_results(&vec![meta.clone()], &fields).unwrap();
    let mut missing = fields.clone();
    let col = missing.iter_mut().find(|c| c.column == "component_size").unwrap();
    col.field.values.retain(|v| v.0 != 11);
    assert!(validate_results(&vec![meta.clone()], &missing).is_err());
    let mut wrong = fields;
    set_value(&mut wrong, "component_size", 3, 3);
    assert!(validate_results(&vec![meta], &wrong).is_err());
}

#[test]
fn namespaced_definitions_and_algorithm_semantics_are_strict() {
    let (mut meta, fields) = frozen(CalculationKind::Degree);
    meta.fields[0].field = FieldRef::Property { name: "in".into() };
    assert!(validate_results(&vec![meta], &fields).is_err());
    let (mut meta, fields) = frozen(CalculationKind::Degree);
    meta.semantics = "undirected".into();
    assert!(validate_results(&vec![meta], &fields).is_err());
}

#[test]
fn a_frozen_degree_calculation_records_its_columns_and_counts() {
    let (meta, fields) = frozen(CalculationKind::Degree);
    assert_eq!(meta.node_count, 3);
    assert_eq!(meta.edge_count, 3);
    assert_eq!(meta.scope, "visible");
    assert_eq!(meta.status, "ready");
    let names: Vec<&str> = fields.iter().map(|c| c.column.as_str()).collect();
    assert_eq!(names, vec!["in", "out", "total"]);
    assert_eq!(fields[1].field.values, vec![(3, 2), (8, 1), (11, 0)]);
    assert_eq!(meta.fields[2].label, "Total degree");
}

#[test]
fn a_degree_total_that_disagrees_with_the_relation_count_names_the_defect() {
    let (mut meta, fields) = frozen(CalculationKind::Degree);
    meta.edge_count = 4;
    let err = validate_results(&vec![meta], &fields).unwrap_err();
    assert_eq!(err.message(), "frozen degree values do not match their captured relation count");
}

#[test]
fn orphaned_and_duplicated_calculations_are_refused() {
    let (meta, fields) = frozen(CalculationKind::Degree);
    let err = validate_results(&vec![], &fields).unwrap_err();
    assert_eq!(err.message(), "derived values have no matching calculation metadata");
    let err = validate_results(&vec![meta.clone(), meta], &fields).unwrap_err();
    assert_eq!(err.message(), "calculation identities must be unique");
}

#[test]
fn a_new_calculation_is_named_after_the_next_revision() {
    let request = CalculateRequest { kind: CalculationKind::Degree, calculation_id: None };
    assert_eq!(calculation_id(&request, &vec![], "gen", 41).unwrap(), "calc-gen-42");
    assert_eq!(
        calculation_id(&request, &vec![], "gen", u64::MAX).unwrap_err().message(),
        "view revision exhausted"
    );
    let (meta, _) = frozen(CalculationKind::Degree);
    let recompute = CalculateRequest { kind: CalculationKind::Degree, calculation_id: Some("calc-one".into()) };
    assert_eq!(calculation_id(&recompute, &vec![meta.clone()], "gen", 1).unwrap(), "calc-one");
    let other_kind = CalculateRequest { kind: CalculationKind::WeakComponents, calculation_id: Some("calc-one".into()) };
    assert_eq!(
        calculation_id(&other_kind, &vec![meta], "gen", 1).unwrap_err().message(),
        "recompute must preserve the existing calculation kind"
    );
}

#[test]
fn no_export_note_still_warns_about_a_missing_graphml_label() {
    for format in ExportFormat::ALL {
        let view = ExportedView { format, bytes: Vec::new(), nodes: 0, filename: String::new() };
        let notes = view.notes();
        assert!(!notes.is_empty(), "{} lost its edge-superset note", format.as_str());
        assert!(
            notes.iter().all(|note| !note.contains("label")),
            "{} still carries a label caveat",
            format.as_str()
        );
    }
}

#[test]
fn a_graph_name_cannot_decide_where_a_download_lands() {
    assert_eq!(
        filename_for("/tmp/Sokkelkart \u{c6}.kgl", ExportFormat::Graphml),
        "Sokkelkart \u{c6}-view.graphml",
        "a Norwegian name keeps its letters"
    );
    for hostile in ["../../etc/passwd", "a\"b", "a\nb", "..", "", "."] {
        let name = filename_for(hostile, ExportFormat::Csv);
        assert!(!name.contains('/'), "{hostile:?} -> {name}");
        assert!(!name.contains('\\'), "{hostile:?} -> {name}");
        assert!(!name.contains('"'), "{hostile:?} -> {name}");
        assert!(!name.starts_with('.'), "{hostile:?} -> {name}");
        assert!(name.ends_with("-view.csv"), "{hostile:?} -> {name}");
    }
}

#[test]
fn every_format_token_round_trips_and_an_unknown_one_names_the_alternatives() {
    for format in ExportFormat::ALL {
        assert_eq!(ExportFormat::parse(format.as_str()).unwrap(), format);
    }
    let err = ExportFormat::parse("xlsx").expect_err("there is no spreadsheet exporter");
    let message = err.message();
    for format in ExportFormat::ALL {
        assert!(message.contains(format.as_str()), "{message}");
    }
}

#[test]
fn the_spiral_visits_every_cell_of_the_first_two_rings() {
    let mut walker = SpiralWalker::default();
    let cells: Vec<(i32, i32)> = (0..9).map(|_| walker.next_cell()).collect();
    assert_eq!(
        cells,
        vec![(0, 0), (1, 0), (1, 1), (0, 1), (-1, 1), (-1, 0), (-1, -1), (0, -1), (1, -1)]
    );
}

#[test]
fn jitter_stays_inside_its_cell() {
    for slot in 0..2000 {
        for axis in 0..2 {
            let j = jitter_step(slot, axis) as f32 / JITTER_QUANTUM as f32;
            assert!(j.abs() <= 32.0, "slot {slot} axis {axis} jittered {j}");
        }
    }
}

#[test]
fn tier_thresholds_match_kglites_graph_scale() {
    assert_eq!(tier_for_core_types(0), DetailTier::Full);
    assert_eq!(tier_for_core_types(15), DetailTier::Full);
    assert_eq!(tier_for_core_types(16), DetailTier::Compact);
    assert_eq!(tier_for_core_types(200), DetailTier::Compact);
    assert_eq!(tier_for_core_types(201), DetailTier::TopTypes);
    assert_eq!(tier_for_core_types(5000), DetailTier::TopTypes);
    assert_eq!(tier_for_core_types(5001), DetailTier::Summary);
}

#[test]
fn only_the_summary_tier_stops_rendering_a_graph() {
    assert!(DetailTier::Full.renders_graph());
    assert!(DetailTier::Compact.renders_graph());
    assert!(DetailTier::TopTypes.renders_graph());
    assert!(!DetailTier::Summary.renders_graph());
}

#[test]
fn the_top_types_tier_clips_to_fifty_and_the_summary_tier_to_nothing() {
    assert_eq!(DetailTier::TopTypes.node_bound().max_items, 50);
    assert_eq!(DetailTier::Summary.node_bound().max_items, 0);
    assert_eq!(DetailTier::Full.node_bound().max_items, usize::MAX);
}

#[test]
fn tier_wire_names_are_kebab_case() {
    assert_eq!(DetailTier::TopTypes.wire_name(), "top-types");
    assert_eq!(DetailTier::Summary.wire_name(), "summary");
}

#[test]
fn an_unbounded_list_reports_untruncated() {
    let bound = Bound { max_items: 10, max_bytes: 1000 };
    let (kept, info) = apply(vec![1u32, 2, 3], bound, &[10, 10, 10]);
    assert_eq!(kept, vec![1, 2, 3]);
    assert_eq!(info, BoundInfo { returned: 3, total: 3, truncated: false });
}

#[test]
fn the_count_bound_can_fail_and_says_so() {
    let bound = Bound { max_items: 2, max_bytes: 1000 };
    let (kept, info) = apply(vec![1u32, 2, 3, 4], bound, &[10, 10, 10, 10]);
    assert_eq!(kept, vec![1, 2], "the bound keeps the prioritised prefix");
    assert_eq!(info, BoundInfo { returned: 2, total: 4, truncated: true });
}

#[test]
fn the_byte_bound_can_fail_independently_of_the_count_bound() {
    let bound = Bound { max_items: 100, max_bytes: 25 };
    let (kept, info) = apply(vec![1u32, 2, 3, 4], bound, &[10, 10, 10, 10]);
    assert_eq!(kept, vec![1, 2]);
    assert!(info.truncated);
}

#[test]
fn one_oversized_item_still_crosses_the_wire() {
    let bound = Bound { max_items: 100, max_bytes: 1 };
    let (kept, info) = apply(vec![1u32, 2, 3], bound, &[10, 10, 10]);
    assert_eq!(kept, vec![1]);
    assert_eq!(info.total, 3);
    assert!(info.truncated);
}

fn type_entry(name: &str, count: u32, supporting: bool) -> TypeEntry {
    TypeEntry {
        name: name.to_string(),
        count,
        supporting,
        has_timeseries: false,
        has_geometry: false,
        has_location: false,
        has_embeddings: false,
    }
}

fn triple(src: &str, conn: &str, tgt: &str, count: u64) -> ConnectivityTriple {
    ConnectivityTriple { src: src.to_string(), conn: conn.to_string(), tgt: tgt.to_string(), count }
}

#[test]
fn the_meta_graph_ranks_types_and_links_and_drops_links_to_unsent_types() {
    let mut person = type_entry("Person", 5, false);
    person.has_geometry = true;
    person.has_location = true;
    person.has_embeddings = true;
    let types = vec![person, type_entry("Company", 10, false), type_entry("Address", 5, true)];
    let triples = vec![
        triple("Company", "EMPLOYS", "Person", 3),
        triple("Person", "KNOWS", "Ghost", 2),
        triple("Address", "LOCATES", "Company", 7),
        triple("Company", "EMPLOYS", "Person", 3),
    ];
    let meta = compute_from(&types, &triples, 20, 15, 4);
    let names: Vec<(u32, &str)> = meta.nodes.iter().map(|n| (n.slot, n.name.as_str())).collect();
    assert_eq!(names, vec![(4, "Company"), (5, "Address"), (6, "Person")]);
    assert_eq!(meta.nodes[2].capabilities, vec!["geo".to_string(), "vec".to_string()]);
    assert!(meta.nodes[1].supporting);
    let edges: Vec<(u32, u32, &str, u32)> = meta
        .edges
        .iter()
        .map(|e| (e.source_slot, e.target_slot, e.name.as_str(), e.count))
        .collect();
    assert_eq!(edges, vec![(5, 4, "LOCATES", 7), (4, 6, "EMPLOYS", 3), (4, 6, "EMPLOYS", 3)]);
    assert_eq!(meta.tier, DetailTier::Full);
    assert_eq!(meta.stats.node_count, 20);
    assert_eq!(meta.stats.edge_count, 15);
    assert_eq!(meta.stats.node_type_count, 3);
    assert_eq!(meta.stats.relationship_type_count, 3);
    assert_eq!(meta.stats.core_type_count, 2);
    assert_eq!(meta.node_bound, BoundInfo { returned: 3, total: 3, truncated: false });
    assert_eq!(meta.edge_bound, BoundInfo { returned: 3, total: 3, truncated: false });
}

#[test]
fn the_summary_tier_sends_no_types_and_so_no_links() {
    let types: Vec<TypeEntry> = (0..5001).map(|i| type_entry(&format!("T{i}"), 1, false)).collect();
    let triples = vec![triple("T1", "R", "T2", 1)];
    let meta = compute_from(&types, &triples, 5001, 1, 0);
    assert_eq!(meta.tier, DetailTier::Summary);
    assert!(meta.nodes.is_empty());
    assert!(meta.edges.is_empty());
    assert_eq!(meta.node_bound, BoundInfo { returned: 0, total: 5001, truncated: true });
    assert_eq!(meta.stats.relationship_type_count, 1);
}

#[test]
fn the_top_types_tier_keeps_the_fifty_largest() {
    let types: Vec<TypeEntry> = (0..300).map(|i| type_entry(&format!("T{i:03}"), i, false)).collect();
    let meta = compute_from(&types, &vec![], 0, 0, 0);
    assert_eq!(meta.tier, DetailTier::TopTypes);
    assert_eq!(meta.nodes.len(), 50);
    assert_eq!(meta.nodes[0].name, "T299");
    assert_eq!(meta.nodes[49].count, 250);
    assert_eq!(meta.node_bound, BoundInfo { returned: 50, total: 300, truncated: true });
}

#[test]
fn a_calculation_input_takes_nodes_once_ascending_and_relations_once_in_order() {
    let input = input_from_endpoints(
        &vec![5, 3, 5, 9],
        &vec![10, 11, 12],
        &vec![11, 10, 11],
        &vec![Some((3, 9)), Some((5, 5)), Some((3, 9))],
    )
    .unwrap();
    assert_eq!(input.node_ids, vec![3, 5, 9]);
    assert_eq!(input.edges, vec![(0, 2), (1, 1)]);
    assert_eq!(sorted_unique(&vec![4, 1, 4, 0]), vec![0, 1, 4]);
}

#[test]
fn a_calculation_input_names_its_first_defect() {
    let message = |r: Result<_, kglite_visual::error::CoreError>| match r {
        Ok(_) => panic!("the input must be refused"),
        Err(e) => e.message().to_string(),
    };
    assert_eq!(
        message(input_from_endpoints(&vec![1, 2], &vec![7], &vec![7, 8], &vec![Some((1, 2)), Some((1, 2))])),
        "visible calculation relation is not retained"
    );
    assert_eq!(
        message(input_from_endpoints(&vec![1, 2], &vec![7], &vec![7], &vec![None])),
        "calculation relation is absent from source"
    );
    assert_eq!(
        message(input_from_endpoints(&vec![1, 2], &vec![7], &vec![7], &vec![Some((3, 2))])),
        "calculation relation source is outside visible input"
    );
    assert_eq!(
        message(input_from_endpoints(&vec![1, 2], &vec![7], &vec![7], &vec![Some((1, 4))])),
        "calculation relation target is outside visible input"
    );
}

#[test]
fn a_frozen_component_run_with_isolates_validates_on_its_own() {
    let (meta, fields) = run(
        &CalculationInput { node_ids: vec![1, 2, 4, 7, 9, 12], edges: vec![(4, 3), (0, 1), (1, 0)] },
        CalculationKind::WeakComponents,
        "calc-two".to_string(),
        RevisionStamp { generation: "g".into(), revision: "1".into() },
        "2".to_string(),
        None,
    )
    .unwrap();
    assert_eq!(meta.node_count, 6);
    assert_eq!(meta.edge_count, 3);
    validate_results(&vec![meta], &fields).unwrap();
    let labels = &fields.iter().find(|c| c.column == "component_id").unwrap().field.values;
    let ids: Vec<u32> = labels.iter().map(|v| v.1).collect();
    assert_eq!(ids, vec![1, 1, 2, 3, 3, 4]);
}

#[test]
fn the_spiral_never_hands_out_a_cell_twice() {
    let mut walker = SpiralWalker::default();
    let mut cells: Vec<(i32, i32)> = (0..512).map(|_| walker.next_cell()).collect();
    assert_eq!(cells[9], (2, -1), "ring two starts just above its bottom-right corner");
    cells.sort_unstable();
    cells.dedup();
    assert_eq!(cells.len(), 512, "coincident cells would stack points");
}

fn history_entry(id: &str) -> kglite_visual::history::HistoryEntry {
    kglite_visual::history::HistoryEntry {
        id: id.to_string(),
        before: RevisionStamp { generation: "g".into(), revision: "1".into() },
        after: RevisionStamp { generation: "g".into(), revision: "2".into() },
        action: kglite_visual::history::HistoryAction::named("expand", Some("Well")),
    }
}

#[test]
fn a_recorded_checkpoint_is_restorable_and_the_history_stays_bounded() {
    let mut history: RecoveryHistory<u32> = RecoveryHistory::new();
    for i in 0..(MAX_HISTORY_ENTRIES as u32 + 5) {
        history.push(history_entry(&format!("h{i}")), i, 10);
        assert_eq!(history.get(&format!("h{i}")).map(|s| *s), Some(i));
    }
    let snapshot = history.snapshot();
    assert_eq!(snapshot.entries.len(), MAX_HISTORY_ENTRIES);
    assert_eq!(snapshot.oldest_available.as_deref(), Some("h5"));
    assert_eq!(snapshot.evicted_count, "5");
    assert!(history.get("h0").is_none());
    history.push(history_entry("huge"), 99, MAX_HISTORY_BYTES + 1);
    assert!(history.get("huge").is_none(), "a checkpoint over the byte ceiling is not kept");
    // Making room for it evicted every kept checkpoint before it was refused.
    assert_eq!(history.snapshot().evicted_count, "26");
    assert!(history.snapshot().entries.is_empty());
}
