use std::collections::HashMap;

use kglite::api::session::{execute_mut, ExecuteOptions};
use kglite::api::DirGraph;

use kglite_visual::calculations::capture_input;
use kglite_visual::export::{all_nodes, export_nodes, ExportFormat, NOTHING_TO_EXPORT};
use kglite_visual::bound::Bound;
use kglite_visual::expand::{expand_in, preview_for_node, preview_for_type};
use kglite_visual::loader::{node_counts_by_type, LoadLimits};
use kglite_visual::meta_graph::{compute, DetailTier};
use kglite_visual::request::EdgeDirection;

const ALL_FORMATS: [ExportFormat; 5] = [
    ExportFormat::Graphml,
    ExportFormat::Gexf,
    ExportFormat::Csv,
    ExportFormat::CsvEdges,
    ExportFormat::Json,
];

fn build(query: &str) -> DirGraph {
    let mut graph = DirGraph::new();
    let empty = HashMap::new();
    execute_mut(&mut graph, query, &ExecuteOptions::eager(&empty)).expect("the fixture builds");
    graph
}

/// A title with a quote and a comma, Norwegian letters, a self-loop, a node
/// with nothing but a title, and an edge to a node left outside the
/// selection.
fn quirky() -> DirGraph {
    build(
        r#"
        CREATE (a:Item {title: 'He said "hei, du", loudly', size: 3})
        CREATE (b:Item {title: 'Ærfugl på Åsgård — ø', size: 1})
        CREATE (c:Item {title: 'bare'})
        CREATE (d:Item {title: 'outsider'})
        CREATE (a)-[:LINKS]->(b)
        CREATE (b)-[:LINKS]->(b)
        CREATE (c)-[:LINKS]->(d)
        "#,
    )
}

/// The three nodes inside the selection; `outsider` is left out.
fn selected(graph: &DirGraph) -> Vec<u32> {
    let mut inside: Vec<u32> = graph
        .type_indices
        .get("Item")
        .expect("Item exists")
        .iter()
        .filter(|index| {
            graph
                .node_view(*index)
                .map(|node| !format!("{:?}", node.title()).contains("outsider"))
                .unwrap_or(false)
        })
        .map(|index| index.index() as u32)
        .collect();
    inside.sort();
    assert_eq!(inside.len(), 3, "the fixture holds four Items, three inside");
    inside
}

fn text_of(format: ExportFormat) -> String {
    let graph = quirky();
    let nodes = selected(&graph);
    let out = export_nodes(&graph, &nodes, format, "/tmp/Sokkelkart Æ.kgl").expect("the export succeeds");
    assert_eq!(out.nodes, 3);
    assert_eq!(out.format, format);
    String::from_utf8(out.bytes).expect("every exporter writes UTF-8")
}

#[test]
fn every_format_keeps_norwegian_letters_and_excludes_the_boundary_edge() {
    for format in ALL_FORMATS {
        let text = text_of(format);
        if format != ExportFormat::CsvEdges {
            assert!(text.contains("Ærfugl på Åsgård"), "{} mangled the non-ASCII title:\n{text}", format.as_str());
        }
        assert!(!text.contains("outsider"), "{} wrote a node outside the selection", format.as_str());
        let edges = match format {
            ExportFormat::Graphml | ExportFormat::Gexf => text.matches("<edge ").count(),
            ExportFormat::Json => text.matches(r#"{"source":"#).count(),
            ExportFormat::CsvEdges => text.lines().filter(|l| !l.is_empty()).count() - 1,
            ExportFormat::Csv => 0,
        };
        let expected = match format {
            ExportFormat::Csv => 0,
            _ => 2,
        };
        assert_eq!(edges, expected, "{} wrote {edges} LINKS edges, expected {expected}", format.as_str());
    }
}

#[test]
fn a_quote_and_a_comma_survive_the_csv_round_trip() {
    let text = text_of(ExportFormat::Csv);
    assert!(
        text.contains(r#""He said ""hei, du"", loudly""#),
        "the CSV did not escape a quoted, comma-bearing title:\n{text}"
    );
    let rows: Vec<&str> = text.lines().collect();
    assert_eq!(rows.len(), 4, "{rows:?}");
    assert_eq!(rows[0], "id,type,title");
}

#[test]
fn a_self_loop_is_written_once_and_a_bare_node_still_gets_a_row() {
    let edges = text_of(ExportFormat::CsvEdges);
    let loop_rows: Vec<&str> = edges
        .lines()
        .skip(1)
        .filter(|row| {
            let mut cells = row.split(',');
            cells.next() == cells.next()
        })
        .collect();
    assert_eq!(loop_rows.len(), 1, "the self-loop: {edges}");
    let graphml = text_of(ExportFormat::Graphml);
    assert!(graphml.contains(">bare<"), "the zero-property node vanished");
}

#[test]
fn each_format_is_internally_consistent() {
    let json: serde_json::Value =
        serde_json::from_str(&text_of(ExportFormat::Json)).expect("the D3 JSON parses");
    assert_eq!(json["nodes"].as_array().map(Vec::len), Some(3));
    assert_eq!(json["links"].as_array().map(Vec::len), Some(2));
    for format in [ExportFormat::Graphml, ExportFormat::Gexf] {
        let xml = text_of(format);
        assert!(xml.starts_with("<?xml version=\"1.0\" encoding=\"UTF-8\"?>"));
        let root = if format == ExportFormat::Graphml { "graphml" } else { "gexf" };
        assert!(xml.trim_end().ends_with(&format!("</{root}>")), "{xml}");
        assert_eq!(
            xml.matches("<node ").count() + xml.matches("<node>").count(),
            3,
            "{} node count:\n{xml}",
            format.as_str()
        );
        assert!(!xml.contains(r#"He said "hei"#), "{} left a raw quote", format.as_str());
    }
}

#[test]
fn both_xml_formats_carry_a_label_and_graphml_keeps_its_title_key() {
    let graphml = text_of(ExportFormat::Graphml);
    assert!(graphml.contains(r#"attr.name="title""#), "the title key went away");
    assert!(graphml.contains(r#"attr.name="label""#), "kglite stopped writing the GraphML label key");
    assert!(text_of(ExportFormat::Gexf).contains("label="), "GEXF stopped naming its nodes");
}

#[test]
fn an_empty_selection_is_refused_rather_than_exported() {
    let graph = quirky();
    let err = match export_nodes(&graph, &vec![], ExportFormat::Csv, "g.kgl") {
        Ok(_) => panic!("an empty view has nothing to export"),
        Err(e) => e,
    };
    assert!(err.message().contains("nothing to export"), "{}", err.message());
    assert_eq!(err.message(), NOTHING_TO_EXPORT);
}

#[test]
fn an_export_is_named_after_the_graph_and_counts_its_nodes() {
    let graph = quirky();
    let nodes = selected(&graph);
    let out = export_nodes(&graph, &nodes, ExportFormat::CsvEdges, "/data/sodir.kgl").unwrap();
    assert_eq!(out.filename, "sodir-view.csv");
    assert_eq!(out.nodes, 3);
}

#[test]
fn a_whole_graph_dump_lists_every_node_once_in_index_order() {
    let graph = build(
        "CREATE (:B {title: 'b1'}) CREATE (:A {title: 'a1'}) CREATE (:B {title: 'b2'}) CREATE (:C {title: 'c1'})",
    );
    let nodes = all_nodes(&graph);
    assert_eq!(nodes.len(), 4);
    assert!(nodes.windows(2).all(|w| w[0] < w[1]), "{nodes:?}");
}

#[test]
fn node_counts_come_by_type_name() {
    let graph = build("CREATE (:Well {title: 'w1'}) CREATE (:Field {title: 'f'}) CREATE (:Well {title: 'w2'})");
    assert_eq!(node_counts_by_type(&graph), vec![("Field".to_string(), 1), ("Well".to_string(), 2)]);
}

#[test]
fn the_meta_graph_of_a_graph_counts_types_links_and_totals() {
    let graph = build(
        "CREATE (a:Company {title: 'acme'}) CREATE (b:Person {title: 'p1'}) CREATE (c:Person {title: 'p2'}) \
         CREATE (a)-[:EMPLOYS]->(b) CREATE (a)-[:EMPLOYS]->(c) CREATE (b)-[:KNOWS]->(c)",
    );
    let meta = compute(&graph, 0).expect("a small graph fits");
    assert_eq!(meta.tier, DetailTier::Full);
    let names: Vec<(u32, &str, u32)> = meta.nodes.iter().map(|n| (n.slot, n.name.as_str(), n.count)).collect();
    assert_eq!(names, vec![(0, "Person", 2), (1, "Company", 1)]);
    let edges: Vec<(u32, u32, &str, u32)> =
        meta.edges.iter().map(|e| (e.source_slot, e.target_slot, e.name.as_str(), e.count)).collect();
    assert_eq!(edges, vec![(1, 0, "EMPLOYS", 2), (0, 0, "KNOWS", 1)]);
    assert_eq!(meta.stats.node_count, 3);
    assert_eq!(meta.stats.edge_count, 3);
    assert_eq!(meta.stats.node_type_count, 2);
    assert_eq!(meta.stats.relationship_type_count, 2);
    assert_eq!(meta.stats.core_type_count, 2);
}

#[test]
fn previews_read_the_connectivity_and_count_on_the_node() {
    let graph = build(
        "CREATE (a:Company {title: 'acme'}) CREATE (b:Person {title: 'p1'}) CREATE (c:Person {title: 'p2'}) \
         CREATE (a)-[:EMPLOYS]->(b) CREATE (a)-[:EMPLOYS]->(c) CREATE (b)-[:KNOWS]->(c)",
    );
    let person = preview_for_type(&graph, "Person");
    let rows: Vec<(&str, EdgeDirection, &str, u32)> =
        person.iter().map(|p| (p.name.as_str(), p.direction, p.other_type.as_str(), p.count)).collect();
    assert_eq!(
        rows,
        vec![
            ("EMPLOYS", EdgeDirection::In, "Company", 2),
            ("KNOWS", EdgeDirection::Out, "Person", 1),
            ("KNOWS", EdgeDirection::In, "Person", 1),
        ]
    );
    let p1 = graph
        .type_indices
        .get("Person")
        .unwrap()
        .iter()
        .find(|i| graph.node_view(*i).map(|n| format!("{:?}", n.title()).contains("p1")).unwrap_or(false))
        .unwrap()
        .index() as u32;
    let node = preview_for_node(&graph, p1, "Person", None);
    let rows: Vec<(&str, EdgeDirection, u32)> = node.iter().map(|p| (p.name.as_str(), p.direction, p.count)).collect();
    assert_eq!(rows, vec![("EMPLOYS", EdgeDirection::In, 1), ("KNOWS", EdgeDirection::Out, 1)]);
}

#[test]
fn a_load_ceiling_is_counted_in_bytes_and_saturates() {
    assert_eq!(LoadLimits { max_load_mb: Some(2) }.max_load_bytes(), Some(2 * 1024 * 1024));
    assert_eq!(LoadLimits { max_load_mb: Some(u64::MAX) }.max_load_bytes(), Some(u64::MAX));
    assert_eq!(LoadLimits { max_load_mb: None }.max_load_bytes(), None);
    assert_eq!(LoadLimits { max_load_mb: Some(7) }.to_options().max_load_bytes, Some(7 * 1024 * 1024));
}

#[test]
fn a_calculation_reads_relation_endpoints_from_the_graph() {
    let graph = build(
        "CREATE (a:Item {title: 'a'}) CREATE (b:Item {title: 'b'}) CREATE (c:Item {title: 'c'}) \
         CREATE (a)-[:LINKS]->(b) CREATE (b)-[:LINKS]->(c)",
    );
    let nodes = all_nodes(&graph);
    assert_eq!(nodes.len(), 3);
    let input = capture_input(&graph, &vec![nodes[2], nodes[0], nodes[1]], &vec![0, 1], &vec![1, 0, 1], None)
        .expect("every visible relation is retained and inside");
    assert_eq!(input.node_ids, nodes);
    assert_eq!(input.edges.len(), 2);
    let refused = capture_input(&graph, &vec![nodes[0], nodes[1]], &vec![0, 1], &vec![1], None);
    match refused {
        Ok(_) => panic!("a relation leaving the visible nodes is refused"),
        Err(e) => assert_eq!(e.message(), "calculation relation target is outside visible input"),
    }
}

#[test]
fn an_expansion_walks_the_graph_along_the_asked_direction() {
    let graph = quirky();
    let nodes = all_nodes(&graph);
    assert_eq!(nodes.len(), 4);
    let (a, b, c, d) = (nodes[0], nodes[1], nodes[2], nodes[3]);
    let wide = Bound { max_items: 100, max_bytes: 1_000_000 };
    let out = expand_in(&graph, &vec![a], None, EdgeDirection::Out, wide, None, |_| 100);
    assert_eq!(out.nodes, vec![a, b]);
    assert_eq!(out.edges.len(), 1);
    assert_eq!((out.edges[0].source, out.edges[0].target, out.edges[0].name.as_str()), (a, b, "LINKS"));
    assert!(!out.bound.truncated);
    let named = expand_in(&graph, &vec![c], Some("LINKS"), EdgeDirection::Both, wide, None, |_| 100);
    assert_eq!(named.nodes, vec![c, d]);
    let none = expand_in(&graph, &vec![c], Some("OTHER"), EdgeDirection::Both, wide, None, |_| 100);
    assert!(none.nodes.is_empty());
    let incoming = expand_in(&graph, &vec![b], None, EdgeDirection::In, wide, None, |_| 100);
    assert!(incoming.nodes.contains(&a) && incoming.nodes.contains(&b));
    let tight = Bound { max_items: 1, max_bytes: 1_000_000 };
    let cut = expand_in(&graph, &vec![a], None, EdgeDirection::Out, tight, None, |_| 100);
    assert_eq!(cut.nodes, vec![a]);
    assert!(cut.bound.truncated);
}
