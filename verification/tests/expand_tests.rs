use kglite_visual::bound::BoundInfo;
use kglite_visual::expand::{
    effective_bound, expand, previews_with_counts, previews_from_connectivity, slice_link_bytes,
    slice_node_bytes, ConnectivityTriple, PeerFound, SeedWalk, DEFAULT_EXPANSION_NODES,
    MAX_EXPANSION_BYTES, MAX_EXPANSION_NODES,
};
use kglite_visual::request::EdgeDirection;

/// A clique of `n` `P` nodes joined by `KNOWS`, as the walk reads it.
fn dense_clique(n: u32) -> Vec<SeedWalk> {
    (0..n)
        .map(|a| SeedWalk {
            seed: a,
            seed_bytes: slice_node_bytes(&format!("P{a}"), "P"),
            outgoing: (0..n)
                .filter(|b| *b != a)
                .map(|b| PeerFound {
                    peer: b,
                    peer_bytes: slice_node_bytes(&format!("P{b}"), "P"),
                    name: "KNOWS".to_string(),
                })
                .collect(),
            incoming: (0..n)
                .filter(|b| *b != a)
                .map(|b| PeerFound {
                    peer: b,
                    peer_bytes: slice_node_bytes(&format!("P{b}"), "P"),
                    name: "KNOWS".to_string(),
                })
                .collect(),
        })
        .collect()
}

#[test]
fn the_link_ceiling_can_fire_with_the_node_count_well_inside_its_own_bound() {
    let seeds = dense_clique(200);
    let found = expand(
        &seeds,
        EdgeDirection::Out,
        effective_bound(Some(MAX_EXPANSION_NODES as u32)),
        None,
    );
    assert!(found.link_bound.truncated, "39 800 links did not trip a 2 MB ceiling: {:?}", found.link_bound);
    assert_eq!(found.link_bound.returned as usize, found.edges.len());
    assert_eq!(found.link_bound.total, 39_800, "every link the walk found is counted, sent or not");
    let node_bytes: usize = found.nodes.iter().map(|i| slice_node_bytes(&format!("P{i}"), "P")).sum();
    let link_bytes = found.edges.len() * slice_link_bytes("KNOWS");
    assert!(node_bytes + link_bytes <= MAX_EXPANSION_BYTES, "{node_bytes} + {link_bytes} exceeds the ceiling");
    assert!(
        node_bytes + link_bytes + slice_link_bytes("KNOWS") > MAX_EXPANSION_BYTES - 200,
        "the budget was left largely unspent, so this is not the ceiling firing"
    );
    for edge in &found.edges {
        assert!(
            found.nodes.contains(&edge.source) && found.nodes.contains(&edge.target),
            "{edge:?} references a node outside the slice"
        );
    }
}

#[test]
fn a_node_whose_links_were_cut_is_never_reported_as_complete() {
    let seeds = dense_clique(200);
    let found = expand(
        &seeds,
        EdgeDirection::Out,
        effective_bound(Some(MAX_EXPANSION_NODES as u32)),
        None,
    );
    assert_eq!(found.bound.returned, 200);
    assert_eq!(found.bound.total, 200);
    assert!(!found.bound.truncated, "the NODE list is complete; only the links were cut");
    assert!(found.link_bound.truncated);
    assert!(found.link_bound.returned < found.link_bound.total);
}

#[test]
fn an_expansion_that_fits_reports_its_links_untruncated() {
    let seeds = dense_clique(20);
    let found = expand(&seeds, EdgeDirection::Out, effective_bound(None), None);
    assert_eq!(found.edges.len(), 380, "20 * 19 links, all of them sent");
    assert_eq!(found.link_bound, BoundInfo { returned: 380, total: 380, truncated: false });
}

#[test]
fn no_request_can_ask_for_an_unbounded_expansion() {
    for requested in [
        None,
        Some(0),
        Some(1),
        Some(DEFAULT_EXPANSION_NODES as u32),
        Some(MAX_EXPANSION_NODES as u32),
        Some(MAX_EXPANSION_NODES as u32 + 1),
        Some(u32::MAX),
    ] {
        let bound = effective_bound(requested);
        assert!(bound.max_items <= MAX_EXPANSION_NODES, "{requested:?} produced max_items {}", bound.max_items);
        assert!(bound.max_bytes <= MAX_EXPANSION_BYTES);
    }
}

#[test]
fn an_absent_limit_is_the_default_not_the_ceiling() {
    assert_eq!(effective_bound(None).max_items, DEFAULT_EXPANSION_NODES);
    assert!(DEFAULT_EXPANSION_NODES < MAX_EXPANSION_NODES);
}

#[test]
fn a_request_under_the_ceiling_is_honoured_exactly() {
    assert_eq!(effective_bound(Some(7)).max_items, 7);
}

#[test]
fn the_ceiling_clamps_rather_than_rejecting() {
    assert_eq!(effective_bound(Some(u32::MAX)).max_items, MAX_EXPANSION_NODES);
}

#[test]
fn a_both_walk_sends_a_reciprocated_edge_once_and_admits_seeds_lazily() {
    let seeds = vec![
        SeedWalk {
            seed: 1,
            seed_bytes: 100,
            outgoing: vec![PeerFound { peer: 2, peer_bytes: 100, name: "R".into() }],
            incoming: vec![],
        },
        SeedWalk {
            seed: 2,
            seed_bytes: 100,
            outgoing: vec![],
            incoming: vec![PeerFound { peer: 1, peer_bytes: 100, name: "R".into() }],
        },
        SeedWalk { seed: 9, seed_bytes: 100, outgoing: vec![], incoming: vec![] },
    ];
    let found = expand(&seeds, EdgeDirection::Both, effective_bound(None), None);
    assert_eq!(found.nodes, vec![1, 2], "the isolated seed is reached but not admitted");
    assert_eq!(found.edges.len(), 1);
    assert_eq!((found.edges[0].source, found.edges[0].target), (1, 2));
    assert_eq!(found.bound, BoundInfo { returned: 2, total: 3, truncated: true });
    assert_eq!(found.link_bound, BoundInfo { returned: 1, total: 1, truncated: false });
}

#[test]
fn the_node_count_bound_refuses_further_nodes_and_their_links() {
    let seeds = dense_clique(10);
    let found = expand(&seeds, EdgeDirection::Out, effective_bound(Some(3)), None);
    assert_eq!(found.nodes.len(), 3);
    assert!(found.bound.truncated);
    assert_eq!(found.bound.total, 10);
    assert!(found.link_bound.truncated);
    for edge in &found.edges {
        assert!(found.nodes.contains(&edge.source) && found.nodes.contains(&edge.target));
    }
}

#[test]
fn previews_are_drawn_largest_first_and_keep_direction_apart() {
    let triples = vec![
        ConnectivityTriple { src: "Well".into(), conn: "HAS".into(), tgt: "Core".into(), count: 5 },
        ConnectivityTriple { src: "Field".into(), conn: "OWNS".into(), tgt: "Well".into(), count: 9 },
        ConnectivityTriple { src: "Well".into(), conn: "NEXT".into(), tgt: "Well".into(), count: 5 },
        ConnectivityTriple { src: "Well".into(), conn: "EMPTY".into(), tgt: "Core".into(), count: 0 },
    ];
    let previews = previews_from_connectivity(&triples, "Well");
    let summary: Vec<(String, EdgeDirection, String, u32)> = previews
        .iter()
        .map(|p| (p.name.clone(), p.direction, p.other_type.clone(), p.count))
        .collect();
    assert_eq!(
        summary,
        vec![
            ("OWNS".to_string(), EdgeDirection::In, "Field".to_string(), 9),
            ("HAS".to_string(), EdgeDirection::Out, "Core".to_string(), 5),
            ("NEXT".to_string(), EdgeDirection::Out, "Well".to_string(), 5),
            ("NEXT".to_string(), EdgeDirection::In, "Well".to_string(), 5),
        ]
    );
    let node = previews_with_counts(previews, &vec![0, 2, 7, 1]);
    let summary: Vec<(String, u32)> = node.iter().map(|p| (p.name.clone(), p.count)).collect();
    assert_eq!(
        summary,
        vec![("NEXT".to_string(), 7), ("HAS".to_string(), 2), ("NEXT".to_string(), 1)]
    );
}
