use kglite_visual::assets::has_extension;
use kglite_visual::bound::BoundInfo;
use kglite_visual::calculations::{CalculateRequest, CalculationKind};
use kglite_visual::control::{Appearance, AppearanceRequest, Focus, Highlight, HighlightConcept};
use kglite_visual::export::ExportFormat;
use kglite_visual::export_cmd::{self, ExportArgs};
use kglite_visual::history::HistoryAction;
use kglite_visual::history_actions::SlotEntry;
use kglite_visual::mcp::{CapturedArgs, ExpectedArg, OutputScopeArg, INSTRUCTIONS};
use kglite_visual::output::OutputScope;
use kglite_visual::render::RenderFormat;
use kglite_visual::render_cmd::{self, parse_expand, parse_source, sanitize, FormatArg, RenderArgs, RenderSource, ThemeArg};
use kglite_visual::request::{EdgeDirection, LayoutKernel, Request};
use kglite_visual::shared::ViewReference;
use kglite_visual::subset::FieldRef;

#[test]
fn a_dot_in_a_directory_name_is_not_an_extension() {
    assert!(has_extension("assets/index-a1b2c3.js"));
    assert!(has_extension("favicon.ico"));
    assert!(!has_extension("graph/Person"));
    assert!(!has_extension("v1.2/settings"));
    assert!(!has_extension(""));
}

#[test]
fn the_instructions_say_the_things_an_agent_gets_wrong_without_them() {
    for phrase in [
        "human being is looking at",
        "stale prepared work always refuses",
        "including content hidden by filters",
        "exports exactly the visible retained instance subset",
        "It refuses empty instance scope",
        "depends on `view_state.layout_kernel`",
        "kglite-mcp-server",
    ] {
        assert!(INSTRUCTIONS.contains(phrase), "the instructions no longer say {phrase:?}");
    }
}

fn render_args(expand: Option<Vec<&str>>, cypher: Option<&str>) -> RenderArgs {
    RenderArgs {
        file: "demo.kgl".to_string(),
        meta: false,
        cypher: cypher.map(str::to_string),
        expand: expand.map(|v| v.into_iter().map(str::to_string).collect()),
        format: FormatArg::Svg,
        out: None,
        seed: 0,
        width: 800,
        height: 600,
        theme: ThemeArg::Dark,
        limit: None,
        query_timeout_secs: 30,
    }
}

fn pairs(v: &[&str]) -> Vec<String> {
    v.iter().map(|s| s.to_string()).collect()
}

#[test]
fn expand_pairs_parse_into_the_documented_request() {
    let expand = parse_expand(&pairs(&["type=Wellbore", "rel=HAS_CORE", "dir=out"]), None)
        .expect("the documented form");
    assert_eq!(expand.node_type, "Wellbore");
    assert_eq!(expand.relationship.as_deref(), Some("HAS_CORE"));
    assert_eq!(expand.direction, EdgeDirection::Out);
}

#[test]
fn a_malformed_expand_pair_is_refused_with_a_usable_message() {
    for bad in [vec!["Wellbore"], vec!["kind=Wellbore"], vec!["type=W", "dir=sideways"]] {
        let err = parse_expand(&pairs(&bad), None).expect_err("must refuse");
        assert!(!err.is_empty(), "{bad:?} produced an empty message");
    }
    let err = parse_expand(&pairs(&["rel=HAS_CORE"]), None).expect_err("rel without type is not a request");
    assert!(err.contains("type="), "{err}");
}

#[test]
fn expand_refusals_quote_what_they_refuse() {
    assert_eq!(
        parse_expand(&pairs(&["type=W", "dir=sideways"]), None).unwrap_err(),
        "--expand dir must be out, in or both; got \"sideways\""
    );
    assert_eq!(
        parse_expand(&pairs(&["kind=W"]), None).unwrap_err(),
        "--expand knows the keys type, rel and dir; got \"kind\""
    );
    let later = parse_expand(&pairs(&["type=A", "type=B=C"]), Some(9)).unwrap();
    assert_eq!(later.node_type, "B=C", "the first '=' splits; later pairs win");
    assert_eq!(later.direction, EdgeDirection::Both);
    assert_eq!(later.limit, Some(9));
}

#[test]
fn the_default_output_name_separates_the_three_sources() {
    assert_eq!(render_cmd::default_out_path(&render_args(None, None), RenderFormat::Svg), "demo-meta.svg");
    assert_eq!(
        render_cmd::default_out_path(&render_args(None, Some("MATCH (n) RETURN n")), RenderFormat::Png),
        "demo-cypher.png"
    );
    assert_eq!(
        render_cmd::default_out_path(&render_args(Some(vec!["type=Wellbore"]), None), RenderFormat::Svg),
        "demo-expand-Wellbore.svg"
    );
}

#[test]
fn a_type_name_cannot_steer_the_output_path() {
    let path = render_cmd::default_out_path(&render_args(Some(vec!["type=../../etc/passwd"]), None), RenderFormat::Svg);
    assert_eq!(path, "demo-expand-______etc_passwd.svg");
    assert!(!path.contains(".."));
    assert_eq!(sanitize("a\u{e6}-b"), "a__b");
}

#[test]
fn the_export_output_name_keeps_the_two_csvs_apart() {
    let args = ExportArgs {
        file: "/data/graph.kgl".to_string(),
        format: export_cmd::FormatArg::Csv,
        cypher: None,
        out: None,
        query_timeout_secs: 30,
        max_load_mb: None,
    };
    assert_eq!(export_cmd::default_out_path(&args, ExportFormat::Csv), "graph.csv");
    assert_eq!(export_cmd::default_out_path(&args, ExportFormat::CsvEdges), "graph-edges.csv");
    let query = ExportArgs { cypher: Some("MATCH (n) RETURN n".into()), ..args };
    assert_eq!(export_cmd::default_out_path(&query, ExportFormat::Graphml), "graph-query.graphml");
    assert_eq!(ExportFormat::from(export_cmd::FormatArg::CsvEdges), ExportFormat::CsvEdges);
    assert_eq!(RenderFormat::from(FormatArg::Png), RenderFormat::Png);
}

#[test]
fn an_empty_focus_is_a_legal_frame_the_whole_view_instruction() {
    let focus = Focus::new(Vec::new());
    assert_eq!(focus.protocol_version, 1);
    assert!(focus.slots.is_empty());
    let highlight = Highlight::new(vec![3, 4], HighlightConcept::default());
    assert_eq!(highlight.concept, HighlightConcept::Highlighted);
}

#[test]
fn appearance_distinguishes_clearing_a_channel_from_leaving_it() {
    let a = Appearance::new(Some("size".into()), None);
    assert!(matches!(a.color_field, Some(FieldRef::Property { ref name }) if name == "size"));
    assert!(a.size_field.is_none());
    let cleared = AppearanceRequest::from_parts(None, Some(None), None, Some(None)).unwrap();
    assert_eq!(cleared.size_field.as_ref().map(|f| f.is_none()), Some(true), "present and null");
    assert!(cleared.color_field.is_none(), "absent");
    let contradiction = AppearanceRequest::from_parts(
        Some(Some("a".into())),
        None,
        Some(Some(FieldRef::Property { name: "b".into() })),
        None,
    );
    assert_eq!(
        contradiction.unwrap_err(),
        "legacy and canonical appearance fields contradict each other"
    );
    let derived = Appearance::from_fields(
        Some(FieldRef::Derived { calculation_id: "c".into(), column: "in".into() }),
        None,
    );
    assert!(derived.color_by.is_none());
}

#[test]
fn captured_output_needs_an_explicit_scope_and_stamps() {
    let mut args = CapturedArgs {
        scope: None,
        expected: None,
        subset_revision: None,
        preview_digest: None,
        include_identity: false,
    };
    assert!(!args.has_capture_fields());
    assert_eq!(args.request().unwrap_err().message(), "captured output requires an explicit scope");
    args.scope = Some(OutputScopeArg::Visible);
    args.expected = Some(ExpectedArg { generation: "g".into(), revision: "3".into() });
    assert!(args.has_capture_fields());
    assert_eq!(
        args.request().unwrap_err().message(),
        "explicit output scope requires subset_revision from view_state"
    );
    args.subset_revision = Some("".into());
    assert_eq!(args.request().unwrap_err().message(), "captured output stamps must not be empty");
    args.subset_revision = Some("5".into());
    let request = args.request().unwrap();
    assert_eq!(request.scope, OutputScope::Visible);
    assert_eq!(request.subset_revision, "5");
}

#[test]
fn the_history_records_what_a_request_acted_on() {
    let entries = vec![
        SlotEntry::Type { name: "Well".into() },
        SlotEntry::Node { node_id: 42 },
        SlotEntry::Tombstone,
    ];
    assert!(HistoryAction::for_request(&Request::Focus, &entries, "g1", None).is_none());
    let expand = Request::Expand { slot: 1, relationship: Some("HAS".into()), direction: EdgeDirection::In };
    let bounds = (BoundInfo { returned: 2, total: 3, truncated: true }, BoundInfo { returned: 1, total: 1, truncated: false });
    let action = HistoryAction::for_request(&expand, &entries, "g1", Some(bounds)).unwrap();
    assert_eq!(action.kind, "expand");
    assert_eq!(action.direction.as_deref(), Some("in"));
    assert_eq!(action.relationship.as_deref(), Some("HAS"));
    assert!(matches!(&action.target, Some(ViewReference::Node { handle }) if handle.node_id == 42 && handle.generation == "g1"));
    assert_eq!(action.nodes, Some(bounds.0));
    let collapse = HistoryAction::for_request(&Request::Collapse { slot: 2 }, &entries, "g1", None).unwrap();
    assert!(collapse.target.is_none(), "a tombstone names nothing");
    let layout = Request::Layout { kernel: LayoutKernel::Radial, seed_slot: Some(0) };
    let action = HistoryAction::for_request(&layout, &entries, "g1", None).unwrap();
    assert_eq!(action.label.as_deref(), Some("radial"));
    assert!(matches!(&action.target, Some(ViewReference::Type { name }) if name == "Well"));
    let calc = Request::Calculate(CalculateRequest { kind: CalculationKind::WeakComponents, calculation_id: Some("c".into()) });
    let action = HistoryAction::for_request(&calc, &entries, "g1", None).unwrap();
    assert_eq!(action.kind, "recompute");
    assert_eq!(action.label.as_deref(), Some("weak-components"));
}

#[test]
fn a_long_query_is_recorded_cut_at_a_character_boundary() {
    let query = format!("{}\u{e6}tail", "x".repeat(4095));
    let action = HistoryAction::for_request(&Request::Cypher { query: query.clone() }, &vec![], "g", None).unwrap();
    assert_eq!(action.query.as_deref(), Some("x".repeat(4095).as_str()));
    assert!(action.query_truncated);
    let short = HistoryAction::for_request(&Request::Cypher { query: "RETURN 1".into() }, &vec![], "g", None).unwrap();
    assert_eq!(short.query.as_deref(), Some("RETURN 1"));
    assert!(!short.query_truncated);
}

#[test]
fn explicit_scope_never_falls_back_when_capture_stamps_are_missing() {
    let bare = CapturedArgs {
        scope: Some(OutputScopeArg::Visible),
        expected: None,
        subset_revision: None,
        preview_digest: None,
        include_identity: false,
    };
    let empty_stamps = CapturedArgs {
        scope: Some(OutputScopeArg::Visible),
        expected: Some(ExpectedArg { generation: "".into(), revision: "".into() }),
        subset_revision: Some("".into()),
        preview_digest: None,
        include_identity: false,
    };
    for args in [bare, empty_stamps] {
        assert!(args.request().is_err());
    }
}

#[test]
fn a_cypher_render_is_always_a_graph_render() {
    let RenderSource::Cypher(cypher) =
        parse_source(&render_args(None, Some("MATCH (n) RETURN n"))).expect("cypher")
    else {
        panic!("wrong source variant");
    };
    assert!(cypher.as_graph);
}

#[test]
fn the_render_source_prefers_cypher_then_expand_then_meta() {
    let both = parse_source(&render_args(Some(vec!["type=Well"]), Some("MATCH (n) RETURN n"))).unwrap();
    assert!(matches!(both, RenderSource::Cypher(ref c) if c.query == "MATCH (n) RETURN n"));
    let expand = parse_source(&render_args(Some(vec!["type=Well", "dir=in"]), None)).unwrap();
    assert!(matches!(expand, RenderSource::Expand(ref e) if e.node_type == "Well"));
    assert!(matches!(parse_source(&render_args(None, None)).unwrap(), RenderSource::Meta));
    assert_eq!(
        parse_source(&render_args(Some(vec!["rel=HAS"]), None)).unwrap_err(),
        "--expand needs type=<NodeType>"
    );
}

#[test]
fn a_highlight_by_search_marks_only_the_loaded_hits() {
    let (slots, cold) = kglite_visual::mcp::on_screen_hits(&vec![Some(4), None, Some(2), None, None]);
    assert_eq!(slots, vec![4, 2]);
    assert_eq!(cold, 3);
}
