use kglite_visual::queries::{
    check_file_bytes, check_new_store, check_write, file_name_for, is_store_file_name, prune_candidates,
    report_for, QueryStore, StoreError, StoreFile, StoreRead, MAX_HISTORY, MAX_QUERY_BYTES,
    MAX_SAVED_PER_GRAPH, MAX_STORE_FILES, MAX_STORE_FILE_BYTES, UNBOUND_FILE,
};
use kglite_visual::views::{SessionViewStore, MAX_VIEW_BYTES, 
    prepare_view, validate_catalog, validate_name, Catalog, ViewStore, MAX_VIEWS,
};

/// A store with a root, for a graph with no path on disk, and the file it
/// keeps between operations, as the caller keeps it on disk.
struct Session {
    store: QueryStore,
    file: Option<StoreFile>,
}

impl Session {
    fn new() -> Self {
        Session { store: QueryStore::open(Some("/tmp/queries".into()), None, "<in-memory>"), file: None }
    }
    fn outcome(&self) -> StoreRead {
        match &self.file {
            Some(f) => StoreRead::Parsed(f.clone()),
            None => StoreRead::Absent,
        }
    }
    fn current(&self) -> Result<StoreFile, StoreError> {
        self.store.list(self.outcome())
    }
    fn save(&mut self, name: &str, query: &str) -> Result<(), StoreError> {
        let (file, _) = self.store.save(name, query, self.current(), 0)?;
        self.file = Some(self.store.stamp(file));
        Ok(())
    }
    fn record(&mut self, query: &str) {
        if let Some(file) = self.store.record(query, self.current(), 0).unwrap() {
            self.file = Some(self.store.stamp(file));
        }
    }
}

#[test]
fn a_save_round_trips_and_overwrites_by_name() {
    let mut s = Session::new();
    s.save("wells", "MATCH (w:Wellbore) RETURN w").expect("saves");
    s.save("wells", "MATCH (w:Wellbore) RETURN w.title").expect("overwrites");
    let file = s.store.list(s.outcome()).expect("lists");
    assert_eq!(file.saved.len(), 1, "same name replaces rather than appends");
    assert_eq!(file.saved[0].query, "MATCH (w:Wellbore) RETURN w.title");
    assert_eq!(
        s.store.get("wells", s.current()).expect("reads").as_deref(),
        Some("MATCH (w:Wellbore) RETURN w.title")
    );
    let after = s.store.delete("wells", s.current()).expect("deletes");
    assert!(after.is_some());
    s.file = after;
    assert!(s.store.delete("wells", s.current()).expect("second delete is a no-op").is_none());
}

#[test]
fn the_saved_query_ceiling_refuses_and_names_itself() {
    let mut s = Session::new();
    for i in 0..MAX_SAVED_PER_GRAPH {
        s.save(&format!("q{i}"), "RETURN 1").expect("under the ceiling");
    }
    let err = s.save("one-too-many", "RETURN 1").expect_err("the ceiling must fire");
    let message = err.message();
    assert!(message.contains(&MAX_SAVED_PER_GRAPH.to_string()), "the refusal must name the ceiling: {message}");
    s.save("q0", "RETURN 2").expect("overwrite at the ceiling");
}

#[test]
fn an_oversized_query_is_refused_by_its_own_ceiling() {
    let mut s = Session::new();
    let huge = "x".repeat(MAX_QUERY_BYTES + 1);
    let message = s.save("huge", &huge).expect_err("must refuse").message();
    assert!(message.contains(&MAX_QUERY_BYTES.to_string()), "{message}");
    assert!(s.store.list(s.outcome()).expect("lists").saved.is_empty());
}

#[test]
fn history_is_capped_most_recent_first_and_deduplicated() {
    let mut s = Session::new();
    for i in 0..MAX_HISTORY + 5 {
        s.record(&format!("RETURN {i}"));
    }
    let file = s.store.list(s.outcome()).expect("lists");
    assert_eq!(file.history.len(), MAX_HISTORY);
    assert_eq!(file.history[0].query, format!("RETURN {}", MAX_HISTORY + 4));
    s.record("RETURN 0");
    let file = s.store.list(s.outcome()).expect("lists");
    assert_eq!(file.history.len(), MAX_HISTORY, "still capped");
    assert_eq!(file.history[0].query, "RETURN 0", "a re-run moves to the top");
    assert_eq!(file.history.iter().filter(|e| e.query == "RETURN 0").count(), 1, "and does not appear twice");
}

#[test]
fn blank_names_and_queries_are_refused_and_names_are_trimmed() {
    let mut s = Session::new();
    assert_eq!(s.save("  ", "RETURN 1").unwrap_err().message(), "a saved query needs a name");
    assert_eq!(s.save("n", " \t").unwrap_err().message(), "a saved query needs a query");
    s.save("  wells  ", " RETURN 1 ").unwrap();
    let file = s.current().unwrap();
    assert_eq!(file.saved[0].name, "wells");
    assert_eq!(file.saved[0].query, " RETURN 1 ", "the query is kept as written");
}

#[test]
fn a_blank_run_is_not_recorded_and_needs_no_store() {
    let store = QueryStore::open(None, None, "g");
    assert!(store.record("   ", Err(StoreError::Io("unreadable".into())), 1).unwrap().is_none());
    let err = store.file().unwrap_err();
    assert!(err.message().contains("KGLITE_VISUAL_CONFIG_DIR"));
}

#[test]
fn a_path_backed_graph_and_an_unbound_one_get_different_files() {
    let bound = file_name_for(Some("/data/a.kgl"));
    let unbound = file_name_for(None);
    assert_ne!(bound, unbound);
    assert_eq!(unbound, UNBOUND_FILE);
    assert_eq!(bound.len(), 16 + ".json".len());
    assert!(bound.ends_with(".json"));
    assert!(bound[..16].chars().all(|c| c.is_ascii_hexdigit() && !c.is_ascii_uppercase()));
    assert_eq!(bound, file_name_for(Some("/data/a.kgl")), "the same path, the same file");
    assert_ne!(bound, file_name_for(Some("/data/b.kgl")));
}

#[test]
fn the_graph_file_name_is_the_sha256_prefix_of_its_path() {
    // SHA-256("abc") begins ba7816bf8f01cfea.
    assert_eq!(file_name_for(Some("abc")), "ba7816bf8f01cfea.json");
}

#[test]
fn the_distinct_graph_ceiling_refuses_a_new_file_and_names_the_ceiling() {
    assert!(check_new_store(MAX_STORE_FILES - 1).is_ok());
    let message = check_new_store(MAX_STORE_FILES).unwrap_err().message();
    assert!(message.contains(&MAX_STORE_FILES.to_string()), "{message}");
    assert!(message.starts_with("the saved-query store already holds 512 graphs"));
}

#[test]
fn the_file_ceiling_refusal_names_the_file_ceiling() {
    assert!(check_file_bytes(MAX_STORE_FILE_BYTES).is_ok());
    let message = check_file_bytes(MAX_STORE_FILE_BYTES + 1).unwrap_err().message();
    assert!(message.contains(&MAX_STORE_FILE_BYTES.to_string()), "{message}");
}

#[test]
fn prune_takes_only_files_whose_graph_is_gone() {
    let live = StoreFile { version: 1, graph_path: Some("/g/live.kgl".into()), graph_label: "l".into(), saved: vec![], history: vec![] };
    let gone = StoreFile { version: 1, graph_path: Some("/g/gone.kgl".into()), graph_label: "g".into(), saved: vec![], history: vec![] };
    let unbound = StoreFile { version: 1, graph_path: None, graph_label: "u".into(), saved: vec![], history: vec![] };
    let reports = vec![
        report_for("a.json".into(), Some(live), 10, true),
        report_for("b.json".into(), Some(gone), 10, false),
        report_for(UNBOUND_FILE.into(), Some(unbound), 10, false),
        report_for("c.json".into(), None, 3, false),
    ];
    assert_eq!(reports[3].graph_label, "<unreadable>");
    assert_eq!(prune_candidates(&reports), vec!["b.json".to_string()]);
}

#[test]
fn rm_refuses_a_name_that_reaches_outside_the_store() {
    let names = vec![UNBOUND_FILE.to_string(), "0123456789abcdef.json".to_string()];
    assert!(!is_store_file_name(&names, "../precious.json"));
    assert!(is_store_file_name(&names, UNBOUND_FILE));
}

fn view_catalog() -> Catalog {
    Catalog { format_version: 1, views: Vec::new() }
}

#[test]
fn session_catalog_refuses_quota_without_losing_old_payload() {
    let mut store = SessionViewStore::default();
    for index in 0..MAX_VIEWS {
        store
            .save_validated(&format!("view-{index}"), format!("{{\"value\":{index}}}"), 1, false, Ok(()))
            .unwrap();
    }
    assert!(store.save_validated("extra", "null".into(), 1, false, Ok(())).is_err());
    assert!(store.save_validated("view-0", "null".into(), 1, false, Ok(())).is_err());
    let refused = kglite_visual::views::ViewStoreError::Refused("unsupported".into());
    assert!(store.save_validated("view-0", "null".into(), 1, true, Err(refused)).is_err());
    let kept: serde_json::Value = serde_json::from_str(&store.get("view-0").unwrap().bookmark).unwrap();
    assert_eq!(kept["value"], 0);
    assert_eq!(store.list().len(), MAX_VIEWS);
    assert!(SessionViewStore::default().list().is_empty());
}

#[test]
fn session_aggregate_limit_preserves_all_existing_entries() {
    let mut store = SessionViewStore::default();
    let payload = serde_json::Value::String("x".repeat(MAX_VIEW_BYTES - 1024)).to_string();
    for index in 0..10 {
        store.save_validated(&format!("large-{index}"), payload.clone(), 1, false, Ok(())).unwrap();
    }
    let refused = store.save_validated("overflow", payload, 1, false, Ok(()));
    match refused {
        Ok(_) => panic!("the aggregate ceiling must refuse"),
        Err(e) => assert_eq!(e.message(), "saved-view catalog exceeds 40 MiB"),
    }
    assert_eq!(store.list().len(), 10);
    let first: serde_json::Value = serde_json::from_str(&store.get("large-0").unwrap().bookmark).unwrap();
    assert_eq!(first.as_str().unwrap().len(), MAX_VIEW_BYTES - 1024);
}

#[test]
fn a_session_view_replaces_only_when_asked_and_deletes_by_name() {
    let mut store = SessionViewStore::default();
    store.save_validated("b", "1".into(), 5, false, Ok(())).unwrap();
    store.save_validated("a", "2".into(), 6, false, Ok(())).unwrap();
    let names: Vec<String> = store.list().into_iter().map(|s| s.name).collect();
    assert_eq!(names, vec!["a", "b"]);
    assert_eq!(
        store.save_validated("a", "3".into(), 7, false, Ok(())).unwrap_err().message(),
        "saved view already exists; explicit replacement is required"
    );
    assert_eq!(store.existing_bookmark("a").map(String::as_str), Some("2"));
    let summary = store.save_validated("a", "3".into(), 7, true, Ok(())).unwrap();
    assert_eq!((summary.name.as_str(), summary.saved_at), ("a", 7));
    assert_eq!(store.get("a").unwrap().bookmark, "3");
    store.delete("a").unwrap();
    assert_eq!(store.delete("a").unwrap_err().message(), "saved view \"a\" does not exist");
    assert_eq!(store.list().len(), 1);
    assert!(store.save_validated("bad\nname", "1".into(), 1, false, Ok(())).is_err());
}

#[test]
fn a_saved_view_catalog_is_kept_sorted_by_name() {
    let store = ViewStore::at("/tmp/views".into());
    let mut catalog = view_catalog();
    for name in ["b", "c", "a"] {
        let saved = prepare_view(name, "{}".into(), 7).unwrap();
        catalog = store.save_validated(saved, false, Ok(()), Ok(catalog)).unwrap().0;
    }
    let names: Vec<String> = store.list(Ok(catalog.clone())).unwrap().into_iter().map(|s| s.name).collect();
    assert_eq!(names, vec!["a", "b", "c"]);
    let catalog = store.delete("b", Ok(catalog)).unwrap();
    assert_eq!(catalog.views.len(), 2);
    assert_eq!(
        store.delete("b", Ok(catalog)).unwrap_err().message(),
        "saved view \"b\" does not exist"
    );
}

#[test]
fn view_names_and_sizes_are_bounded() {
    assert!(validate_name("ok name").is_ok());
    assert!(validate_name("   ").is_err());
    assert!(validate_name("tab\there").is_err());
    assert!(validate_name(&"x".repeat(129)).is_err());
    let big = prepare_view("big", "x".repeat(4 * 1024 * 1024), 1);
    assert_eq!(big.unwrap_err().message(), "saved view exceeds 4 MiB");
    let future = Catalog { format_version: 2, views: Vec::new() };
    assert_eq!(
        validate_catalog(&future).unwrap_err().message(),
        "unsupported saved-view catalog version 2; supported version is 1"
    );
    let no_root = ViewStore { root: None };
    assert_eq!(
        no_root.list(Ok(view_catalog())).unwrap_err().message(),
        "no config directory is available for saved views"
    );
}

#[test]
fn a_saved_view_reads_back_and_a_replacement_keeps_the_other_names() {
    let store = ViewStore::at("/tmp/views".into());
    let mut catalog = view_catalog();
    for (name, body) in [("wells", "{\"a\":1}"), ("fields", "{\"b\":2}")] {
        let saved = prepare_view(name, body.into(), 3).unwrap();
        catalog = store.save_validated(saved, false, Ok(()), Ok(catalog)).unwrap().0;
    }
    let replacement = prepare_view("wells", "{\"a\":9}".into(), 4).unwrap();
    let (catalog, summary) = store.save_validated(replacement, true, Ok(()), Ok(catalog)).unwrap();
    assert_eq!(summary.name, "wells");
    assert_eq!(summary.saved_at, 4);
    let read = store.get("wells", Ok(catalog.clone())).unwrap();
    assert_eq!((read.bookmark.as_str(), read.saved_at), ("{\"a\":9}", 4));
    assert_eq!(store.get("fields", Ok(catalog.clone())).unwrap().bookmark, "{\"b\":2}");
    let after = store.delete("wells", Ok(catalog)).unwrap();
    assert!(store.get("wells", Ok(after.clone())).is_err());
    assert_eq!(store.get("fields", Ok(after)).unwrap().bookmark, "{\"b\":2}");
}

#[test]
fn an_absent_file_lists_empty_and_an_unparsable_one_is_refused() {
    let store = QueryStore::open(Some("/tmp/queries".into()), None, "<in-memory>");
    let empty = store.list(StoreRead::Absent).expect("an absent file is an empty store");
    assert!(empty.saved.is_empty() && empty.history.is_empty());
    assert_eq!(empty.graph_label, "<in-memory>");
    let refused = store.list(StoreRead::Unparsable("bad json".into())).unwrap_err().message();
    assert!(refused.contains("is not a saved-query file this version can read (bad json)"), "{refused}");
    assert!(matches!(store.list(StoreRead::Failed("denied".into())), Err(StoreError::Io(m)) if m == "denied"));
    let nowhere = QueryStore::open(None, None, "<in-memory>");
    assert!(nowhere.list(StoreRead::Absent).is_err());
}

#[test]
fn the_creation_ceiling_spares_an_existing_file_and_the_size_ceiling_applies_to_all() {
    assert!(check_write(true, MAX_STORE_FILES, 10).is_ok());
    let refused = check_write(false, MAX_STORE_FILES, 10).unwrap_err().message();
    assert!(refused.contains("512"), "{refused}");
    let big = check_write(true, 0, MAX_STORE_FILE_BYTES + 1).unwrap_err().message();
    assert!(big.contains("262144"), "{big}");
    assert!(check_write(false, 0, MAX_STORE_FILE_BYTES).is_ok());
}
