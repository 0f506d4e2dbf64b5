//! The plugin from sources and graphs to summaries, snapshots and packets.
use std::path::PathBuf;

use graphify_plugin_test_coverage::graph::{GraphOutput, Node};
use graphify_plugin_test_coverage::ingest::{
    parse_lcov, CoverageFileEntry, CoverageIngestPayload, CoverageLineEntry, CoverageParseError,
};
use graphify_plugin_test_coverage::plugin::{coverage_summary_json, summarize};
use graphify_plugin_test_coverage::registry::{CoverageBinding, SnapshotAction};
use graphify_plugin_test_coverage::{
    CoverageError, CoveragePlugin, CoverageSummary, Ingest, TableStats, WorkspaceContext, PLUGIN_ID,
};

fn make_graph() -> GraphOutput {
    GraphOutput {
        nodes: vec![Node {
            id: "src/a.rs:function:f".to_string(),
            source_file: "src/a.rs".to_string(),
            start_line: 1,
            end_line: 10,
        }],
        edges: 0,
    }
}

fn plugin_with_tmp_db() -> (tempfile::TempDir, CoveragePlugin) {
    let dir = tempfile::tempdir().unwrap();
    let db_path = dir.path().join("graphify.db");
    let p = CoveragePlugin::new().with_registry_path(db_path);
    (dir, p)
}

fn inject_graph(p: &mut CoveragePlugin) {
    p.sync_toon(Some(make_graph()), None);
}

/// Lets every action of the replacement succeed; the rows that are then in the table.
fn store(mut ingest: Ingest) -> (CoverageSummary, Vec<CoverageBinding>) {
    let mut table = Vec::new();
    while ingest.snapshot.outcome().is_none() {
        if let SnapshotAction::Insert(i) = ingest.snapshot.action() {
            table.push(ingest.snapshot.row(i).clone());
        }
        ingest.snapshot.advance(Ok(()));
    }
    (ingest.finish().unwrap(), table)
}

#[test]
fn bind_sets_workspace_key() {
    let (_d, p) = plugin_with_tmp_db();
    let mut p = p;
    p.bind(WorkspaceContext::new("w-1", "ws", "/tmp/ws"));
    assert_eq!(p.get_workspace_key(), "w-1");
}

#[test]
fn not_bound_returns_error() {
    let (_d, p) = plugin_with_tmp_db();
    let result = p.coverage_ingest_lcov("SF:a.rs\nDA:1,1\nend_of_record\n");
    assert!(matches!(result, Err(CoverageError::NotBound)));
}

#[test]
fn no_graph_cache_returns_error() {
    let (_d, p) = plugin_with_tmp_db();
    let mut p = p;
    p.bind(WorkspaceContext::new("w-1", "ws", "/tmp/ws"));
    let result = p.coverage_ingest_lcov("SF:a.rs\nDA:1,1\nend_of_record\n");
    assert!(matches!(result, Err(CoverageError::NoGraphCache)));
}

#[test]
fn full_ingest_lcov_flow() {
    let (_d, p) = plugin_with_tmp_db();
    let mut p = p;
    p.bind(WorkspaceContext::new("w-1", "ws", "/tmp/ws"));
    inject_graph(&mut p);
    assert!(p.graph().is_some());

    let lcov = "SF:src/a.rs\nDA:1,1\nDA:5,0\nDA:10,3\nend_of_record\n";
    let (summary, table) = store(p.coverage_ingest_lcov(lcov).unwrap());
    assert_eq!(summary.bound_nodes, 1);
    assert_eq!(summary.total_lines, 3);
    assert_eq!(summary.covered_lines, 2);
    assert_eq!(summary.blindspots, 0);

    let binding = table
        .iter()
        .find(|b| b.workspace_key == "w-1" && b.canonical_node_id == "src/a.rs:function:f")
        .unwrap();
    let line_rate = binding.covered_lines as f64 / binding.total_lines as f64;
    assert!((line_rate - 2.0 / 3.0).abs() < 0.001);
}

/// The payload with version 1.0 from cobertura that gives lines 1 and 3 of src/a.rs no hits.
fn payload() -> CoverageIngestPayload {
    CoverageIngestPayload {
        version: "1.0".to_string(),
        source: "cobertura".to_string(),
        workspace_key: None,
        files: vec![CoverageFileEntry {
            file_path: "src/a.rs".to_string(),
            lines: vec![
                CoverageLineEntry { line_number: 1, hit_count: 0 },
                CoverageLineEntry { line_number: 3, hit_count: 0 },
            ],
        }],
    }
}

#[test]
fn full_ingest_json_flow() {
    let (_d, p) = plugin_with_tmp_db();
    let mut p = p;
    p.bind(WorkspaceContext::new("w-1", "ws", "/tmp/ws"));
    inject_graph(&mut p);

    let (summary, table) = store(p.coverage_ingest_json(Ok(payload())).unwrap());
    assert_eq!(summary.bound_nodes, 1);
    assert_eq!(summary.blindspots, 1);

    let spots = table.iter().filter(|b| b.workspace_key == "w-1" && b.is_blindspot).count();
    assert_eq!(spots, 1);
}

#[test]
fn sync_toon_none_does_not_panic() {
    let (_d, p) = plugin_with_tmp_db();
    let mut p = p;
    p.bind(WorkspaceContext::new("w-1", "ws", "/tmp/ws"));
    let text = p.sync_toon(None, None);
    assert!(text.contains("workspace_key"));
    assert!(text.contains("coverage"));
}

#[test]
fn sync_toon_garbage_is_lenient() {
    let (_d, p) = plugin_with_tmp_db();
    let mut p = p;
    p.bind(WorkspaceContext::new("w-1", "ws", "/tmp/ws"));
    // What cannot be decoded, and what decodes to nothing.
    let out = p.sync_toon(None, None);
    assert!(out.contains("workspace_key"));
    let out = p.sync_toon(Some(GraphOutput { nodes: Vec::new(), edges: 0 }), None);
    assert!(out.contains("workspace_key"));
    assert!(p.graph().is_none(), "garbage toon should not cache graph");
}

#[test]
fn bind_for_cli_sets_workspace_key() {
    let (_d, p) = plugin_with_tmp_db();
    let p = p.bind_for_cli("w-key", Some("workspace".to_string()), "/tmp/workspace");
    assert!(!p.get_workspace_key().is_empty());
}

#[test]
fn a_new_plugin_knows_nothing() {
    for p in [CoveragePlugin::new(), CoveragePlugin::default()] {
        assert_eq!(p.get_id(), PLUGIN_ID);
        assert_eq!(p.get_id(), "graphify-plugin-test-coverage");
        assert_eq!(p.get_workspace_key(), "");
        assert!(p.registry_path().is_none());
        assert!(p.graph().is_none());
    }
}

#[test]
fn binding_keeps_graph_and_database() {
    let p = CoveragePlugin::new().with_registry_path(PathBuf::from("/x/y.db"));
    let mut p = p.bind_for_cli("k", None, "/");
    inject_graph(&mut p);
    p.bind(WorkspaceContext::new("other", "n", "/o"));
    assert_eq!(p.get_workspace_key(), "other");
    assert_eq!(p.registry_path(), Some(&PathBuf::from("/x/y.db")));
    assert_eq!(p.graph().unwrap().nodes.len(), 1);
}

#[test]
fn an_empty_graph_leaves_the_cached_one() {
    let mut p = CoveragePlugin::new();
    inject_graph(&mut p);
    p.sync_toon(Some(GraphOutput { nodes: Vec::new(), edges: 0 }), None);
    assert_eq!(p.graph().unwrap().nodes.len(), 1);
    p.sync_toon(Some(GraphOutput { nodes: Vec::new(), edges: 1 }), None);
    assert_eq!(p.graph().unwrap().nodes.len(), 0);
}

#[test]
fn an_unreadable_source_is_reported_first() {
    let p = CoveragePlugin::new();
    let error = p.coverage_ingest_lcov("DA:x").unwrap_err();
    assert_eq!(
        error.to_text(),
        "parse error: coverage parse error: line 1: malformed DA record: \"DA:x\""
    );
    let error = p.coverage_ingest_json(Err("EOF".to_string())).unwrap_err();
    assert_eq!(error.to_text(), "parse error: coverage parse error: invalid JSON: EOF");
}

#[test]
fn errors_read_as_sentences() {
    assert_eq!(
        CoverageError::NoGraphCache.to_text(),
        "no graph cache \u{2014} call sync_toon first"
    );
    assert_eq!(CoverageError::NotBound.to_text(), "plugin not bound \u{2014} call bind first");
    assert_eq!(CoverageError::Db("locked".to_string()).to_text(), "db error: locked");
    assert_eq!(CoverageError::Internal("x".to_string()).to_text(), "internal error: x");
    let parse = CoverageError::Parse(CoverageParseError::new("m".to_string()));
    assert_eq!(parse.to_text(), "parse error: coverage parse error: m");
}

#[test]
fn a_database_failure_is_the_result() {
    let mut p = CoveragePlugin::new();
    p.bind(WorkspaceContext::new("w", "n", "/"));
    inject_graph(&mut p);
    let mut ingest = p.coverage_ingest_lcov("SF:src/a.rs\nDA:1,1\n").unwrap();
    assert_eq!(ingest.snapshot.action(), SnapshotAction::Begin);
    ingest.snapshot.advance(Err("unable to open database file".to_string()));
    assert_eq!(ingest.snapshot.action(), SnapshotAction::Done);
    let error = ingest.finish().unwrap_err();
    assert_eq!(error.to_text(), "db error: unable to open database file");
}

#[test]
fn rows_carry_the_time_of_the_ingest() {
    let mut p = CoveragePlugin::new();
    p.bind(WorkspaceContext::new("w", "n", "/"));
    inject_graph(&mut p);
    let data = parse_lcov("SF:src/a.rs\nDA:1,1\nDA:11,0\n").unwrap();
    let (summary, table) = store(p.ingest_at(&data, "2026-08-17T00:00:00Z").unwrap());
    assert_eq!(table.len(), 2);
    assert!(table.iter().all(|b| b.updated_at == "2026-08-17T00:00:00Z"));
    assert_eq!(
        summary,
        CoverageSummary { bound_nodes: 1, total_lines: 2, covered_lines: 1, blindspots: 1 }
    );
}

#[test]
fn bindings_are_summed_up() {
    let row = |id: &str, total: i64, covered: i64| CoverageBinding {
        workspace_key: "w".to_string(),
        canonical_node_id: id.to_string(),
        file_path: "a.rs".to_string(),
        total_lines: total,
        covered_lines: covered,
        is_blindspot: 2 * covered < total,
        updated_at: String::new(),
    };
    let rows = [row("f", 4, 4), row("g", 3, 1), row("file:a.rs", 3, 1)];
    assert_eq!(
        summarize(&rows, 2),
        Some(CoverageSummary { bound_nodes: 2, total_lines: 10, covered_lines: 6, blindspots: 2 })
    );
    assert_eq!(
        summarize(&[], 0),
        Some(CoverageSummary { bound_nodes: 0, total_lines: 0, covered_lines: 0, blindspots: 0 })
    );
    assert_eq!(summarize(&[row("f", i64::MAX, 0), row("g", 1, 0)], 2), None);
    assert!(summarize(&[row("f", i64::MAX - 1, i64::MAX - 1), row("g", 1, 1)], 2).is_some());
}

#[test]
fn a_node_with_the_id_of_its_file_is_a_bound_node() {
    let mut p = CoveragePlugin::new();
    p.bind(WorkspaceContext::new("w", "n", "/"));
    let mut graph = make_graph();
    graph.nodes[0].id = "file:src/a.rs".to_string();
    p.sync_toon(Some(graph), None);
    let (summary, table) = store(p.coverage_ingest_lcov("SF:src/a.rs\nDA:1,1\n").unwrap());
    assert_eq!(summary.bound_nodes, 1);
    assert_eq!(table.len(), 1);
    // Its lines outside all nodes are none of its own.
    inject_graph(&mut p);
    let (summary, table) = store(p.coverage_ingest_lcov("SF:src/a.rs\nDA:11,1\n").unwrap());
    assert_eq!(summary.bound_nodes, 0);
    assert_eq!(table.len(), 1);
}

#[test]
fn missing_numbers_count_as_zero() {
    let json = |stats| coverage_summary_json("w", stats).to_json();
    let text = |avg: &str, spots: u32, total: u32| {
        format!(
            "{{\"coverage\":{{\"avg_coverage\":{avg},\"blindspots\":{spots},\"total_nodes\":{total},\"workspace_key\":\"w\"}}}}"
        )
    };
    assert_eq!(json(None), text("0.0", 0, 0));
    let stats = TableStats { total: Some(42), blindspots: Some(5), avg_tenths: Some(734) };
    assert_eq!(json(Some(stats)), text("73.4", 5, 42));
    let stats = TableStats { total: None, blindspots: Some(5), avg_tenths: None };
    assert_eq!(json(Some(stats)), text("0.0", 5, 0));
    let stats = TableStats { total: Some(1), blindspots: None, avg_tenths: Some(1) };
    assert_eq!(json(Some(stats)), text("0.1", 0, 1));
}

#[test]
fn the_packet_reports_the_table() {
    let mut p = CoveragePlugin::new().bind_for_cli("w", None, "/");
    let stats = TableStats { total: Some(42), blindspots: Some(5), avg_tenths: Some(734) };
    let packet = p.sync_toon(None, Some(stats));
    assert_eq!(
        packet,
        "metadata:\n  format_version: \"1.0.0\"\n  workspace_key: w\n  plugin_data: \
         \"{\\\"coverage\\\":{\\\"avg_coverage\\\":73.4,\\\"blindspots\\\":5,\\\"total_nodes\\\":42,\
         \\\"workspace_key\\\":\\\"w\\\"}}\"\n"
    );
}
