//! Binding line coverage to nodes.
use std::collections::HashMap;

use graphify_plugin_test_coverage::file_table::FileTable;
use graphify_plugin_test_coverage::graph::{GraphOutput, Node};
use graphify_plugin_test_coverage::ingest::CoverageData;
use graphify_plugin_test_coverage::registry::CoverageBinding;
use graphify_plugin_test_coverage::resolver::{file_matches, resolve, resolve_coverage};

fn node(id: &str, source_file: &str, start: usize, end: usize) -> Node {
    Node {
        id: id.to_string(),
        source_file: source_file.to_string(),
        start_line: start,
        end_line: end,
    }
}

fn graph_with(nodes: Vec<Node>) -> GraphOutput {
    GraphOutput { nodes, edges: 0 }
}

fn coverage(files: Vec<(&str, Vec<(u32, u64)>)>) -> CoverageData {
    let mut table = FileTable::new();
    for (file, lines) in files {
        let mut hits = HashMap::new();
        for (line, hit) in lines {
            hits.insert(line, hit);
        }
        table.insert(file.to_string(), hits);
    }
    CoverageData { files: table }
}

fn line_rate(b: &CoverageBinding) -> f64 {
    b.covered_lines as f64 / b.total_lines as f64
}

#[test]
fn node_with_full_coverage() {
    let g = graph_with(vec![
        node("src/auth.rs:function:verify", "src/auth.rs", 30, 42),
    ]);
    let c = coverage(vec![
        ("src/auth.rs", vec![(30, 1), (31, 5), (35, 0), (42, 3)]),
    ]);
    let bindings = resolve_coverage(&g, &c, "w-1");
    assert_eq!(bindings.len(), 1);
    let b = &bindings[0];
    assert_eq!(b.canonical_node_id, "src/auth.rs:function:verify");
    // Four lines of [30, 42] were measured, three of them hit.
    assert_eq!(b.total_lines, 4);
    assert_eq!(b.covered_lines, 3);
    assert!((line_rate(b) - 0.75).abs() < 0.001);
    assert!(!b.is_blindspot);
}

#[test]
fn node_with_zero_coverage() {
    let g = graph_with(vec![
        node("src/auth.rs:function:blind", "src/auth.rs", 1, 5),
    ]);
    let c = coverage(vec![
        ("src/auth.rs", vec![(1, 0), (2, 0), (3, 0)]),
    ]);
    let bindings = resolve_coverage(&g, &c, "w-1");
    assert_eq!(bindings.len(), 1);
    assert_eq!(bindings[0].covered_lines, 0);
    assert!((line_rate(&bindings[0]) - 0.0).abs() < 0.001);
    assert!(bindings[0].is_blindspot);
}

#[test]
fn node_with_no_coverage_data_returns_no_binding() {
    let g = graph_with(vec![
        node("src/auth.rs:function:f", "src/auth.rs", 1, 100),
    ]);
    let c = coverage(vec![("src/other.rs", vec![(1, 1)])]);
    let bindings = resolve_coverage(&g, &c, "w-1");
    assert!(bindings.is_empty());
}

#[test]
fn multiple_nodes_in_same_file() {
    let g = graph_with(vec![
        node("src/a.rs:function:f1", "src/a.rs", 1, 10),
        node("src/a.rs:function:f2", "src/a.rs", 20, 30),
    ]);
    let c = coverage(vec![
        ("src/a.rs", vec![(1, 1), (5, 0), (20, 3), (25, 0)]),
    ]);
    let bindings = resolve_coverage(&g, &c, "w-1");
    assert_eq!(bindings.len(), 2);
    let f1 = bindings.iter().find(|b| b.canonical_node_id == "src/a.rs:function:f1").unwrap();
    assert_eq!(f1.total_lines, 2); // lines 1 and 5
    assert_eq!(f1.covered_lines, 1);
    let f2 = bindings.iter().find(|b| b.canonical_node_id == "src/a.rs:function:f2").unwrap();
    assert_eq!(f2.total_lines, 2); // lines 20 and 25
    assert_eq!(f2.covered_lines, 1);
}

#[test]
fn file_level_residual_lines() {
    let g = graph_with(vec![
        node("src/a.rs:function:f", "src/a.rs", 10, 20),
    ]);
    let c = coverage(vec![
        ("src/a.rs", vec![(1, 1), (5, 0), (10, 1), (15, 0), (30, 3)]),
    ]);
    // The node spans lines 10 and 15; lines 1, 5 and 30 are left for the file.
    let bindings = resolve_coverage(&g, &c, "w-1");
    let file_bindings: Vec<_> = bindings.iter().filter(|b| b.canonical_node_id.starts_with("file:")).collect();
    assert_eq!(file_bindings.len(), 1, "file-level entry");
    let fb = &file_bindings[0];
    assert_eq!(fb.canonical_node_id, "file:src/a.rs");
    assert_eq!(fb.total_lines, 3); // lines 1, 5 and 30
    assert_eq!(fb.covered_lines, 2); // lines 1 and 30
    assert!((line_rate(fb) - 2.0 / 3.0).abs() < 0.001);
}

#[test]
fn suffix_path_matches() {
    let g = graph_with(vec![
        node("f:function:f", "/repo/src/a.rs", 1, 5),
    ]);
    let c = coverage(vec![
        ("src/a.rs", vec![(1, 1), (3, 0)]),
    ]);
    let bindings = resolve_coverage(&g, &c, "w-1");
    assert_eq!(bindings.len(), 1, "suffix match succeeded");
    assert_eq!(bindings[0].total_lines, 2);
}

#[test]
fn file_matches_rules() {
    assert!(file_matches("src/auth.rs", "src/auth.rs"));
    assert!(file_matches("/repo/src/auth.rs", "src/auth.rs"));
    assert!(file_matches("src/auth/verify.rs", "auth/verify.rs"));
    assert!(!file_matches("src/auth.rs", "auth.rs")); // a bare name is no tail
    assert!(!file_matches("src/foosrc/auth.rs", "src/auth.rs"));
    assert!(file_matches("src/foosrc/auth.rs", "src/foosrc/auth.rs"));

    // The source has an absolute path, the graph a relative one with a leading `./`.
    assert!(file_matches(
        "./graphify-core/src/types.rs",
        "/home/user/project/graphify-core/src/types.rs"
    ));
    // The same without the leading `./`.
    assert!(file_matches(
        "graphify-core/src/types.rs",
        "/home/user/project/graphify-core/src/types.rs"
    ));
    // A common file name alone does not match.
    assert!(!file_matches("src/auth.rs", "/repo/other/auth.rs"));
}

#[test]
fn a_tail_matches_in_both_directions() {
    assert!(file_matches("x/y/a/b.rs", "a/b.rs"));
    assert!(file_matches("a/b.rs", "x/y/a/b.rs"));
    assert!(file_matches("/a/b.rs", "a/b.rs"));
    assert!(!file_matches("xa/b.rs", "a/b.rs"));
    assert!(!file_matches("a/b.rs", "xa/b.rs"));
}

#[test]
fn a_leading_dot_is_dropped_from_the_graph_path() {
    assert!(file_matches("./src/a.rs", "src/a.rs"));
    assert!(file_matches("./src/a.rs", "w/src/a.rs"));
    // Only the graph's path is cleaned.
    assert!(file_matches("w/./src/a.rs", "./src/a.rs"));
    assert!(!file_matches("src/a.rs", "./src/b.rs"));
    // The root is a directory like any other.
    assert!(file_matches("./src/a.rs", "/src/a.rs"));
    assert!(!file_matches("./src/a.rs", "xsrc/a.rs"));
}

#[test]
fn bare_names_match_only_themselves() {
    assert!(file_matches("a.rs", "a.rs"));
    assert!(file_matches("", ""));
    assert!(!file_matches("a.rs", ""));
    assert!(!file_matches("", "a.rs"));
    assert!(!file_matches("./a.rs", "a.rs"));
    assert!(!file_matches("a.rs", "src/a.rs"));
}

#[test]
fn half_of_the_lines_is_no_blindspot() {
    let g = graph_with(vec![node("f", "a/b", 1, 2), node("g", "a/b", 3, 5)]);
    let c = coverage(vec![("a/b", vec![(1, 1), (2, 0), (3, 1), (4, 0), (5, 0)])]);
    let bindings = resolve_coverage(&g, &c, "w");
    assert!(!bindings[0].is_blindspot);
    assert!(bindings[1].is_blindspot);
}

#[test]
fn both_ends_of_a_range_belong_to_it() {
    let g = graph_with(vec![node("f", "a", 2, 4)]);
    let c = coverage(vec![("a", vec![(1, 1), (2, 1), (4, 1), (5, 1)])]);
    let bindings = resolve_coverage(&g, &c, "w");
    assert_eq!((bindings[0].total_lines, bindings[0].covered_lines), (2, 2));
    assert_eq!((bindings[1].total_lines, bindings[1].covered_lines), (2, 2));
}

#[test]
fn overlapping_nodes_count_their_lines_each() {
    let g = graph_with(vec![node("outer", "a", 1, 10), node("inner", "a", 3, 4)]);
    let c = coverage(vec![("a", vec![(1, 0), (3, 1), (4, 1)])]);
    let bindings = resolve_coverage(&g, &c, "w");
    assert_eq!(bindings.len(), 2);
    assert_eq!((bindings[0].total_lines, bindings[0].covered_lines), (3, 2));
    assert_eq!((bindings[1].total_lines, bindings[1].covered_lines), (2, 2));
}

#[test]
fn ranges_without_measured_lines_give_no_binding() {
    let g = graph_with(vec![node("before", "a", 1, 4), node("empty", "a", 9, 8)]);
    let c = coverage(vec![("a", vec![(5, 1)])]);
    let bindings = resolve_coverage(&g, &c, "w");
    assert_eq!(bindings.len(), 1);
    assert_eq!(bindings[0].canonical_node_id, "file:a");
    assert_eq!(bindings[0].total_lines, 1);
}

#[test]
fn files_without_nodes_are_not_bound() {
    let g = graph_with(vec![node("f", "a", 1, 4)]);
    let c = coverage(vec![("a", vec![]), ("b", vec![(1, 1)])]);
    assert!(resolve_coverage(&g, &c, "w").is_empty());
}

#[test]
fn huge_ranges_are_no_trouble() {
    let g = graph_with(vec![node("f", "a", 0, usize::MAX)]);
    let c = coverage(vec![("a", vec![(0, 1), (u32::MAX, 0)])]);
    let bindings = resolve_coverage(&g, &c, "w");
    assert_eq!(bindings.len(), 1);
    assert_eq!((bindings[0].total_lines, bindings[0].covered_lines), (2, 1));
}

#[test]
fn the_node_that_comes_first_is_bound_under_an_id() {
    let c = coverage(vec![("a", vec![(1, 1), (2, 0)])]);
    let one = graph_with(vec![node("f", "a", 1, 1), node("f", "a", 2, 2)]);
    let other = graph_with(vec![node("f", "a", 2, 2), node("f", "a", 1, 1)]);
    let bindings = resolve_coverage(&one, &c, "w");
    assert_eq!(bindings.len(), 1);
    assert_eq!((bindings[0].total_lines, bindings[0].covered_lines), (1, 1));
    assert_eq!(bindings, resolve_coverage(&other, &c, "w"));

    // Of two that start together the shorter one; of two files the first.
    let nested = graph_with(vec![node("f", "a", 1, 2), node("f", "a", 1, 1)]);
    assert_eq!(resolve_coverage(&nested, &c, "w")[0].total_lines, 1);
    let c = coverage(vec![("a", vec![(5, 0)]), ("b", vec![(1, 1)])]);
    let files = graph_with(vec![node("f", "b", 1, 1), node("f", "a", 5, 5)]);
    assert_eq!(resolve_coverage(&files, &c, "w")[0].file_path, "a");
}

#[test]
fn a_node_without_measured_lines_leaves_its_id_to_others() {
    let c = coverage(vec![("a", vec![(2, 1)])]);
    for nodes in [
        vec![node("f", "a", 1, 1), node("f", "a", 2, 2)],
        vec![node("f", "a", 2, 2), node("f", "a", 1, 1)],
    ] {
        let bindings = resolve_coverage(&graph_with(nodes), &c, "w");
        assert_eq!(bindings.len(), 1);
        assert_eq!(bindings[0].canonical_node_id, "f");
        assert_eq!((bindings[0].total_lines, bindings[0].covered_lines), (1, 1));
    }
}

#[test]
fn the_bindings_of_a_file_add_up() {
    let g = graph_with(vec![node("f", "a", 2, 4), node("g", "a", 5, 7), node("h", "b", 1, 9)]);
    let c = coverage(vec![("a", (1..=10).map(|l| (l, (l % 3) as u64)).collect()), ("b", vec![(1, 1)])]);
    let bindings = resolve_coverage(&g, &c, "w");
    let own = bindings.iter().filter(|b| b.file_path == "a");
    let sums = own.fold((0, 0), |s, b| (s.0 + b.total_lines, s.1 + b.covered_lines));
    assert_eq!(sums, (10, 7));
}

#[test]
fn bound_nodes_are_counted_by_origin() {
    let c = coverage(vec![("a", vec![(1, 1), (9, 0)]), ("b", vec![(1, 1)])]);
    let g = graph_with(vec![node("f", "a", 1, 2), node("file:b", "b", 1, 2), node("x", "b", 5, 6)]);
    let resolution = resolve(&g, &c, "w");
    assert_eq!(resolution.bound_nodes, 2);
    let ids: Vec<&str> =
        resolution.bindings.iter().map(|b| b.canonical_node_id.as_str()).collect();
    assert_eq!(ids, vec!["f", "file:b", "file:a"]);
    assert_eq!(resolution.bindings, resolve_coverage(&g, &c, "w"));
}

#[test]
fn a_node_goes_to_the_first_file_in_path_order() {
    let g = graph_with(vec![node("f", "x/s/a.rs", 1, 9)]);
    let one = coverage(vec![("s/a.rs", vec![(1, 1)]), ("x/s/a.rs", vec![(2, 0)])]);
    let other = coverage(vec![("x/s/a.rs", vec![(2, 0)]), ("s/a.rs", vec![(1, 1)])]);
    let bindings = resolve_coverage(&g, &one, "w");
    assert_eq!(bindings.len(), 1);
    assert_eq!(bindings[0].file_path, "s/a.rs");
    assert_eq!(bindings, resolve_coverage(&g, &other, "w"));
    assert_eq!(one, other);
}

fn sorted(mut bindings: Vec<CoverageBinding>) -> Vec<CoverageBinding> {
    bindings.sort_by(|a, b| a.canonical_node_id.partial_cmp(&b.canonical_node_id).unwrap());
    bindings
}

#[test]
fn the_order_of_nodes_does_not_matter() {
    let nodes = vec![
        node("a:f", "src/a.rs", 1, 3),
        node("b:g", "src/b.rs", 2, 8),
        node("a:h", "src/a.rs", 5, 9),
        node("none", "src/c.rs", 1, 9),
    ];
    let c = coverage(vec![
        ("src/a.rs", vec![(1, 1), (4, 0), (6, 0), (9, 2)]),
        ("src/b.rs", vec![(1, 1), (2, 0)]),
    ]);
    let forward = sorted(resolve_coverage(&graph_with(nodes.clone()), &c, "w"));
    let mut backward = nodes.clone();
    backward.reverse();
    assert_eq!(forward, sorted(resolve_coverage(&graph_with(backward), &c, "w")));
    let mut doubled = nodes.clone();
    doubled.extend(nodes);
    assert_eq!(forward, sorted(resolve_coverage(&graph_with(doubled), &c, "w")));
    assert_eq!(forward.len(), 5);
}

#[test]
fn every_binding_is_sound() {
    let g = graph_with(vec![node("a:f", "src/a.rs", 1, 3), node("b:g", "src/b.rs", 2, 8)]);
    let c = coverage(vec![
        ("src/a.rs", vec![(1, 1), (4, 0)]),
        ("src/b.rs", vec![(1, 1), (2, 0)]),
    ]);
    let bindings = resolve_coverage(&g, &c, "w-9");
    let ids: Vec<&str> = bindings.iter().map(|b| b.canonical_node_id.as_str()).collect();
    assert_eq!(ids, vec!["a:f", "b:g", "file:src/a.rs", "file:src/b.rs"]);
    for b in &bindings {
        assert_eq!(b.workspace_key, "w-9");
        assert!(b.total_lines > 0);
        assert!(0 <= b.covered_lines && b.covered_lines <= b.total_lines);
        assert_eq!(b.is_blindspot, 2 * b.covered_lines < b.total_lines);
        assert_eq!(b.updated_at, "");
    }
}

#[test]
fn no_measured_line_is_lost() {
    let g = graph_with(vec![node("f", "a", 3, 5), node("g", "a", 5, 7)]);
    let c = coverage(vec![("a", (1..=10).map(|l| (l, 1)).collect())]);
    let bindings = resolve_coverage(&g, &c, "w");
    // Lines 3 to 7 lie in ranges, the other five are left for the file.
    assert_eq!(bindings[0].total_lines, 3);
    assert_eq!(bindings[1].total_lines, 3);
    assert_eq!(bindings[2].canonical_node_id, "file:a");
    assert_eq!(bindings[2].total_lines, 5);
}

#[test]
fn a_clone_is_equal() {
    let c = coverage(vec![("b", vec![(1, 1)]), ("a", vec![(2, 0)])]);
    assert_eq!(c.clone(), c);
    let g = graph_with(vec![node("f", "a", 3, 5)]);
    let copy = g.clone();
    assert_eq!(copy.nodes[0].id, "f");
    assert_eq!((copy.nodes[0].start_line, copy.nodes[0].end_line, copy.edges), (3, 5, 0));
}

#[test]
fn ids_clash_only_where_a_node_bears_the_id_of_a_file() {
    let c = coverage(vec![("a", vec![(1, 1), (9, 0)])]);
    let clash = resolve_coverage(&graph_with(vec![node("file:a", "a", 1, 2)]), &c, "w");
    assert_eq!(clash.len(), 2);
    assert_eq!(clash[0].canonical_node_id, clash[1].canonical_node_id);
    let clear = resolve_coverage(&graph_with(vec![node("file:b", "a", 1, 2)]), &c, "w");
    assert_eq!(clear.len(), 2);
    assert_ne!(clear[0].canonical_node_id, clear[1].canonical_node_id);
}
