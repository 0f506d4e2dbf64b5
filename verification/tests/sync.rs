//! The packet.
use graphify_plugin_test_coverage::graph::{GraphOutput, Node};
use graphify_plugin_test_coverage::sync::{
    build_coverage_plugin_data, compose_packet, emit_packet, escape_string, parse_graph,
};

fn node(id: &str, file: &str, start: usize, end: usize) -> Node {
    Node { id: id.to_string(), source_file: file.to_string(), start_line: start, end_line: end }
}

/// An average as tenths, rounded to the nearest.
fn tenths(average: f64) -> u32 {
    (average * 10.0).round() as u32
}

#[test]
fn parse_graph_from_valid_toon() {
    let graph = GraphOutput {
        nodes: vec![node("src/a.rs:function:f", "src/a.rs", 1, 10)],
        edges: 0,
    };
    let parsed = parse_graph(Some(graph)).unwrap();
    assert_eq!(parsed.nodes.len(), 1);
    assert_eq!(parsed.nodes[0].id, "src/a.rs:function:f");
}

#[test]
fn parse_graph_empty_returns_none() {
    assert!(parse_graph(None).is_none());
    assert!(parse_graph(Some(GraphOutput { nodes: Vec::new(), edges: 0 })).is_none());
}

#[test]
fn a_graph_with_edges_alone_is_one() {
    let parsed = parse_graph(Some(GraphOutput { nodes: Vec::new(), edges: 3 })).unwrap();
    assert_eq!((parsed.nodes.len(), parsed.edges), (0, 3));
}

#[test]
fn emit_and_reparse() {
    let data = build_coverage_plugin_data("w-abc", 10, 2, tenths(73.45));
    let packet = emit_packet("w-abc", &data);
    assert!(packet.contains("workspace_key"));
    assert!(packet.contains("coverage"));
}

#[test]
fn build_coverage_plugin_data_rounds_avg() {
    let data = build_coverage_plugin_data("w-1", 10, 2, tenths(73.45));
    let value: serde_json::Value = serde_json::from_str(&data.to_json()).unwrap();
    let cov = &value["coverage"];
    assert_eq!(cov["workspace_key"], "w-1");
    assert_eq!(cov["total_nodes"], 10);
    assert_eq!(cov["blindspots"], 2);
    let avg = cov["avg_coverage"].as_f64().unwrap();
    assert!((avg - 73.5).abs() < 0.01, "expected 73.5, got {avg}");
}

#[test]
fn the_json_text_is_compact_and_sorted() {
    let data = build_coverage_plugin_data("w-1", 10, 2, 735);
    assert_eq!(
        data.to_json(),
        r#"{"coverage":{"avg_coverage":73.5,"blindspots":2,"total_nodes":10,"workspace_key":"w-1"}}"#
    );
    let data = build_coverage_plugin_data("", 0, 0, 0);
    assert_eq!(
        data.to_json(),
        r#"{"coverage":{"avg_coverage":0.0,"blindspots":0,"total_nodes":0,"workspace_key":""}}"#
    );
    let data = build_coverage_plugin_data("k", usize::MAX, 1, u32::MAX);
    assert_eq!(
        data.to_json(),
        r#"{"coverage":{"avg_coverage":429496729.5,"blindspots":1,"total_nodes":18446744073709551615,"workspace_key":"k"}}"#
    );
}

#[test]
fn fractions_are_printed_as_given() {
    for n in [0u32, 1, 9, 10, 11, 99, 100, 333, 999, 1000, 12345, 999_999_999, 4_294_967_294] {
        let json = build_coverage_plugin_data("k", 0, 0, n).to_json();
        assert!(json.contains(&format!("\"avg_coverage\":{}.{},", n / 10, n % 10)), "{json}");
    }
}

#[test]
fn json_strings_are_escaped() {
    let data = build_coverage_plugin_data("\"\\\u{8}\t\n\u{c}\r\u{1}\u{1f}\u{7f}\u{e9}/", 0, 0, 0);
    let json = data.to_json();
    assert!(
        json.ends_with("\"workspace_key\":\"\\\"\\\\\\b\\t\\n\\f\\r\\u0001\\u001f\u{7f}\u{e9}/\"}}"),
        "{json}"
    );
}

#[test]
fn values_are_quoted_where_they_must_be() {
    assert_eq!(escape_string("plain"), "plain");
    assert_eq!(escape_string("a.b/c_d"), "a.b/c_d");
    assert_eq!(escape_string("x1"), "x1");
    assert_eq!(escape_string(""), "\"\"");
    assert_eq!(escape_string("null"), "\"null\"");
    assert_eq!(escape_string("true"), "\"true\"");
    assert_eq!(escape_string("false"), "\"false\"");
    assert_eq!(escape_string("nullable"), "nullable");
    assert_eq!(escape_string("1x"), "\"1x\"");
    assert_eq!(escape_string("w-1"), "\"w-1\"");
    assert_eq!(escape_string("a b"), "\"a b\"");
    assert_eq!(escape_string("a\u{a0}b"), "\"a\u{a0}b\"");
    assert_eq!(escape_string("a:b"), "\"a:b\"");
    assert_eq!(escape_string("[x]"), "\"[x]\"");
    assert_eq!(escape_string("{x}"), "\"{x}\"");
    assert_eq!(escape_string("a\"b\\c\nd\re\tf"), "\"a\\\"b\\\\c\\nd\\re\\tf\"");
}

#[test]
fn the_packet_is_what_it_should_be() {
    let data = build_coverage_plugin_data("w-1", 2, 1, 500);
    assert_eq!(
        emit_packet("w-1", &data),
        "metadata:\n  format_version: \"1.0.0\"\n  workspace_key: \"w-1\"\n  plugin_data: \
         \"{\\\"coverage\\\":{\\\"avg_coverage\\\":50.0,\\\"blindspots\\\":1,\\\"total_nodes\\\":2,\
         \\\"workspace_key\\\":\\\"w-1\\\"}}\"\n"
    );
    assert_eq!(emit_packet("w-1", &data), compose_packet("w-1", &data.to_json()));
}

#[test]
fn a_packet_has_four_lines_whatever_it_carries() {
    let packet = compose_packet("a\nb\r\n", "{\n}");
    let lines: Vec<&str> = packet.split('\n').collect();
    assert_eq!(
        lines,
        vec![
            "metadata:",
            "  format_version: \"1.0.0\"",
            "  workspace_key: \"a\\nb\\r\\n\"",
            "  plugin_data: \"{\\n}\"",
            "",
        ]
    );
}

#[test]
fn packets_are_told_apart() {
    let keys = ["", "a", "\"a\"", "\\", "\\\\", "\n", "\\n", "null", "\"null\""];
    for a in keys {
        for b in keys {
            assert_eq!(compose_packet(a, "x") == compose_packet(b, "x"), a == b);
            assert_eq!(compose_packet("x", a) == compose_packet("x", b), a == b);
        }
    }
}
