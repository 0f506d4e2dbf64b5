//! Reading coverage sources.
use graphify_plugin_test_coverage::ingest::{
    parse_json, parse_lcov, CoverageFileEntry, CoverageIngestPayload, CoverageLineEntry,
    CoverageParseError,
};

/// A member of a JSON object, or the complaint that it is missing.
fn member<'a>(value: &'a serde_json::Value, key: &str) -> Result<&'a serde_json::Value, String> {
    value.get(key).ok_or_else(|| format!("missing field `{key}`"))
}

fn text_of(value: &serde_json::Value) -> Result<String, String> {
    value.as_str().map(str::to_string).ok_or_else(|| "expected a string".to_string())
}

fn items(value: &serde_json::Value) -> Result<&Vec<serde_json::Value>, String> {
    value.as_array().ok_or_else(|| "expected a sequence".to_string())
}

/// The payload that a JSON text holds.
fn decode(text: &str) -> Result<CoverageIngestPayload, String> {
    let value: serde_json::Value = serde_json::from_str(text).map_err(|e| e.to_string())?;
    let mut files = Vec::new();
    for file in items(member(&value, "files")?)? {
        let mut lines = Vec::new();
        for line in items(member(file, "lines")?)? {
            lines.push(CoverageLineEntry {
                line_number: member(line, "line_number")?.as_u64().ok_or("expected a number")? as u32,
                hit_count: member(line, "hit_count")?.as_u64().ok_or("expected a number")?,
            });
        }
        files.push(CoverageFileEntry { file_path: text_of(member(file, "file_path")?)?, lines });
    }
    Ok(CoverageIngestPayload {
        version: text_of(member(&value, "version")?)?,
        source: text_of(member(&value, "source")?)?,
        workspace_key: value.get("workspace_key").and_then(|v| v.as_str()).map(str::to_string),
        files,
    })
}

#[test]
fn parse_simple_lcov() {
    let lcov = r#"
SF:src/auth.rs
DA:30,0
DA:31,1
DA:35,0
DA:42,5
end_of_record
SF:src/db/query.rs
DA:10,3
DA:11,0
end_of_record
"#;
    let data = parse_lcov(lcov).unwrap();
    assert_eq!(data.files.len(), 2);

    let auth = data.files.get("src/auth.rs").unwrap();
    assert_eq!(auth.get(&30), Some(&0));
    assert_eq!(auth.get(&31), Some(&1));
    assert_eq!(auth.get(&42), Some(&5));
    assert_eq!(auth.len(), 4);

    let query = data.files.get("src/db/query.rs").unwrap();
    assert_eq!(query.get(&10), Some(&3));
    assert_eq!(query.len(), 2);
}

#[test]
fn parse_lcov_empty() {
    let data = parse_lcov("").unwrap();
    assert!(data.files.is_empty());
}

#[test]
fn parse_lcov_da_zero_is_covered() {
    // A hit count of 0 marks a measured line that never ran.
    let lcov = "SF:a.rs\nDA:1,0\nend_of_record\n";
    let data = parse_lcov(lcov).unwrap();
    assert_eq!(data.files.get("a.rs").unwrap()[&1], 0);
}

#[test]
fn parse_lcov_ignores_unknown_tags() {
    let lcov = "SF:a.rs\nTN:test\nDA:1,1\nda:2,0\nend_of_record\n";
    let data = parse_lcov(lcov).unwrap();
    let lines = data.files.get("a.rs").unwrap();
    assert_eq!(lines.len(), 1, "DA: is case-sensitive, 'da:' ignored");
    assert_eq!(lines[&1], 1);
}

#[test]
fn parse_lcov_malformed_da() {
    assert!(parse_lcov("SF:a.rs\nDA:abc\nend_of_record\n").is_err());
    assert!(parse_lcov("SF:a.rs\nDA:1,abc\nend_of_record\n").is_err());
}

#[test]
fn parse_lcov_no_end_of_record() {
    // The file that is still open at the end of the text counts.
    let lcov = "SF:a.rs\nDA:1,1\nDA:2,0\n";
    let data = parse_lcov(lcov).unwrap();
    let lines = data.files.get("a.rs").unwrap();
    assert_eq!(lines.len(), 2);
}

#[test]
fn parse_json_basic() {
    let json = r#"{
        "version": "1.0",
        "source": "cobertura",
        "files": [
            {
                "file_path": "src/auth.rs",
                "lines": [
                    {"line_number": 30, "hit_count": 0},
                    {"line_number": 31, "hit_count": 1}
                ]
            }
        ]
    }"#;
    let data = parse_json(decode(json)).unwrap();
    assert_eq!(data.files.len(), 1);
    let auth = data.files.get("src/auth.rs").unwrap();
    assert_eq!(auth.len(), 2);
    assert_eq!(auth[&30], 0);
    assert_eq!(auth[&31], 1);
}

#[test]
fn parse_json_invalid() {
    assert!(parse_json(decode("not json")).is_err());
    assert!(parse_json(decode(r#"{"version":"1.0"}"#)).is_err());
}

#[test]
fn parse_json_empty_files() {
    let json = r#"{"version":"1.0","source":"test","files":[]}"#;
    let data = parse_json(decode(json)).unwrap();
    assert!(data.files.is_empty());
}

fn complaint(text: &str) -> String {
    parse_lcov(text).unwrap_err().message
}

#[test]
fn messages_name_line_and_fields() {
    assert_eq!(complaint("SF:a.rs\nDA:abc\n"), "line 2: malformed DA record: \"DA:abc\"");
    assert_eq!(
        complaint("\n\n  DA: x ,5\n"),
        "line 3: invalid line number [\" x \", \"5\"]: invalid digit found in string"
    );
    assert_eq!(
        complaint("DA:,5"),
        "line 1: invalid line number [\"\", \"5\"]: cannot parse integer from empty string"
    );
    assert_eq!(
        complaint("DA:4294967296,5"),
        "line 1: invalid line number [\"4294967296\", \"5\"]: number too large to fit in target type"
    );
    assert_eq!(
        complaint("DA:7,18446744073709551616"),
        "line 1: invalid hit count [\"7\", \"18446744073709551616\"]: number too large to fit in target type"
    );
    assert_eq!(
        complaint("DA:7,1,2"),
        "line 1: invalid hit count [\"7\", \"1,2\"]: invalid digit found in string"
    );
    assert_eq!(
        complaint("DA:7,-1"),
        "line 1: invalid hit count [\"7\", \"-1\"]: invalid digit found in string"
    );
    // Quotes, control characters and what lies outside ASCII, as `Debug` writes them.
    assert_eq!(
        complaint("DA:\"\u{7}\u{e9}"),
        "line 1: malformed DA record: \"DA:\\\"\\u{7}\u{e9}\""
    );
}

/// The descriptions of unreadable numerals are those of the standard library.
#[test]
fn faults_read_like_the_standard_library() {
    for (text, field) in [("DA:,1", ""), ("DA:+,1", "+"), ("DA:-1,1", "-1"), ("DA:99999999999,1", "99999999999")] {
        let expected = field.parse::<u32>().unwrap_err().to_string();
        assert!(complaint(text).ends_with(&format!("]: {expected}")), "{text}");
    }
    let data = parse_lcov("SF:a\nDA:+4294967295, +18446744073709551615 ").unwrap();
    assert_eq!(data.files.get("a").unwrap()[&u32::MAX], u64::MAX);
    let data = parse_lcov("SF:a\nDA:007,0003").unwrap();
    assert_eq!(data.files.get("a").unwrap()[&7], 3);
}

#[test]
fn the_first_unreadable_line_is_the_error() {
    assert!(complaint("DA:x\nDA:y\n").starts_with("line 1: "));
    assert!(complaint("SF:a\nDA:1,1\nDA:y\n").starts_with("line 3: "));
}

#[test]
fn carriage_returns_and_white_space_around_records_are_dropped() {
    let data = parse_lcov("\u{3000}SF:a.rs\t\r\n DA: 1 , 2 \r\nend_of_record\r\n").unwrap();
    assert_eq!(data.files.get("a.rs").unwrap()[&1], 2);
    assert!(data.files.get("a.rs\t").is_none());
}

#[test]
fn a_source_record_closes_the_file_before_it() {
    let data = parse_lcov("SF:a\nDA:1,1\nSF:b\nDA:2,2\n").unwrap();
    assert_eq!(data.files.get("a").unwrap().len(), 1);
    assert_eq!(data.files.get("a").unwrap()[&1], 1);
    assert_eq!(data.files.get("b").unwrap()[&2], 2);
}

#[test]
fn a_file_closed_twice_keeps_the_last_lines() {
    let data = parse_lcov("SF:a\nDA:1,1\nend_of_record\nSF:a\nDA:2,2\nend_of_record\n").unwrap();
    assert_eq!(data.files.len(), 1);
    assert_eq!(data.files.get("a").unwrap().len(), 1);
    assert_eq!(data.files.get("a").unwrap()[&2], 2);
}

#[test]
fn lines_without_a_file_go_to_the_next_one() {
    let data = parse_lcov("DA:9,1\nSF:a\nDA:1,1\nend_of_record\n").unwrap();
    assert_eq!(data.files.get("a").unwrap().len(), 2);
    assert!(parse_lcov("DA:9,1\nend_of_record\n").unwrap().files.is_empty());
}

#[test]
fn a_repeated_line_keeps_the_last_count() {
    let data = parse_lcov("SF:a\nDA:1,1\nDA:1,0\n").unwrap();
    assert_eq!(data.files.get("a").unwrap()[&1], 0);
}

#[test]
fn the_missing_end_of_the_last_record_changes_nothing() {
    let open = parse_lcov("SF:a\nDA:1,1\nSF:b\nDA:2,0").unwrap();
    let closed = parse_lcov("SF:a\nDA:1,1\nend_of_record\nSF:b\nDA:2,0\nend_of_record").unwrap();
    for path in ["a", "b"] {
        assert_eq!(open.files.get(path), closed.files.get(path));
    }
    assert_eq!(open.files.len(), closed.files.len());
}

#[test]
fn lcov_and_json_agree() {
    let lcov = parse_lcov("SF:x/y.rs\nDA:3,0\nDA:4,9\nend_of_record\n").unwrap();
    let json = parse_json(decode(
        r#"{"version":"1","source":"s","files":[{"file_path":"x/y.rs","lines":[{"line_number":3,"hit_count":0},{"line_number":4,"hit_count":9}]}]}"#,
    ))
    .unwrap();
    assert_eq!(lcov.files.get("x/y.rs"), json.files.get("x/y.rs"));
    assert_eq!(lcov.files.len(), json.files.len());
}

#[test]
fn a_repeated_json_file_keeps_the_last_lines() {
    let data = parse_json(decode(
        r#"{"version":"1","source":"s","files":[{"file_path":"a","lines":[{"line_number":3,"hit_count":0}]},{"file_path":"a","lines":[{"line_number":4,"hit_count":1},{"line_number":4,"hit_count":2}]}]}"#,
    ))
    .unwrap();
    assert_eq!(data.files.len(), 1);
    let lines = data.files.get("a").unwrap();
    assert_eq!(lines.len(), 1);
    assert_eq!(lines[&4], 2);
}

#[test]
fn json_complaints_are_passed_on() {
    let error = parse_json(Err("expected value at line 1 column 1".to_string())).unwrap_err();
    assert_eq!(error.message, "invalid JSON: expected value at line 1 column 1");
    assert_eq!(
        error.to_text(),
        "coverage parse error: invalid JSON: expected value at line 1 column 1"
    );
    assert_eq!(CoverageParseError::new("m".to_string()).message, "m");
}

#[test]
fn files_come_in_path_order() {
    let data = parse_lcov("SF:b\nSF:a/z\nSF:a\nSF:B\nSF:a\n").unwrap();
    let paths: Vec<&str> = (0..data.files.len()).map(|i| data.files.entry(i).path.as_str()).collect();
    assert_eq!(paths, vec!["B", "a", "a/z", "b"]);
}

#[test]
fn other_records_are_ignored_wherever_they_stand() {
    let lines = ["SF:a", "DA:1,2", "end_of_record"];
    let plain = parse_lcov(&lines.join("\n")).unwrap();
    for at in 0..=lines.len() {
        for other in ["", "TN:", "BRDA:1,0,0,1", "LF:1", "sf:b", "END_OF_RECORD", "end_of_record x"] {
            let mut longer = lines.to_vec();
            longer.insert(at, other);
            assert_eq!(parse_lcov(&longer.join("\n")).unwrap(), plain);
        }
    }
}

#[test]
fn numbers_are_read_back() {
    for (line, hits) in [(0, 0), (1, 9), (10, 10), (u32::MAX, u64::MAX), (4_000_000_000, 123_456_789)] {
        let data = parse_lcov(&format!("SF:a\nDA:{line},{hits}\nend_of_record\n")).unwrap();
        assert_eq!(data.files.get("a").unwrap()[&line], hits);
    }
}

#[test]
fn line_ends_do_not_matter() {
    for text in ["SF:a\nDA:1,2\nend_of_record\n", "SF:a\nDA:1,2", "SF:a\n\nDA:1\n", "\n\n", ""] {
        let plain = parse_lcov(text);
        let returns = parse_lcov(&text.replace('\n', "\r\n"));
        let padded = parse_lcov(&text.replace('\n', " \t\n\u{a0}"));
        for other in [returns, padded] {
            match (&plain, &other) {
                (Ok(a), Ok(b)) => assert_eq!(a, b),
                (Err(a), Err(b)) => assert_eq!(a.message, b.message),
                _ => panic!("{text:?}"),
            }
        }
    }
}
