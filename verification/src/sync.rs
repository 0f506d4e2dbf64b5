//! The packet that the plugin hands back: metadata lines with a JSON summary.
use vstd::prelude::*;
use vstd::string::StringExecFns;

use crate::graph::GraphOutput;
use crate::text::{chars_eq, push_decimal, to_chars, white_space};

verus! {

/// The version of the packet format.
pub const FORMAT_VERSION: &'static str = "1.0.0";

/// Takes over a decoded graph; one without nodes and edges counts as none.
#[must_use]
pub fn parse_graph(decoded: Option<GraphOutput>) -> (out: Option<GraphOutput>)
    ensures
        match decoded {
            Some(graph) => if graph@.nodes.len() == 0 && graph@.edges == 0 {
                out is None
            } else {
                out == Some(graph)
            },
            None => out is None,
        },
{
    match decoded {
        Some(graph) => {
            if graph.nodes.len() == 0 && graph.edges == 0 {
                None
            } else {
                Some(graph)
            }
        },
        None => None,
    }
}

// ---------------------------------------------------------------------------
// Quoting
// ---------------------------------------------------------------------------

/// A character that a bare value may not hold.
pub open spec fn is_special(c: char) -> bool {
    crate::text::is_white_space(c) || c == ':' || c == '[' || c == ']' || c == '{' || c == '}' || c
        == '-' || c == '\\' || c == '"'
}

/// A value that has to be quoted: it is empty, reads as a keyword, holds a special character or
/// starts with a digit.
pub open spec fn needs_quoting(s: Seq<char>) -> bool {
    ||| s.len() == 0
    ||| s == "null"@
    ||| s == "true"@
    ||| s == "false"@
    ||| exists|i: int| 0 <= i < s.len() && is_special(#[trigger] s[i])
    ||| crate::text::is_digit(s.first())
}

/// A character inside quotes.
pub open spec fn quoted_char(c: char) -> Seq<char> {
    if c == '"' {
        seq!['\\', '"']
    } else if c == '\\' {
        seq!['\\', '\\']
    } else if c == '\n' {
        seq!['\\', 'n']
    } else if c == '\r' {
        seq!['\\', 'r']
    } else if c == '\t' {
        seq!['\\', 't']
    } else {
        seq![c]
    }
}

/// The characters of `s` inside quotes.
pub open spec fn quoted_chars(s: Seq<char>) -> Seq<char>
    decreases s.len(),
{
    if s.len() == 0 {
        Seq::empty()
    } else {
        quoted_char(s.first()) + quoted_chars(s.drop_first())
    }
}

/// How the value `s` stands in a packet.
pub open spec fn packet_value(s: Seq<char>) -> Seq<char> {
    if needs_quoting(s) {
        seq!['"'] + quoted_chars(s) + seq!['"']
    } else {
        s
    }
}

/// Whether the value has to be quoted.
fn must_quote(cs: &[char]) -> (yes: bool)
    ensures
        yes == needs_quoting(cs@),
{
    if cs.len() == 0 || chars_eq(cs, to_chars("null").as_slice()) || chars_eq(
        cs,
        to_chars("true").as_slice(),
    ) || chars_eq(cs, to_chars("false").as_slice()) {
        return true;
    }
    for i in 0..cs.len()
        invariant
            forall|j: int| 0 <= j < i ==> !is_special(#[trigger] cs@[j]),
    {
        let c = cs[i];
        if white_space(c) || c == ':' || c == '[' || c == ']' || c == '{' || c == '}' || c == '-'
            || c == '\\' || c == '"' {
            assert(is_special(cs@[i as int]));
            return true;
        }
    }
    '0' <= cs[0] && cs[0] <= '9'
}

/// Writes the value `s` as it stands in a packet: bare where it can be, else in double quotes
/// with backslash escapes.
pub fn escape_string(s: &str) -> (out: String)
    ensures
        out@ == packet_value(s@),
{
    let cs = to_chars(s);
    if !must_quote(cs.as_slice()) {
        return s.to_owned();
    }
    let mut out = String::new();
    out.push('"');
    assert(cs@.skip(0) =~= cs@);
    assert(out@ =~= seq!['"']);
    for i in 0..cs.len()
        invariant
            cs@ == s@,
            seq!['"'] + quoted_chars(s@) == out@ + quoted_chars(cs@.skip(i as int)),
    {
        let c = cs[i];
        let ghost rest = cs@.skip(i as int);
        let ghost before = out@;
        assert(rest.drop_first() =~= cs@.skip(i + 1));
        assert(rest.first() == c);
        if c == '"' {
            out.push('\\');
            out.push('"');
        } else if c == '\\' {
            out.push('\\');
            out.push('\\');
        } else if c == '\n' {
            out.push('\\');
            out.push('n');
        } else if c == '\r' {
            out.push('\\');
            out.push('r');
        } else if c == '\t' {
            out.push('\\');
            out.push('t');
        } else {
            out.push(c);
        }
        assert(out@ =~= before + quoted_char(c));
        assert(before + (quoted_char(c) + quoted_chars(cs@.skip(i + 1))) =~= out@ + quoted_chars(
            cs@.skip(i + 1),
        ));
    }
    assert(cs@.skip(cs@.len() as int) =~= Seq::<char>::empty());
    assert(out@ + Seq::<char>::empty() =~= out@);
    out.push('"');
    assert(out@ =~= packet_value(s@));
    out
}

// ---------------------------------------------------------------------------
// The summary
// ---------------------------------------------------------------------------

/// The coverage summary of a workspace.
#[derive(Debug)]
pub struct CoveragePluginData {
    pub workspace_key: String,
    pub total_nodes: usize,
    pub blindspots: usize,
    /// The average coverage in tenths of a percent.
    pub avg_tenths: u32,
}

/// The hexadecimal digit of a number below 16.
pub open spec fn hex_digit(n: int) -> char {
    if n < 10 {
        ('0' as u32 + n) as char
    } else {
        ('a' as u32 + n - 10) as char
    }
}

/// A character inside a JSON string.
pub open spec fn json_char(c: char) -> Seq<char> {
    let n = c as u32;
    if c == '"' {
        seq!['\\', '"']
    } else if c == '\\' {
        seq!['\\', '\\']
    } else if n == 0x08 {
        seq!['\\', 'b']
    } else if n == 0x09 {
        seq!['\\', 't']
    } else if n == 0x0a {
        seq!['\\', 'n']
    } else if n == 0x0c {
        seq!['\\', 'f']
    } else if n == 0x0d {
        seq!['\\', 'r']
    } else if n < 0x20 {
        seq!['\\', 'u', '0', '0', hex_digit(n as int / 16), hex_digit(n as int % 16)]
    } else {
        seq![c]
    }
}

/// The characters of `s` inside a JSON string.
pub open spec fn json_chars(s: Seq<char>) -> Seq<char>
    decreases s.len(),
{
    if s.len() == 0 {
        Seq::empty()
    } else {
        json_char(s.first()) + json_chars(s.drop_first())
    }
}

/// `s` as a JSON string.
pub open spec fn json_string(s: Seq<char>) -> Seq<char> {
    seq!['"'] + json_chars(s) + seq!['"']
}

/// `tenths` as a decimal fraction with one digit behind the point.
pub open spec fn tenths_text(tenths: nat) -> Seq<char> {
    crate::text::decimal(tenths / 10) + "."@ + crate::text::decimal(tenths % 10)
}

/// A JSON object with one member, an object with four: a fraction, two counts, a text.
pub open spec fn json_record(
    root: Seq<char>,
    fraction_key: Seq<char>,
    fraction: Seq<char>,
    first_key: Seq<char>,
    first: nat,
    second_key: Seq<char>,
    second: nat,
    text_key: Seq<char>,
    text: Seq<char>,
) -> Seq<char> {
    "{"@ + json_string(root) + ":{"@ + json_string(fraction_key) + ":"@ + fraction + ","@
        + json_string(first_key) + ":"@ + crate::text::decimal(first) + ","@ + json_string(
        second_key,
    ) + ":"@ + crate::text::decimal(second) + ","@ + json_string(text_key) + ":"@ + json_string(
        text,
    ) + "}}"@
}

/// Builds the record as a `serde_json::Value` and renders it with the value's `to_string`.
///
/// Claimed: the compact form, members in the order of their keys, integers in decimal, strings
/// with the escapes of [`json_char`], and a fraction with one digit behind the point and at most
/// nine in front printed as it was given.
#[verifier::external_body]
fn render_record(
    root: &str,
    fraction_key: &str,
    fraction: &str,
    first_key: &str,
    first: u64,
    second_key: &str,
    second: u64,
    text_key: &str,
    text: &str,
) -> (out: String)
    requires
        exists|tenths: u32| fraction@ == #[trigger] tenths_text(tenths as nat),
        crate::file_table::path_before(fraction_key@, first_key@),
        crate::file_table::path_before(first_key@, second_key@),
        crate::file_table::path_before(second_key@, text_key@),
    ensures
        out@ == json_record(
            root@,
            fraction_key@,
            fraction@,
            first_key@,
            first as nat,
            second_key@,
            second as nat,
            text_key@,
            text@,
        ),
{
    let mut members = serde_json::Map::new();
    let number: serde_json::Number = fraction.parse().unwrap();
    members.insert(fraction_key.to_string(), serde_json::Value::Number(number));
    members.insert(first_key.to_string(), serde_json::Value::from(first));
    members.insert(second_key.to_string(), serde_json::Value::from(second));
    members.insert(text_key.to_string(), serde_json::Value::from(text));
    let mut record = serde_json::Map::new();
    record.insert(root.to_string(), serde_json::Value::Object(members));
    serde_json::Value::Object(record).to_string()
}

/// The JSON text of a summary.
pub open spec fn summary_json(
    workspace_key: Seq<char>,
    total_nodes: nat,
    blindspots: nat,
    avg_tenths: nat,
) -> Seq<char> {
    json_record(
        "coverage"@,
        "avg_coverage"@,
        tenths_text(avg_tenths),
        "blindspots"@,
        blindspots,
        "total_nodes"@,
        total_nodes,
        "workspace_key"@,
        workspace_key,
    )
}

/// Composes the coverage summary of a workspace.
#[must_use]
pub fn build_coverage_plugin_data(
    workspace_key: &str,
    total_nodes: usize,
    blindspots: usize,
    avg_tenths: u32,
) -> (data: CoveragePluginData)
    ensures
        data.workspace_key@ == workspace_key@,
        data.total_nodes == total_nodes,
        data.blindspots == blindspots,
        data.avg_tenths == avg_tenths,
{
    CoveragePluginData {
        workspace_key: workspace_key.to_owned(),
        total_nodes,
        blindspots,
        avg_tenths,
    }
}

impl CoveragePluginData {
    /// The JSON text of this summary.
    pub open spec fn json(self) -> Seq<char> {
        summary_json(
            self.workspace_key@,
            self.total_nodes as nat,
            self.blindspots as nat,
            self.avg_tenths as nat,
        )
    }

    /// The summary as JSON text.
    pub fn to_json(&self) -> (out: String)
        ensures
            out@ == self.json(),
            out@ == summary_json(
                self.workspace_key@,
                self.total_nodes as nat,
                self.blindspots as nat,
                self.avg_tenths as nat,
            ),
    {
        let mut fraction = String::new();
        push_decimal(&mut fraction, (self.avg_tenths / 10) as u64);
        fraction.append(".");
        push_decimal(&mut fraction, (self.avg_tenths % 10) as u64);
        assert(fraction@ =~= tenths_text(self.avg_tenths as nat));
        proof {
            reveal_strlit("avg_coverage");
            reveal_strlit("blindspots");
            reveal_strlit("total_nodes");
            reveal_strlit("workspace_key");
        }
        render_record(
            "coverage",
            "avg_coverage",
            fraction.as_str(),
            "blindspots",
            self.blindspots as u64,
            "total_nodes",
            self.total_nodes as u64,
            "workspace_key",
            self.workspace_key.as_str(),
        )
    }
}

// ---------------------------------------------------------------------------
// The packet
// ---------------------------------------------------------------------------

/// The packet with the JSON text `plugin_data` for the workspace `workspace_key`.
pub open spec fn packet(workspace_key: Seq<char>, plugin_data: Seq<char>) -> Seq<char> {
    "metadata:\n  format_version: "@ + packet_value(FORMAT_VERSION@) + "\n  workspace_key: "@
        + packet_value(workspace_key) + "\n  plugin_data: "@ + packet_value(plugin_data) + "\n"@
}

/// Composes the packet with the JSON text `plugin_data` for a workspace.
#[must_use]
pub fn compose_packet(workspace_key: &str, plugin_data: &str) -> (out: String)
    ensures
        out@ == packet(workspace_key@, plugin_data@),
{
    let mut out = String::new();
    out.append("metadata:\n  format_version: ");
    out.append(escape_string(FORMAT_VERSION).as_str());
    out.append("\n  workspace_key: ");
    out.append(escape_string(workspace_key).as_str());
    out.append("\n  plugin_data: ");
    out.append(escape_string(plugin_data).as_str());
    out.append("\n");
    assert(out@ =~= packet(workspace_key@, plugin_data@));
    out
}

/// Composes the packet with a summary for a workspace.
#[must_use]
pub fn emit_packet(workspace_key: &str, plugin_data: &CoveragePluginData) -> (out: String)
    ensures
        out@ == packet(workspace_key@, plugin_data.json()),
        out@ == packet(
            workspace_key@,
            summary_json(
                plugin_data.workspace_key@,
                plugin_data.total_nodes as nat,
                plugin_data.blindspots as nat,
                plugin_data.avg_tenths as nat,
            ),
        ),
{
    compose_packet(workspace_key, plugin_data.to_json().as_str())
}

} // verus!
