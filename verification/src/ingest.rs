//! Coverage sources: LCOV tracefiles and JSON payloads, both read into [`CoverageData`].
use std::collections::HashMap;

use vstd::prelude::*;
use vstd::slice::slice_subrange;
use vstd::string::StringExecFns;

use crate::file_table::FileTable;
use crate::text::{
    chars_eq, from_chars, parse_numeral, push_decimal, starts_with, to_chars, trim, NumeralFault,
};

verus! {

broadcast use vstd::std_specs::hash::group_hash_axioms;

/// Line coverage of files: path to line number to hit count.
#[derive(Debug, PartialEq)]
pub struct CoverageData {
    pub files: FileTable,
}

impl Clone for CoverageData {
    fn clone(&self) -> (data: Self)
        ensures
            data.files@ == self.files@,
    {
        CoverageData { files: self.files.clone() }
    }
}

impl View for CoverageData {
    type V = Map<Seq<char>, Map<u32, u64>>;

    open spec fn view(&self) -> Map<Seq<char>, Map<u32, u64>> {
        self.files.map()
    }
}

/// A JSON coverage payload.
#[derive(Debug)]
pub struct CoverageIngestPayload {
    pub version: String,
    pub source: String,
    pub workspace_key: Option<String>,
    pub files: Vec<CoverageFileEntry>,
}

/// One file of a JSON coverage payload.
#[derive(Debug)]
pub struct CoverageFileEntry {
    pub file_path: String,
    pub lines: Vec<CoverageLineEntry>,
}

/// One line of a file of a JSON coverage payload.
#[derive(Debug, Clone, Copy)]
pub struct CoverageLineEntry {
    pub line_number: u32,
    pub hit_count: u64,
}

/// A coverage source that could not be read.
#[derive(Debug, Clone)]
pub struct CoverageParseError {
    pub message: String,
}

impl CoverageParseError {
    /// An error with the message `msg`.
    pub fn new(msg: String) -> (error: Self)
        ensures
            error.message@ == msg@,
    {
        CoverageParseError { message: msg }
    }

    /// The error as a sentence for people.
    pub fn to_text(&self) -> (out: String)
        ensures
            out@ == "coverage parse error: "@ + self.message@,
    {
        let mut out = String::new();
        out.append("coverage parse error: ");
        out.append(self.message.as_str());
        assert(out@ =~= "coverage parse error: "@ + self.message@);
        out
    }
}

// ---------------------------------------------------------------------------
// LCOV
// ---------------------------------------------------------------------------

/// The number of characters in front of the first line feed, or of all characters.
pub open spec fn line_length(text: Seq<char>) -> nat
    decreases text.len(),
{
    if text.len() == 0 || text.first() == '\n' {
        0
    } else {
        1 + line_length(text.drop_first())
    }
}

/// The lines of a text, each ended by a line feed or by the end of the text.
pub open spec fn text_lines(text: Seq<char>) -> Seq<Seq<char>>
    decreases text.len(),
{
    let n = line_length(text);
    if n >= text.len() {
        seq![text]
    } else {
        seq![text.take(n as int)] + text_lines(text.skip(n as int + 1))
    }
}

/// What one LCOV line says.
pub enum LcovTag {
    /// `SF:`, a source file opens.
    Source(Seq<char>),
    /// `DA:`, a line number with its hit count.
    Data(u32, u64),
    /// `end_of_record`, the open file closes.
    End,
    /// A blank line, or a tag that carries no line coverage.
    Other,
}

/// One LCOV line, read.
#[derive(Debug)]
pub enum LcovRecord {
    Source(String),
    Data(u32, u64),
    End,
    Other,
}

impl View for LcovRecord {
    type V = LcovTag;

    open spec fn view(&self) -> LcovTag {
        match self {
            LcovRecord::Source(path) => LcovTag::Source(path@),
            LcovRecord::Data(line, hits) => LcovTag::Data(*line, *hits),
            LcovRecord::End => LcovTag::End,
            LcovRecord::Other => LcovTag::Other,
        }
    }
}

/// What `format!("{:?}")` writes for a text: the text in double quotes, with escapes.
pub uninterp spec fn debug_text(s: Seq<char>) -> Seq<char>;

/// Formats `s` with the `Debug` impl of `str`; the result is a function of the text alone.
#[verifier::external_body]
fn debug_quoted(s: &str) -> (out: String)
    ensures
        out@ == debug_text(s@),
{
    format!("{:?}", s)
}

/// How an unreadable numeral is described.
pub open spec fn fault_text(fault: NumeralFault) -> Seq<char> {
    match fault {
        NumeralFault::Empty => "cannot parse integer from empty string"@,
        NumeralFault::InvalidDigit => "invalid digit found in string"@,
        NumeralFault::TooLarge => "number too large to fit in target type"@,
    }
}

/// The description of an unreadable numeral.
pub fn describe_fault(fault: NumeralFault) -> (out: &'static str)
    ensures
        out@ == fault_text(fault),
{
    match fault {
        NumeralFault::Empty => "cannot parse integer from empty string",
        NumeralFault::InvalidDigit => "invalid digit found in string",
        NumeralFault::TooLarge => "number too large to fit in target type",
    }
}

/// The message for a `DA:` record without a comma in line `no`, the record quoted.
pub open spec fn malformed_text(no: nat, quoted: Seq<char>) -> Seq<char> {
    "line "@ + crate::text::decimal(no) + ": malformed DA record: "@ + quoted
}

/// The message for an unreadable numeral in line `no`, both fields of the record quoted.
pub open spec fn bad_numeral_text(
    no: nat,
    what: Seq<char>,
    quoted_line: Seq<char>,
    quoted_hits: Seq<char>,
    fault: NumeralFault,
) -> Seq<char> {
    "line "@ + crate::text::decimal(no) + ": invalid "@ + what + " ["@ + quoted_line + ", "@
        + quoted_hits + "]: "@ + fault_text(fault)
}

/// Composes the message for a `DA:` record without a comma.
pub fn malformed_message(no: u64, quoted: &str) -> (out: String)
    ensures
        out@ == malformed_text(no as nat, quoted@),
{
    let mut out = String::new();
    out.append("line ");
    push_decimal(&mut out, no);
    out.append(": malformed DA record: ");
    out.append(quoted);
    assert(out@ =~= malformed_text(no as nat, quoted@));
    out
}

/// Composes the message for an unreadable numeral.
pub fn bad_numeral_message(
    no: u64,
    what: &str,
    quoted_line: &str,
    quoted_hits: &str,
    fault: NumeralFault,
) -> (out: String)
    ensures
        out@ == bad_numeral_text(no as nat, what@, quoted_line@, quoted_hits@, fault),
{
    let mut out = String::new();
    out.append("line ");
    push_decimal(&mut out, no);
    out.append(": invalid ");
    out.append(what);
    out.append(" [");
    out.append(quoted_line);
    out.append(", ");
    out.append(quoted_hits);
    out.append("]: ");
    out.append(describe_fault(fault));
    assert(out@ =~= bad_numeral_text(no as nat, what@, quoted_line@, quoted_hits@, fault));
    out
}

/// The position of the first comma, or the length if there is none.
pub open spec fn comma_position(s: Seq<char>) -> nat
    decreases s.len(),
{
    if s.len() == 0 || s.first() == ',' {
        0
    } else {
        1 + comma_position(s.drop_first())
    }
}

/// What the fields of a `DA:` record in line `no` say: `record` is the whole trimmed line.
pub open spec fn data_record(no: nat, record: Seq<char>) -> Result<LcovTag, Seq<char>> {
    let fields = record.skip(3);
    let comma = comma_position(fields);
    let first = fields.take(comma as int);
    let second = fields.skip(comma as int + 1);
    if comma >= fields.len() {
        Err(malformed_text(no, debug_text(record)))
    } else {
        match crate::text::numeral(crate::text::trimmed(first), u32::MAX as nat) {
            Err(fault) => Err(
                bad_numeral_text(no, "line number"@, debug_text(first), debug_text(second), fault),
            ),
            Ok(line) => match crate::text::numeral(
                crate::text::trimmed(second),
                u64::MAX as nat,
            ) {
                Err(fault) => Err(
                    bad_numeral_text(
                        no,
                        "hit count"@,
                        debug_text(first),
                        debug_text(second),
                        fault,
                    ),
                ),
                Ok(hits) => Ok(LcovTag::Data(line as u32, hits as u64)),
            },
        }
    }
}

/// What line `no` says, white space at its ends apart; the error is the message.
pub open spec fn line_record(no: nat, line: Seq<char>) -> Result<LcovTag, Seq<char>> {
    let record = crate::text::trimmed(line);
    if "SF:"@.is_prefix_of(record) {
        Ok(LcovTag::Source(record.skip(3)))
    } else if "DA:"@.is_prefix_of(record) {
        data_record(no, record)
    } else if record == "end_of_record"@ {
        Ok(LcovTag::End)
    } else {
        Ok(LcovTag::Other)
    }
}

/// What has been read so far: the closed files, the open file, and the line hits that the
/// next file to close will get.
pub struct LcovState {
    pub files: Map<Seq<char>, Map<u32, u64>>,
    pub open: Option<Seq<char>>,
    pub lines: Map<u32, u64>,
}

/// Nothing read yet.
pub open spec fn lcov_start() -> LcovState {
    LcovState { files: Map::empty(), open: None, lines: Map::empty() }
}

/// The open file, if there is one, closes and takes the collected lines with it.
pub open spec fn lcov_close(state: LcovState) -> LcovState {
    match state.open {
        Some(path) => LcovState {
            files: state.files.insert(path, state.lines),
            open: None,
            lines: Map::empty(),
        },
        None => state,
    }
}

/// One record further.
pub open spec fn lcov_step(state: LcovState, tag: LcovTag) -> LcovState {
    match tag {
        LcovTag::Source(path) => LcovState { open: Some(path), ..lcov_close(state) },
        LcovTag::Data(line, hits) => LcovState { lines: state.lines.insert(line, hits), ..state },
        LcovTag::End => lcov_close(state),
        LcovTag::Other => state,
    }
}

/// The lines read one after the other, the first unreadable one being the error.
pub open spec fn lcov_read(lines: Seq<Seq<char>>) -> Result<LcovState, Seq<char>>
    decreases lines.len(),
{
    if lines.len() == 0 {
        Ok(lcov_start())
    } else {
        match lcov_read(lines.drop_last()) {
            Err(message) => Err(message),
            Ok(state) => match line_record(lines.len(), lines.last()) {
                Err(message) => Err(message),
                Ok(tag) => Ok(lcov_step(state, tag)),
            },
        }
    }
}

/// The coverage that LCOV lines carry, the last file closed at the end if it is still open.
pub open spec fn lcov_files(lines: Seq<Seq<char>>) -> Result<
    Map<Seq<char>, Map<u32, u64>>,
    Seq<char>,
> {
    match lcov_read(lines) {
        Err(message) => Err(message),
        Ok(state) => Ok(lcov_close(state).files),
    }
}

/// An unreadable line makes every longer reading fail with its message.
pub proof fn lcov_error_stays(lines: Seq<Seq<char>>, n: int)
    requires
        0 <= n <= lines.len(),
        lcov_read(lines.take(n)) is Err,
    ensures
        lcov_read(lines) == lcov_read(lines.take(n)),
    decreases lines.len(),
{
    if n == lines.len() {
        assert(lines.take(n) =~= lines);
    } else {
        assert(lines.drop_last().take(n) =~= lines.take(n));
        lcov_error_stays(lines.drop_last(), n);
    }
}

/// Finds the first comma.
fn find_comma(cs: &[char]) -> (pos: usize)
    ensures
        pos == comma_position(cs@),
        pos <= cs@.len(),
{
    let mut i: usize = 0;
    assert(cs@.skip(0) =~= cs@);
    while i < cs.len() && cs[i] != ','
        invariant
            i <= cs@.len(),
            comma_position(cs@) == i + comma_position(cs@.skip(i as int)),
        decreases cs@.len() - i,
    {
        assert(cs@.skip(i as int).drop_first() =~= cs@.skip(i + 1));
        i += 1;
    }
    i
}

/// Reads a `DA:` record.
fn read_data_record(no: u64, record: &[char]) -> (out: Result<LcovRecord, CoverageParseError>)
    requires
        record@.len() >= 3,
    ensures
        match (out, data_record(no as nat, record@)) {
            (Ok(r), Ok(tag)) => r@ == tag,
            (Err(e), Err(message)) => e.message@ == message,
            _ => false,
        },
{
    let fields = slice_subrange(record, 3, record.len());
    assert(fields@ == record@.skip(3));
    let comma = find_comma(fields);
    if comma >= fields.len() {
        let quoted = debug_quoted(from_chars(record).as_str());
        return Err(CoverageParseError::new(malformed_message(no, quoted.as_str())));
    }
    let first = slice_subrange(fields, 0, comma);
    let second = slice_subrange(fields, comma + 1, fields.len());
    assert(first@ == fields@.take(comma as int));
    assert(second@ == fields@.skip(comma + 1));
    let line: u64 = match parse_numeral(trim(first), u32::MAX as u64) {
        Ok(line) => line,
        Err(fault) => {
            let a = debug_quoted(from_chars(first).as_str());
            let b = debug_quoted(from_chars(second).as_str());
            return Err(
                CoverageParseError::new(
                    bad_numeral_message(no, "line number", a.as_str(), b.as_str(), fault),
                ),
            );
        },
    };
    match parse_numeral(trim(second), u64::MAX) {
        Ok(hits) => {
            proof {
                crate::text::numeral_bound(crate::text::trimmed(first@), u32::MAX as nat);
            }
            Ok(LcovRecord::Data(line as u32, hits))
        },
        Err(fault) => {
            let a = debug_quoted(from_chars(first).as_str());
            let b = debug_quoted(from_chars(second).as_str());
            Err(
                CoverageParseError::new(
                    bad_numeral_message(no, "hit count", a.as_str(), b.as_str(), fault),
                ),
            )
        },
    }
}

/// Reads line `no` of an LCOV tracefile.
pub fn read_line_record(no: u64, line: &[char]) -> (out: Result<LcovRecord, CoverageParseError>)
    ensures
        match (out, line_record(no as nat, line@)) {
            (Ok(r), Ok(tag)) => r@ == tag,
            (Err(e), Err(message)) => e.message@ == message,
            _ => false,
        },
{
    let record = trim(line);
    proof {
        reveal_strlit("SF:");
        reveal_strlit("DA:");
    }
    if starts_with(record, "SF:") {
        let path = slice_subrange(record, 3, record.len());
        assert(path@ == record@.skip(3));
        Ok(LcovRecord::Source(from_chars(path)))
    } else if starts_with(record, "DA:") {
        read_data_record(no, record)
    } else if chars_eq(record, to_chars("end_of_record").as_slice()) {
        Ok(LcovRecord::End)
    } else {
        Ok(LcovRecord::Other)
    }
}

/// Reads an LCOV tracefile.
///
/// `SF:` opens a file, closing the one that is still open; `DA:line,hits` gives a line's hit
/// count; `end_of_record` closes the open file; other lines are ignored. A file that is
/// closed twice keeps the lines of the last time. The first `DA:` record that cannot be read
/// is the error.
pub fn parse_lcov(text: &str) -> (out: Result<CoverageData, CoverageParseError>)
    ensures
        match (out, lcov_files(text_lines(text@))) {
            (Ok(data), Ok(files)) => data@ == files && data.files.map() == files
                && crate::file_table::in_path_order(data.files@),
            (Err(e), Err(message)) => e.message@ == message,
            _ => false,
        },
{
    let chars = to_chars(text);
    let all = chars.as_slice();
    let n = all.len();
    let mut files = FileTable::new();
    let mut open: Option<String> = None;
    let mut lines: HashMap<u32, u64> = HashMap::new();
    let mut start: usize = 0;
    let mut count: usize = 0;
    let ghost wanted = text_lines(text@);
    assert(text@.skip(0) =~= text@);
    assert(wanted.take(0) =~= Seq::<Seq<char>>::empty());
    loop
        invariant_except_break
            wanted == wanted.take(count as int) + text_lines(text@.skip(start as int)),
            lcov_read(wanted.take(count as int)) == Ok::<LcovState, Seq<char>>(
                LcovState {
                    files: files.map(),
                    open: match open {
                        Some(path) => Some(path@),
                        None => None,
                    },
                    lines: lines@,
                },
            ),
        invariant
            all@ == text@,
            n == all@.len(),
            start <= n,
            count <= start,
            wanted == text_lines(text@),
            count <= wanted.len(),
            crate::file_table::in_path_order(files@),
        ensures
            lcov_read(wanted) == Ok::<LcovState, Seq<char>>(
                LcovState {
                    files: files.map(),
                    open: match open {
                        Some(path) => Some(path@),
                        None => None,
                    },
                    lines: lines@,
                },
            ),
        decreases n - start,
    {
        let ghost rest = text@.skip(start as int);
        let mut end: usize = start;
        assert(text@.skip(end as int) =~= rest);
        while end < n && all[end] != '\n'
            invariant
                all@ == text@,
                n == all@.len(),
                start <= end <= n,
                rest == text@.skip(start as int),
                line_length(rest) == end - start + line_length(text@.skip(end as int)),
            decreases n - end,
        {
            assert(text@.skip(end as int).drop_first() =~= text@.skip(end + 1));
            end += 1;
        }
        let line = slice_subrange(all, start, end);
        let ghost this = rest.take(line_length(rest) as int);
        assert(line_length(rest) == end - start);
        assert(line@ =~= this);
        assert(wanted[count as int] == line@) by {
            assert(wanted[count as int] == text_lines(rest)[0]);
            if end == n {
                assert(this =~= rest);
            }
        }
        assert(count < wanted.len());
        assert(wanted.take(count + 1).drop_last() =~= wanted.take(count as int));
        assert(wanted.take(count + 1).last() == line@);
        // A blank line is no record; any other line leaves room for its number.
        if start < end {
            let record = read_line_record(count as u64 + 1, line);
            match record {
                Err(e) => {
                    proof {
                        lcov_error_stays(wanted, count + 1);
                    }
                    return Err(e);
                },
                Ok(LcovRecord::Source(path)) => {
                    if let Some(previous) = open {
                        files.insert(previous, lines);
                        lines = HashMap::new();
                    }
                    open = Some(path);
                },
                Ok(LcovRecord::Data(line_number, hits)) => {
                    lines.insert(line_number, hits);
                },
                Ok(LcovRecord::End) => {
                    if let Some(previous) = open {
                        files.insert(previous, lines);
                        lines = HashMap::new();
                    }
                    open = None;
                },
                Ok(LcovRecord::Other) => {},
            }
        } else {
            proof {
                reveal_strlit("SF:");
                reveal_strlit("DA:");
                reveal_strlit("end_of_record");
                assert(line@ =~= Seq::<char>::empty());
                assert(crate::text::trimmed(line@) =~= Seq::<char>::empty());
            }
        }
        if end == n {
            assert(wanted.take(count + 1) =~= wanted) by {
                assert(text_lines(rest).len() == 1);
            }
            break;
        }
        proof {
            assert(rest.skip(end - start + 1) =~= text@.skip(end + 1));
            assert(text_lines(rest) == seq![this] + text_lines(text@.skip(end + 1)));
            assert(wanted =~= wanted.take(count + 1) + text_lines(text@.skip(end + 1)));
        }
        count += 1;
        start = end + 1;
    }
    if let Some(path) = open {
        files.insert(path, lines);
    }
    Ok(CoverageData { files })
}

// ---------------------------------------------------------------------------
// JSON
// ---------------------------------------------------------------------------

/// The line hits that a payload's line entries give, a later entry overriding an earlier one.
pub open spec fn entry_lines(lines: Seq<CoverageLineEntry>) -> Map<u32, u64>
    decreases lines.len(),
{
    if lines.len() == 0 {
        Map::empty()
    } else {
        entry_lines(lines.drop_last()).insert(lines.last().line_number, lines.last().hit_count)
    }
}

/// The coverage that a payload's file entries give, a later entry overriding an earlier one.
pub open spec fn entry_files(files: Seq<CoverageFileEntry>) -> Map<Seq<char>, Map<u32, u64>>
    decreases files.len(),
{
    if files.len() == 0 {
        Map::empty()
    } else {
        entry_files(files.drop_last()).insert(
            files.last().file_path@,
            entry_lines(files.last().lines@),
        )
    }
}

/// The line hits of a payload's file.
fn collect_lines(entries: &Vec<CoverageLineEntry>) -> (lines: HashMap<u32, u64>)
    ensures
        lines@ == entry_lines(entries@),
{
    let mut lines: HashMap<u32, u64> = HashMap::new();
    for i in 0..entries.len()
        invariant
            lines@ == entry_lines(entries@.take(i as int)),
    {
        let entry = entries[i];
        lines.insert(entry.line_number, entry.hit_count);
        assert(entries@.take(i + 1).drop_last() =~= entries@.take(i as int));
    }
    assert(entries@.take(entries@.len() as int) =~= entries@);
    lines
}

/// Takes over a JSON payload: `decoded` is the payload that the JSON text holds, or what the
/// decoder has against the text.
pub fn parse_json(decoded: Result<CoverageIngestPayload, String>) -> (out: Result<
    CoverageData,
    CoverageParseError,
>)
    ensures
        match (out, decoded) {
            (Ok(data), Ok(payload)) => data@ == entry_files(payload.files@) && data.files.map()
                == entry_files(payload.files@) && crate::file_table::in_path_order(data.files@),
            (Err(e), Err(complaint)) => e.message@ == "invalid JSON: "@ + complaint@,
            _ => false,
        },
{
    match decoded {
        Err(complaint) => {
            let mut message = String::new();
            message.append("invalid JSON: ");
            message.append(complaint.as_str());
            assert(message@ =~= "invalid JSON: "@ + complaint@);
            Err(CoverageParseError::new(message))
        },
        Ok(payload) => {
            let mut files = FileTable::new();
            for i in 0..payload.files.len()
                invariant
                    files.map() == entry_files(payload.files@.take(i as int)),
                    crate::file_table::in_path_order(files@),
            {
                let lines = collect_lines(&payload.files[i].lines);
                files.insert(payload.files[i].file_path.clone(), lines);
                assert(payload.files@.take(i + 1).drop_last() =~= payload.files@.take(i as int));
            }
            assert(payload.files@.take(payload.files@.len() as int) =~= payload.files@);
            Ok(CoverageData { files })
        },
    }
}

} // verus!
