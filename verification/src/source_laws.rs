//! What holds of all coverage sources.
use vstd::prelude::*;

use crate::ingest::{CoverageFileEntry, CoverageLineEntry, LcovState, LcovTag};
use crate::text::NumeralFault;

verus! {

// ---------------------------------------------------------------------------
// Numerals
// ---------------------------------------------------------------------------

/// A digit more multiplies what was read by ten and adds its value.
proof fn one_digit_more(s: Seq<char>, d: char, seen: nat, max: nat)
    requires
        crate::text::is_digit(d),
    ensures
        crate::text::read_digits(s.push(d), seen, max) == match crate::text::read_digits(
            s,
            seen,
            max,
        ) {
            Err(fault) => Err(fault),
            Ok(v) => if v * 10 + crate::text::digit_value(d) > max {
                Err(NumeralFault::TooLarge)
            } else {
                Ok((v * 10 + crate::text::digit_value(d)) as nat)
            },
        },
    decreases s.len(),
{
    let longer = s.push(d);
    if s.len() == 0 {
        assert(longer.first() == d);
        assert(longer.drop_first() =~= Seq::<char>::empty());
        if seen * 10 + crate::text::digit_value(d) <= max {
            assert(crate::text::read_digits(longer.drop_first(), seen * 10
                + crate::text::digit_value(d), max) == Ok::<nat, NumeralFault>(
                seen * 10 + crate::text::digit_value(d),
            ));
        }
    } else {
        assert(longer.first() == s.first());
        assert(longer.drop_first() =~= s.drop_first().push(d));
        if crate::text::is_digit(s.first()) && seen * 10 + crate::text::digit_value(s.first())
            <= max {
            one_digit_more(
                s.drop_first(),
                d,
                seen * 10 + crate::text::digit_value(s.first()),
                max,
            );
        }
    }
}

/// A number in decimal is made of digits.
pub proof fn decimals_are_digits(n: nat)
    ensures
        crate::text::decimal(n).len() > 0,
        forall|i: int|
            0 <= i < crate::text::decimal(n).len() ==> crate::text::is_digit(
                #[trigger] crate::text::decimal(n)[i],
            ),
    decreases n,
{
    if n >= 10 {
        decimals_are_digits(n / 10);
    }
}

/// A number written in decimal is read as that number, if it is not too large.
pub proof fn decimals_are_read_back(n: nat, max: nat)
    requires
        n <= max,
    ensures
        crate::text::numeral(crate::text::decimal(n), max) == Ok::<nat, NumeralFault>(n),
{
    decimals_are_digits(n);
    assert(crate::text::is_digit(crate::text::decimal(n)[0]));
    digits_are_read_back(n, max);
}

/// The digits of a number are read as that number.
proof fn digits_are_read_back(n: nat, max: nat)
    requires
        n <= max,
    ensures
        crate::text::read_digits(crate::text::decimal(n), 0, max) == Ok::<nat, NumeralFault>(n),
    decreases n,
{
    let d = crate::text::digit_char(n % 10);
    assert(crate::text::is_digit(d) && crate::text::digit_value(d) == n % 10);
    if n < 10 {
        one_digit_more(Seq::empty(), d, 0, max);
        assert(Seq::<char>::empty().push(d) =~= crate::text::decimal(n));
    } else {
        digits_are_read_back(n / 10, max);
        one_digit_more(crate::text::decimal(n / 10), d, 0, max);
    }
}

// ---------------------------------------------------------------------------
// Records
// ---------------------------------------------------------------------------

/// Text that neither starts nor ends with white space stays as it is.
proof fn nothing_to_trim(s: Seq<char>)
    requires
        s.len() > 0,
        !crate::text::is_white_space(s.first()),
        !crate::text::is_white_space(s.last()),
    ensures
        crate::text::trimmed(s) == s,
{
}

/// The first comma is the one behind a text without commas.
proof fn comma_behind(a: Seq<char>, b: Seq<char>)
    requires
        !a.contains(','),
    ensures
        crate::ingest::comma_position(a + seq![','] + b) == a.len(),
    decreases a.len(),
{
    let s = a + seq![','] + b;
    if a.len() > 0 {
        assert(s.first() == a[0]);
        assert(a.contains(a[0]));
        assert(s.drop_first() =~= a.drop_first() + seq![','] + b);
        assert(!a.drop_first().contains(',')) by {
            if a.drop_first().contains(',') {
                let i = choose|i: int| 0 <= i < a.len() - 1 && a.drop_first()[i] == ',';
                assert(a[i + 1] == ',');
            }
        }
        comma_behind(a.drop_first(), b);
    }
}

/// The record that gives a line's hit count.
pub open spec fn data_line(line: u32, hits: u64) -> Seq<char> {
    "DA:"@ + crate::text::decimal(line as nat) + ","@ + crate::text::decimal(hits as nat)
}

/// The record that opens a file.
pub open spec fn source_line(path: Seq<char>) -> Seq<char> {
    "SF:"@ + path
}

/// `DA:` with a line number and a hit count is read as just that.
pub proof fn data_lines_are_read_back(no: nat, line: u32, hits: u64)
    ensures
        crate::ingest::line_record(no, data_line(line, hits)) == Ok::<LcovTag, Seq<char>>(
            LcovTag::Data(line, hits),
        ),
{
    reveal_strlit("DA:");
    reveal_strlit("SF:");
    reveal_strlit(",");
    let a = crate::text::decimal(line as nat);
    let b = crate::text::decimal(hits as nat);
    let record = data_line(line, hits);
    decimals_are_digits(line as nat);
    decimals_are_digits(hits as nat);
    assert(record.first() == 'D');
    assert(record.last() == b[b.len() - 1]);
    assert(crate::text::is_digit(b[b.len() - 1]));
    nothing_to_trim(record);
    assert("SF:"@[0] != record[0]);
    assert("DA:"@.is_prefix_of(record));
    let fields = record.skip(3);
    assert(fields =~= a + seq![','] + b);
    assert(!a.contains(',')) by {
        if a.contains(',') {
            let i = choose|i: int| 0 <= i < a.len() && a[i] == ',';
            assert(crate::text::is_digit(a[i]));
        }
    }
    comma_behind(a, b);
    assert(fields.take(a.len() as int) =~= a);
    assert(fields.skip(a.len() as int + 1) =~= b);
    assert(crate::text::is_digit(a[0]) && crate::text::is_digit(a[a.len() - 1]));
    assert(crate::text::is_digit(b[0]));
    nothing_to_trim(a);
    nothing_to_trim(b);
    decimals_are_read_back(line as nat, u32::MAX as nat);
    decimals_are_read_back(hits as nat, u64::MAX as nat);
}

/// `SF:` with a path is read as that path, unless white space ends it.
pub proof fn source_lines_are_read_back(no: nat, path: Seq<char>)
    requires
        path.len() > 0 ==> !crate::text::is_white_space(path.last()),
    ensures
        crate::ingest::line_record(no, source_line(path)) == Ok::<LcovTag, Seq<char>>(
            LcovTag::Source(path),
        ),
{
    reveal_strlit("SF:");
    let record = source_line(path);
    assert(record.first() == 'S');
    assert(record.last() == if path.len() > 0 {
        path.last()
    } else {
        ':'
    });
    nothing_to_trim(record);
    assert("SF:"@.is_prefix_of(record));
    assert(record.skip(3) =~= path);
}

/// `end_of_record` is read as the end of a record.
pub proof fn end_lines_are_read_back(no: nat)
    ensures
        crate::ingest::line_record(no, "end_of_record"@) == Ok::<LcovTag, Seq<char>>(LcovTag::End),
{
    reveal_strlit("SF:");
    reveal_strlit("DA:");
    reveal_strlit("end_of_record");
    let record = "end_of_record"@;
    nothing_to_trim(record);
    assert("SF:"@[0] != record[0]);
    assert("DA:"@[0] != record[0]);
}

/// A blank line is none of the records that matter.
proof fn blank_lines_are_ignored(no: nat)
    ensures
        crate::ingest::line_record(no, Seq::<char>::empty()) == Ok::<LcovTag, Seq<char>>(
            LcovTag::Other,
        ),
{
    reveal_strlit("SF:");
    reveal_strlit("DA:");
    reveal_strlit("end_of_record");
    assert(crate::text::trimmed(Seq::<char>::empty()) =~= Seq::<char>::empty());
}

/// What a line says does not depend on its number; only the message of an error does.
proof fn records_have_no_number(a: nat, b: nat, line: Seq<char>)
    ensures
        match (crate::ingest::line_record(a, line), crate::ingest::line_record(b, line)) {
            (Ok(x), Ok(y)) => x == y,
            (Err(_), Err(_)) => true,
            _ => false,
        },
{
}

// ---------------------------------------------------------------------------
// Tracefiles
// ---------------------------------------------------------------------------

/// The end of the last record may be missing: `end_of_record` behind the last line changes
/// nothing.
pub proof fn the_last_end_may_be_missing(lines: Seq<Seq<char>>, end: Seq<char>)
    requires
        crate::ingest::line_record(lines.len() + 1, end) == Ok::<LcovTag, Seq<char>>(LcovTag::End),
    ensures
        crate::ingest::lcov_files(lines.push(end)) == crate::ingest::lcov_files(lines),
{
    assert(lines.push(end).drop_last() =~= lines);
}

/// The end of a record in front of a source record may be missing: `SF:` closes the open file
/// as `end_of_record` does.
pub proof fn a_source_record_closes_the_open_file(state: LcovState, path: Seq<char>)
    ensures
        crate::ingest::lcov_step(state, LcovTag::Source(path)) == crate::ingest::lcov_step(
            crate::ingest::lcov_step(state, LcovTag::End),
            LcovTag::Source(path),
        ),
{
}

/// Other records are ignored: one more of them, wherever it stands, changes neither what is
/// read nor whether anything is. (It moves the numbers of the lines behind it, so the message
/// of an error may change.)
pub proof fn other_records_are_ignored(lines: Seq<Seq<char>>, at: int, other: Seq<char>)
    requires
        0 <= at <= lines.len(),
        crate::ingest::line_record(at as nat + 1, other) == Ok::<LcovTag, Seq<char>>(
            LcovTag::Other,
        ),
    ensures
        match (
            crate::ingest::lcov_files(lines.insert(at, other)),
            crate::ingest::lcov_files(lines),
        ) {
            (Ok(a), Ok(b)) => a == b,
            (Err(_), Err(_)) => true,
            _ => false,
        },
{
    other_records_leave_the_state(lines, at, other);
}

/// One more other record leaves the state as it is.
proof fn other_records_leave_the_state(lines: Seq<Seq<char>>, at: int, other: Seq<char>)
    requires
        0 <= at <= lines.len(),
        crate::ingest::line_record(at as nat + 1, other) == Ok::<LcovTag, Seq<char>>(
            LcovTag::Other,
        ),
    ensures
        match (
            crate::ingest::lcov_read(lines.insert(at, other)),
            crate::ingest::lcov_read(lines),
        ) {
            (Ok(a), Ok(b)) => a == b,
            (Err(_), Err(_)) => true,
            _ => false,
        },
    decreases lines.len(),
{
    let longer = lines.insert(at, other);
    if at == lines.len() {
        assert(longer.drop_last() =~= lines);
        assert(longer.last() == other);
    } else {
        let init = lines.drop_last();
        other_records_leave_the_state(init, at, other);
        assert(longer.drop_last() =~= init.insert(at, other));
        assert(longer.last() == lines.last());
        records_have_no_number(lines.len() + 1, lines.len(), lines.last());
    }
}

// ---------------------------------------------------------------------------
// White space and line ends
// ---------------------------------------------------------------------------

/// All characters are white space.
pub open spec fn all_white(s: Seq<char>) -> bool {
    forall|i: int| 0 <= i < s.len() ==> crate::text::is_white_space(#[trigger] s[i])
}

/// White space in front of a text is trimmed with what the text has there.
proof fn white_space_in_front(w: Seq<char>, s: Seq<char>)
    requires
        all_white(w),
    ensures
        crate::text::trim_front(w + s) == crate::text::trim_front(s),
    decreases w.len(),
{
    if w.len() == 0 {
        assert(w + s =~= s);
    } else {
        let rest = w.drop_first();
        assert forall|i: int| 0 <= i < rest.len() implies crate::text::is_white_space(
            #[trigger] rest[i],
        ) by {
            assert(crate::text::is_white_space(w[i + 1]));
        }
        assert(crate::text::is_white_space(w[0]));
        assert((w + s).drop_first() =~= rest + s);
        white_space_in_front(rest, s);
    }
}

/// White space behind a text is trimmed with what the text has there.
proof fn white_space_behind(s: Seq<char>, w: Seq<char>)
    requires
        all_white(w),
    ensures
        crate::text::trim_back(s + w) == crate::text::trim_back(s),
    decreases w.len(),
{
    if w.len() == 0 {
        assert(s + w =~= s);
    } else {
        let rest = w.drop_last();
        assert forall|i: int| 0 <= i < rest.len() implies crate::text::is_white_space(
            #[trigger] rest[i],
        ) by {
            assert(crate::text::is_white_space(w[i]));
        }
        assert(crate::text::is_white_space(w[w.len() - 1]));
        assert((s + w).drop_last() =~= s + rest);
        white_space_behind(s, rest);
    }
}

/// Trimming the front does not touch white space behind, unless nothing is left in front of it.
proof fn front_of_a_longer_text(s: Seq<char>, w: Seq<char>)
    requires
        all_white(w),
    ensures
        crate::text::trim_front(s).len() > 0 ==> crate::text::trim_front(s + w)
            == crate::text::trim_front(s) + w,
        crate::text::trim_front(s).len() == 0 ==> crate::text::trim_front(s + w).len() == 0,
    decreases s.len(),
{
    if s.len() == 0 {
        assert(s + w =~= w);
        assert(w + s =~= w);
        white_space_in_front(w, s);
    } else if crate::text::is_white_space(s.first()) {
        assert((s + w).drop_first() =~= s.drop_first() + w);
        front_of_a_longer_text(s.drop_first(), w);
    }
}

/// White space around a text is trimmed.
proof fn white_space_around(front: Seq<char>, s: Seq<char>, back: Seq<char>)
    requires
        all_white(front),
        all_white(back),
    ensures
        crate::text::trimmed(front + s + back) == crate::text::trimmed(s),
{
    let inner = crate::text::trim_front(s);
    assert(front + s + back =~= front + (s + back));
    white_space_in_front(front, s + back);
    front_of_a_longer_text(s, back);
    if inner.len() > 0 {
        white_space_behind(inner, back);
    } else {
        assert(crate::text::trim_front(s + back) =~= inner);
    }
}

/// White space around a line does not change what the line says.
pub proof fn white_space_around_a_line_does_not_matter(
    no: nat,
    front: Seq<char>,
    line: Seq<char>,
    back: Seq<char>,
)
    requires
        all_white(front),
        all_white(back),
    ensures
        crate::ingest::line_record(no, front + line + back) == crate::ingest::line_record(no, line),
{
    white_space_around(front, line, back);
}

/// Lines that are alike but for the white space at their ends are read alike, down to the
/// message of an error.
pub proof fn white_space_does_not_matter(a: Seq<Seq<char>>, b: Seq<Seq<char>>)
    requires
        a.len() == b.len(),
        forall|i: int|
            0 <= i < a.len() ==> crate::text::trimmed(#[trigger] a[i]) == crate::text::trimmed(
                b[i],
            ),
    ensures
        crate::ingest::lcov_files(a) == crate::ingest::lcov_files(b),
{
    trimmed_lines_are_read_alike(a, b);
}

/// Lines that are trimmed alike leave the same state.
proof fn trimmed_lines_are_read_alike(a: Seq<Seq<char>>, b: Seq<Seq<char>>)
    requires
        a.len() == b.len(),
        forall|i: int|
            0 <= i < a.len() ==> crate::text::trimmed(#[trigger] a[i]) == crate::text::trimmed(
                b[i],
            ),
    ensures
        crate::ingest::lcov_read(a) == crate::ingest::lcov_read(b),
    decreases a.len(),
{
    if a.len() > 0 {
        let ia = a.drop_last();
        let ib = b.drop_last();
        assert forall|i: int| 0 <= i < ia.len() implies crate::text::trimmed(#[trigger] ia[i])
            == crate::text::trimmed(ib[i]) by {
            assert(crate::text::trimmed(a[i]) == crate::text::trimmed(b[i]));
        }
        trimmed_lines_are_read_alike(ia, ib);
        let last = a.len() - 1;
        assert(crate::text::trimmed(a[last]) == crate::text::trimmed(b[last]));
    }
}

/// The text with a carriage return in front of every line feed.
pub open spec fn with_returns(text: Seq<char>) -> Seq<char>
    decreases text.len(),
{
    if text.len() == 0 {
        Seq::empty()
    } else if text.first() == '\n' {
        seq!['\r', '\n'] + with_returns(text.drop_first())
    } else {
        seq![text.first()] + with_returns(text.drop_first())
    }
}

/// The first line keeps its characters and, if a line feed ends it, gets a carriage return.
proof fn first_line_with_return(text: Seq<char>)
    ensures
        ({
            let n = crate::ingest::line_length(text) as int;
            let m = crate::ingest::line_length(with_returns(text)) as int;
            &&& n <= text.len()
            &&& n == text.len() ==> with_returns(text) == text && m == n
            &&& n < text.len() ==> {
                &&& m == n + 1 && m < with_returns(text).len()
                &&& with_returns(text).take(m) == text.take(n).push('\r')
                &&& with_returns(text).skip(m + 1) == with_returns(text.skip(n + 1))
            }
        }),
    decreases text.len(),
{
    let long = with_returns(text);
    if text.len() == 0 {
        assert(long =~= text);
    } else if text.first() == '\n' {
        let rest = with_returns(text.drop_first());
        assert(long.first() == '\r');
        assert(long.drop_first().first() == '\n');
        reveal_with_fuel(crate::ingest::line_length, 3);
        assert(long.take(1) =~= text.take(0).push('\r'));
        assert(long.skip(2) =~= rest);
        assert(text.skip(1) =~= text.drop_first());
    } else {
        let tail = text.drop_first();
        let rest = with_returns(tail);
        first_line_with_return(tail);
        assert(long.first() == text.first());
        assert(long.drop_first() =~= rest);
        let n = crate::ingest::line_length(tail) as int;
        if n == tail.len() {
            assert(long =~= text);
        } else {
            assert(long.take(n + 2) =~= seq![text.first()] + rest.take(n + 1));
            assert(text.take(n + 1) =~= seq![text.first()] + tail.take(n));
            assert(long.take(n + 2) =~= text.take(n + 1).push('\r'));
            assert(long.skip(n + 3) =~= rest.skip(n + 2));
            assert(text.skip(n + 2) =~= tail.skip(n + 1));
        }
    }
}

/// Carriage returns change no line but for the white space at its end.
proof fn lines_with_returns(text: Seq<char>)
    ensures
        ({
            let a = crate::ingest::text_lines(with_returns(text));
            let b = crate::ingest::text_lines(text);
            &&& a.len() == b.len()
            &&& forall|i: int|
                0 <= i < a.len() ==> crate::text::trimmed(#[trigger] a[i])
                    == crate::text::trimmed(b[i])
        }),
    decreases text.len(),
{
    let long = with_returns(text);
    let a = crate::ingest::text_lines(long);
    let b = crate::ingest::text_lines(text);
    let n = crate::ingest::line_length(text) as int;
    first_line_with_return(text);
    if n < text.len() {
        lines_with_returns(text.skip(n + 1));
        let ra = crate::ingest::text_lines(with_returns(text.skip(n + 1)));
        let rb = crate::ingest::text_lines(text.skip(n + 1));
        assert(a == seq![text.take(n).push('\r')] + ra);
        assert(b == seq![text.take(n)] + rb);
        assert forall|i: int| 0 <= i < a.len() implies crate::text::trimmed(#[trigger] a[i])
            == crate::text::trimmed(b[i]) by {
            if i == 0 {
                let back = seq!['\r'];
                assert(Seq::<char>::empty() + text.take(n) + back =~= text.take(n).push('\r'));
                white_space_around(Seq::empty(), text.take(n), back);
            } else {
                assert(a[i] == ra[i - 1] && b[i] == rb[i - 1]);
            }
        }
    }
}

/// Line ends may be carriage return and line feed: the text is read as with line feeds alone,
/// down to the message of an error.
pub proof fn carriage_returns_do_not_matter(text: Seq<char>)
    ensures
        crate::ingest::lcov_files(crate::ingest::text_lines(with_returns(text)))
            == crate::ingest::lcov_files(crate::ingest::text_lines(text)),
{
    lines_with_returns(text);
    white_space_does_not_matter(
        crate::ingest::text_lines(with_returns(text)),
        crate::ingest::text_lines(text),
    );
}

// ---------------------------------------------------------------------------
// Payloads as tracefiles
// ---------------------------------------------------------------------------

/// Lines, each with a line feed behind it.
pub open spec fn joined(lines: Seq<Seq<char>>) -> Seq<char>
    decreases lines.len(),
{
    if lines.len() == 0 {
        Seq::empty()
    } else {
        lines.first() + seq!['\n'] + joined(lines.drop_first())
    }
}

/// A line ends at the first line feed.
proof fn line_in_front(line: Seq<char>, rest: Seq<char>)
    requires
        !line.contains('\n'),
    ensures
        crate::ingest::line_length(line + seq!['\n'] + rest) == line.len(),
    decreases line.len(),
{
    let text = line + seq!['\n'] + rest;
    if line.len() > 0 {
        assert(text.first() == line[0]);
        assert(line.contains(line[0]));
        assert(text.drop_first() =~= line.drop_first() + seq!['\n'] + rest);
        assert(!line.drop_first().contains('\n')) by {
            if line.drop_first().contains('\n') {
                let i = choose|i: int| 0 <= i < line.len() - 1 && line.drop_first()[i] == '\n';
                assert(line[i + 1] == '\n');
            }
        }
        line_in_front(line.drop_first(), rest);
    }
}

/// Joined lines come apart again, with a blank line behind the last line feed.
pub proof fn joined_lines_come_apart(lines: Seq<Seq<char>>)
    requires
        forall|i: int| 0 <= i < lines.len() ==> !(#[trigger] lines[i]).contains('\n'),
    ensures
        crate::ingest::text_lines(joined(lines)) == lines.push(Seq::<char>::empty()),
    decreases lines.len(),
{
    let text = joined(lines);
    if lines.len() == 0 {
        assert(crate::ingest::text_lines(text) =~= lines.push(Seq::<char>::empty()));
    } else {
        let line = lines.first();
        let tail = lines.drop_first();
        assert(!lines[0].contains('\n'));
        assert forall|i: int| 0 <= i < tail.len() implies !(#[trigger] tail[i]).contains(
            '\n',
        ) by {
            assert(!lines[i + 1].contains('\n'));
        }
        line_in_front(line, joined(tail));
        joined_lines_come_apart(tail);
        assert(text.take(line.len() as int) =~= line);
        assert(text.skip(line.len() as int + 1) =~= joined(tail));
        assert(seq![line] + tail.push(Seq::<char>::empty()) =~= lines.push(Seq::<char>::empty()));
    }
}

/// The `DA:` records of a file.
pub open spec fn data_lines(entries: Seq<CoverageLineEntry>) -> Seq<Seq<char>> {
    entries.map_values(|e: CoverageLineEntry| data_line(e.line_number, e.hit_count))
}

/// The records of files.
pub open spec fn file_lines(files: Seq<CoverageFileEntry>) -> Seq<Seq<char>>
    decreases files.len(),
{
    if files.len() == 0 {
        Seq::empty()
    } else {
        file_lines(files.drop_last()).push(source_line(files.last().file_path@)) + data_lines(
            files.last().lines@,
        ) + seq!["end_of_record"@]
    }
}

/// A path that an `SF:` record can carry: it has no line feed, and white space does not end it.
pub open spec fn fits_in_a_line(path: Seq<char>) -> bool {
    &&& !path.contains('\n')
    &&& path.len() > 0 ==> !crate::text::is_white_space(path.last())
}

/// Behind the opening of a file its `DA:` records give its lines.
proof fn data_lines_give_the_lines(
    before: Seq<Seq<char>>,
    entries: Seq<CoverageLineEntry>,
    state: LcovState,
)
    requires
        crate::ingest::lcov_read(before) == Ok::<LcovState, Seq<char>>(state),
        state.lines == Map::<u32, u64>::empty(),
    ensures
        crate::ingest::lcov_read(before + data_lines(entries)) == Ok::<LcovState, Seq<char>>(
            LcovState { lines: crate::ingest::entry_lines(entries), ..state },
        ),
    decreases entries.len(),
{
    let all = before + data_lines(entries);
    if entries.len() == 0 {
        assert(all =~= before);
    } else {
        let init = entries.drop_last();
        let e = entries.last();
        data_lines_give_the_lines(before, init, state);
        assert(all.drop_last() =~= before + data_lines(init));
        assert(all.last() == data_line(e.line_number, e.hit_count));
        data_lines_are_read_back(all.len(), e.line_number, e.hit_count);
    }
}

/// The records of files are read as the files.
proof fn file_lines_give_the_files(files: Seq<CoverageFileEntry>)
    requires
        forall|i: int| 0 <= i < files.len() ==> fits_in_a_line((#[trigger] files[i]).file_path@),
    ensures
        crate::ingest::lcov_read(file_lines(files)) == Ok::<LcovState, Seq<char>>(
            LcovState {
                files: crate::ingest::entry_files(files),
                open: None,
                lines: Map::empty(),
            },
        ),
    decreases files.len(),
{
    if files.len() > 0 {
        let init = files.drop_last();
        let file = files.last();
        assert forall|i: int| 0 <= i < init.len() implies fits_in_a_line(
            (#[trigger] init[i]).file_path@,
        ) by {
            assert(fits_in_a_line(files[i].file_path@));
        }
        assert(fits_in_a_line(files[files.len() - 1].file_path@));
        file_lines_give_the_files(init);
        let opened = file_lines(init).push(source_line(file.file_path@));
        assert(opened.drop_last() =~= file_lines(init));
        source_lines_are_read_back(opened.len(), file.file_path@);
        let state = LcovState {
            files: crate::ingest::entry_files(init),
            open: Some(file.file_path@),
            lines: Map::empty(),
        };
        assert(crate::ingest::lcov_read(opened) == Ok::<LcovState, Seq<char>>(state));
        data_lines_give_the_lines(opened, file.lines@, state);
        let all = file_lines(files);
        assert(all.drop_last() =~= opened + data_lines(file.lines@));
        assert(all.last() == "end_of_record"@);
        end_lines_are_read_back(all.len());
    }
}

/// No record of files has a line feed.
proof fn file_lines_are_lines(files: Seq<CoverageFileEntry>)
    requires
        forall|i: int| 0 <= i < files.len() ==> fits_in_a_line((#[trigger] files[i]).file_path@),
    ensures
        forall|i: int|
            0 <= i < file_lines(files).len() ==> !(#[trigger] file_lines(files)[i]).contains('\n'),
    decreases files.len(),
{
    reveal_strlit("SF:");
    reveal_strlit("DA:");
    reveal_strlit(",");
    reveal_strlit("end_of_record");
    if files.len() > 0 {
        let init = files.drop_last();
        let file = files.last();
        assert forall|i: int| 0 <= i < init.len() implies fits_in_a_line(
            (#[trigger] init[i]).file_path@,
        ) by {
            assert(fits_in_a_line(files[i].file_path@));
        }
        assert(fits_in_a_line(files[files.len() - 1].file_path@));
        file_lines_are_lines(init);
        let before = file_lines(init);
        let all = file_lines(files);
        let n = before.len() as int;
        assert forall|i: int| 0 <= i < all.len() implies !(#[trigger] all[i]).contains('\n') by {
            if i < n {
                assert(all[i] == before[i]);
            } else if i == n {
                let line = source_line(file.file_path@);
                assert(all[i] == line);
                if line.contains('\n') {
                    let j = choose|j: int| 0 <= j < line.len() && line[j] == '\n';
                    assert(file.file_path@[j - 3] == '\n');
                }
            } else if i < all.len() - 1 {
                let e = file.lines@[i - n - 1];
                let line = data_line(e.line_number, e.hit_count);
                assert(all[i] == line);
                let a = crate::text::decimal(e.line_number as nat);
                let b = crate::text::decimal(e.hit_count as nat);
                decimals_are_digits(e.line_number as nat);
                decimals_are_digits(e.hit_count as nat);
                if line.contains('\n') {
                    let j = choose|j: int| 0 <= j < line.len() && line[j] == '\n';
                    if 3 <= j < 3 + a.len() {
                        assert(crate::text::is_digit(a[j - 3]));
                    } else if j >= 4 + a.len() {
                        assert(crate::text::is_digit(b[j - 4 - a.len()]));
                    }
                }
            } else {
                assert(all[i] == "end_of_record"@);
            }
        }
    }
}

/// A tracefile says what a payload says: the records of a payload's files, written out line by
/// line, are read as the coverage that the payload itself gives.
pub proof fn tracefiles_and_payloads_agree(files: Seq<CoverageFileEntry>)
    requires
        forall|i: int| 0 <= i < files.len() ==> fits_in_a_line((#[trigger] files[i]).file_path@),
    ensures
        crate::ingest::lcov_files(crate::ingest::text_lines(joined(file_lines(files)))) == Ok::<
            Map<Seq<char>, Map<u32, u64>>,
            Seq<char>,
        >(crate::ingest::entry_files(files)),
{
    let lines = file_lines(files);
    let blank = Seq::<char>::empty();
    file_lines_are_lines(files);
    joined_lines_come_apart(lines);
    file_lines_give_the_files(files);
    assert(lines.push(blank).drop_last() =~= lines);
    blank_lines_are_ignored(lines.len() + 1);
}

// ---------------------------------------------------------------------------
// What a line says
// ---------------------------------------------------------------------------

/// A line feed, and nothing else, ends a line.
pub proof fn line_feeds_end_lines(line: Seq<char>, rest: Seq<char>)
    requires
        !line.contains('\n'),
    ensures
        crate::ingest::text_lines(line) == seq![line],
        crate::ingest::text_lines(line + seq!['\n'] + rest) == seq![line]
            + crate::ingest::text_lines(rest),
{
    let text = line + seq!['\n'] + rest;
    line_in_front(line, rest);
    assert(text.take(line.len() as int) =~= line);
    assert(text.skip(line.len() as int + 1) =~= rest);
    only_line(line);
}

/// A text without line feeds is one line.
proof fn only_line(line: Seq<char>)
    requires
        !line.contains('\n'),
    ensures
        crate::ingest::line_length(line) == line.len(),
    decreases line.len(),
{
    if line.len() > 0 {
        assert(line.contains(line[0]));
        let rest = line.drop_first();
        assert(!rest.contains('\n')) by {
            if rest.contains('\n') {
                let i = choose|i: int| 0 <= i < rest.len() && rest[i] == '\n';
                assert(line[i + 1] == '\n');
            }
        }
        only_line(rest);
    }
}

/// A line that, white space at its ends apart, starts with `SF:` opens the file named behind it.
pub proof fn sf_lines_open_a_file(no: nat, line: Seq<char>, path: Seq<char>)
    requires
        crate::text::trimmed(line) == "SF:"@ + path,
    ensures
        crate::ingest::line_record(no, line) == Ok::<LcovTag, Seq<char>>(LcovTag::Source(path)),
{
    reveal_strlit("SF:");
    let record = crate::text::trimmed(line);
    assert("SF:"@.is_prefix_of(record));
    assert(record.skip(3) =~= path);
}

/// A line that, white space at its ends apart, is `DA:` with two fields gives the hit count of a
/// line: the field in front of the first comma is the line number, the one behind it the hit
/// count, each with or without white space around it. If one of them is no number of its range
/// the line is an error, the first of them first, and the message says which line and which
/// fields.
pub proof fn da_lines_give_hits(no: nat, line: Seq<char>, first: Seq<char>, second: Seq<char>)
    requires
        crate::text::trimmed(line) == "DA:"@ + first + ","@ + second,
        !first.contains(','),
    ensures
        crate::ingest::line_record(no, line) == match crate::text::numeral(
            crate::text::trimmed(first),
            0xffff_ffff,
        ) {
            Err(fault) => Err::<LcovTag, Seq<char>>(
                "line "@ + crate::text::decimal(no) + ": invalid "@ + "line number"@ + " ["@
                    + crate::ingest::debug_text(first) + ", "@ + crate::ingest::debug_text(second)
                    + "]: "@ + match fault {
                    NumeralFault::Empty => "cannot parse integer from empty string"@,
                    NumeralFault::InvalidDigit => "invalid digit found in string"@,
                    NumeralFault::TooLarge => "number too large to fit in target type"@,
                },
            ),
            Ok(number) => match crate::text::numeral(
                crate::text::trimmed(second),
                0xffff_ffff_ffff_ffff,
            ) {
                Err(fault) => Err(
                    "line "@ + crate::text::decimal(no) + ": invalid "@ + "hit count"@ + " ["@
                        + crate::ingest::debug_text(first) + ", "@ + crate::ingest::debug_text(
                        second,
                    ) + "]: "@ + match fault {
                        NumeralFault::Empty => "cannot parse integer from empty string"@,
                        NumeralFault::InvalidDigit => "invalid digit found in string"@,
                        NumeralFault::TooLarge => "number too large to fit in target type"@,
                    },
                ),
                Ok(hits) => Ok(LcovTag::Data(number as u32, hits as u64)),
            },
        },
{
    reveal_strlit("SF:");
    reveal_strlit("DA:");
    reveal_strlit(",");
    let record = crate::text::trimmed(line);
    assert("DA:"@.is_prefix_of(record));
    assert("SF:"@[0] != record[0]);
    let fields = record.skip(3);
    assert(fields =~= first + seq![','] + second);
    comma_behind(first, second);
    assert(fields.take(first.len() as int) =~= first);
    assert(fields.skip(first.len() as int + 1) =~= second);
}

/// A line that, white space at its ends apart, is `DA:` without a comma is an error; the message
/// says which line it is and what it holds.
pub proof fn da_lines_without_a_comma_are_errors(no: nat, line: Seq<char>, field: Seq<char>)
    requires
        crate::text::trimmed(line) == "DA:"@ + field,
        !field.contains(','),
    ensures
        crate::ingest::line_record(no, line) == Err::<LcovTag, Seq<char>>(
            "line "@ + crate::text::decimal(no) + ": malformed DA record: "@
                + crate::ingest::debug_text("DA:"@ + field),
        ),
{
    reveal_strlit("SF:");
    reveal_strlit("DA:");
    let record = crate::text::trimmed(line);
    assert("DA:"@.is_prefix_of(record));
    assert("SF:"@[0] != record[0]);
    assert(record.skip(3) =~= field);
    no_comma(field);
}

/// Without a comma the search for one ends at the end.
proof fn no_comma(s: Seq<char>)
    requires
        !s.contains(','),
    ensures
        crate::ingest::comma_position(s) == s.len(),
    decreases s.len(),
{
    if s.len() > 0 {
        assert(s.contains(s[0]));
        let rest = s.drop_first();
        assert(!rest.contains(',')) by {
            if rest.contains(',') {
                let i = choose|i: int| 0 <= i < rest.len() && rest[i] == ',';
                assert(s[i + 1] == ',');
            }
        }
        no_comma(rest);
    }
}

/// `end_of_record`, white space at its ends apart, ends a record; any other line that starts
/// neither with `SF:` nor with `DA:` says nothing.
pub proof fn all_other_lines_say_nothing(no: nat, line: Seq<char>)
    requires
        !"SF:"@.is_prefix_of(crate::text::trimmed(line)),
        !"DA:"@.is_prefix_of(crate::text::trimmed(line)),
    ensures
        crate::text::trimmed(line) == "end_of_record"@ ==> crate::ingest::line_record(no, line)
            == Ok::<LcovTag, Seq<char>>(LcovTag::End),
        crate::text::trimmed(line) != "end_of_record"@ ==> crate::ingest::line_record(no, line)
            == Ok::<LcovTag, Seq<char>>(LcovTag::Other),
{
}

/// Lines that start neither with `SF:` nor with `DA:` and do not end a record change nothing,
/// wherever they stand, but for the line numbers in a message.
pub proof fn lines_that_say_nothing_change_nothing(
    lines: Seq<Seq<char>>,
    at: int,
    other: Seq<char>,
)
    requires
        0 <= at <= lines.len(),
        !"SF:"@.is_prefix_of(crate::text::trimmed(other)),
        !"DA:"@.is_prefix_of(crate::text::trimmed(other)),
        crate::text::trimmed(other) != "end_of_record"@,
    ensures
        match (
            crate::ingest::lcov_files(lines.insert(at, other)),
            crate::ingest::lcov_files(lines),
        ) {
            (Ok(a), Ok(b)) => a == b,
            (Err(_), Err(_)) => true,
            _ => false,
        },
{
    all_other_lines_say_nothing(at as nat + 1, other);
    other_records_are_ignored(lines, at, other);
}

// ---------------------------------------------------------------------------
// What a tracefile says
// ---------------------------------------------------------------------------

/// The first line that cannot be read is the error of the whole tracefile.
pub proof fn the_first_unreadable_line_is_the_error(
    lines: Seq<Seq<char>>,
    i: int,
    message: Seq<char>,
)
    requires
        0 <= i < lines.len(),
        forall|j: int| 0 <= j < i ==> crate::ingest::line_record(
            (j + 1) as nat,
            #[trigger] lines[j],
        ) is Ok,
        crate::ingest::line_record((i + 1) as nat, lines[i]) == Err::<LcovTag, Seq<char>>(message),
    ensures
        crate::ingest::lcov_files(lines) == Err::<Map<Seq<char>, Map<u32, u64>>, Seq<char>>(
            message,
        ),
{
    let readable = lines.take(i);
    let tags = Seq::new(
        i as nat,
        |j: int| crate::ingest::line_record((j + 1) as nat, lines[j])->Ok_0,
    );
    readable_lines_give_a_state(readable, tags);
    assert(lines.take(i + 1).drop_last() =~= readable);
    assert(lines.take(i + 1).last() == lines[i]);
    crate::ingest::lcov_error_stays(lines, i + 1);
}

/// The state after the records `tags`.
spec fn state_after(tags: Seq<LcovTag>) -> LcovState
    decreases tags.len(),
{
    if tags.len() == 0 {
        crate::ingest::lcov_start()
    } else {
        crate::ingest::lcov_step(state_after(tags.drop_last()), tags.last())
    }
}

/// Lines that can be read give the state of their records.
proof fn readable_lines_give_a_state(lines: Seq<Seq<char>>, tags: Seq<LcovTag>)
    requires
        lines.len() == tags.len(),
        forall|j: int| 0 <= j < lines.len() ==> crate::ingest::line_record(
            (j + 1) as nat,
            #[trigger] lines[j],
        ) == Ok::<LcovTag, Seq<char>>(tags[j]),
    ensures
        crate::ingest::lcov_read(lines) == Ok::<LcovState, Seq<char>>(state_after(tags)),
    decreases lines.len(),
{
    if lines.len() > 0 {
        let il = lines.drop_last();
        let it = tags.drop_last();
        assert forall|j: int| 0 <= j < il.len() implies crate::ingest::line_record(
            (j + 1) as nat,
            #[trigger] il[j],
        ) == Ok::<LcovTag, Seq<char>>(it[j]) by {
            assert(il[j] == lines[j] && it[j] == tags[j]);
        }
        readable_lines_give_a_state(il, it);
        let last = lines.len() - 1;
        assert(crate::ingest::line_record((last + 1) as nat, lines[last]) == Ok::<
            LcovTag,
            Seq<char>,
        >(tags[last]));
    }
}

/// One record further.
proof fn one_record_more(tags: Seq<LcovTag>, n: int)
    requires
        0 <= n < tags.len(),
    ensures
        state_after(tags.take(n + 1)) == crate::ingest::lcov_step(
            state_after(tags.take(n)),
            tags[n],
        ),
{
    assert(tags.take(n + 1).drop_last() =~= tags.take(n));
}

/// `lines` holds what the data records from `x` to `y` say, each line as the last of them has
/// it.
#[verifier::opaque]
spec fn holds_data(lines: Map<u32, u64>, tags: Seq<LcovTag>, x: int, y: int) -> bool {
    &&& forall|d: int|
        x <= d < y && (#[trigger] tags[d]) is Data && (forall|c: int|
            d < c < y && (#[trigger] tags[c]) is Data ==> tags[c]->Data_0 != tags[d]->Data_0)
            ==> lines.contains_pair(tags[d]->Data_0, tags[d]->Data_1)
    &&& forall|l: u32| #[trigger]
        lines.contains_key(l) ==> exists|d: int| x <= d < y && (#[trigger] tags[d]) is Data
            && tags[d]->Data_0 == l
}

/// One record more keeps that up.
proof fn data_held_longer(
    lines: Map<u32, u64>,
    tags: Seq<LcovTag>,
    x: int,
    y: int,
)
    requires
        x <= y < tags.len(),
        0 <= x,
        holds_data(lines, tags, x, y),
    ensures
        tags[y] !is Data ==> holds_data(lines, tags, x, y + 1),
        tags[y] matches LcovTag::Data(l, h) ==> holds_data(lines.insert(l, h), tags, x, y + 1),
{
    reveal(holds_data);
    let after = match tags[y] {
        LcovTag::Data(l, h) => lines.insert(l, h),
        _ => lines,
    };
    assert forall|d: int|
        x <= d < y + 1 && (#[trigger] tags[d]) is Data && (forall|c: int|
            d < c < y + 1 && (#[trigger] tags[c]) is Data ==> tags[c]->Data_0
                != tags[d]->Data_0) implies after.contains_pair(
        tags[d]->Data_0,
        tags[d]->Data_1,
    ) by {
        if d < y {
            assert(lines.contains_pair(tags[d]->Data_0, tags[d]->Data_1));
            if tags[y] is Data {
                assert(tags[y]->Data_0 != tags[d]->Data_0);
            }
        }
    }
    assert forall|l: u32| #[trigger] after.contains_key(l) implies exists|d: int|
        x <= d < y + 1 && (#[trigger] tags[d]) is Data && tags[d]->Data_0 == l by {
        if lines.contains_key(l) {
            let d = choose|d: int|
                x <= d < y && (#[trigger] tags[d]) is Data && tags[d]->Data_0 == l;
            assert(tags[d] is Data);
        } else {
            assert(tags[y] is Data);
        }
    }
}

/// From `from` to `to` no file opens, and none closes if one is open: what is collected from
/// `x` on goes on being collected.
proof fn collecting_goes_on(tags: Seq<LcovTag>, x: int, from: int, to: int)
    requires
        0 <= x <= from <= to <= tags.len(),
        holds_data(state_after(tags.take(from)).lines, tags, x, from),
        forall|j: int| from <= j < to ==> (#[trigger] tags[j]) !is Source,
        state_after(tags.take(from)).open is Some ==> forall|j: int|
            from <= j < to ==> (#[trigger] tags[j]) !is End,
    ensures
        holds_data(state_after(tags.take(to)).lines, tags, x, to),
        state_after(tags.take(to)).open == state_after(tags.take(from)).open,
        state_after(tags.take(to)).files == state_after(tags.take(from)).files,
    decreases to - from,
{
    if from < to {
        collecting_goes_on(tags, x, from, to - 1);
        one_record_more(tags, to - 1);
        let before = state_after(tags.take(to - 1));
        data_held_longer(before.lines, tags, x, to - 1);
        assert(tags[to - 1] !is Source);
        if before.open is Some {
            assert(tags[to - 1] !is End);
        }
    }
}

/// A file that is closed and not opened again keeps its lines.
proof fn closed_files_stay(tags: Seq<LcovTag>, n: int, path: Seq<char>)
    requires
        0 <= n <= tags.len(),
        state_after(tags.take(n)).files.contains_key(path),
        state_after(tags.take(n)).open != Some(path),
        forall|j: int| n <= j < tags.len() ==> #[trigger] tags[j] != LcovTag::Source(path),
    ensures
        crate::ingest::lcov_close(state_after(tags)).files.contains_pair(
            path,
            state_after(tags.take(n)).files[path],
        ),
    decreases tags.len() - n,
{
    if n < tags.len() {
        one_record_more(tags, n);
        assert(tags[n] != LcovTag::Source(path));
        closed_files_stay(tags, n + 1, path);
    } else {
        assert(tags.take(n) =~= tags);
    }
}

/// A tracefile without errors has exactly the files that its `SF:` records name.
pub proof fn tracefiles_have_the_files_they_name(
    lines: Seq<Seq<char>>,
    tags: Seq<LcovTag>,
    path: Seq<char>,
)
    requires
        lines.len() == tags.len(),
        forall|j: int| 0 <= j < lines.len() ==> crate::ingest::line_record(
            (j + 1) as nat,
            #[trigger] lines[j],
        ) == Ok::<LcovTag, Seq<char>>(tags[j]),
    ensures
        crate::ingest::lcov_files(lines) matches Ok(files) && (files.contains_key(path) <==> exists|
            s: int,
        |
            0 <= s < tags.len() && #[trigger] tags[s] == LcovTag::Source(path)),
{
    readable_lines_give_a_state(lines, tags);
    named_files(tags, path);
    let state = state_after(tags);
    assert(crate::ingest::lcov_close(state).files.contains_key(path) <==> (
    state.files.contains_key(path) || state.open == Some(path)));
}

/// The files that are closed or open are those that were named.
proof fn named_files(tags: Seq<LcovTag>, path: Seq<char>)
    ensures
        (state_after(tags).files.contains_key(path) || state_after(tags).open == Some(path))
            <==> exists|s: int| 0 <= s < tags.len() && #[trigger] tags[s] == LcovTag::Source(path),
    decreases tags.len(),
{
    if tags.len() > 0 {
        let init = tags.drop_last();
        let n = tags.len() - 1;
        named_files(init, path);
        if exists|s: int| 0 <= s < init.len() && #[trigger] init[s] == LcovTag::Source(path) {
            let s = choose|s: int| 0 <= s < init.len() && #[trigger] init[s] == LcovTag::Source(
                path,
            );
            assert(tags[s] == LcovTag::Source(path));
        }
        if exists|s: int| 0 <= s < tags.len() && #[trigger] tags[s] == LcovTag::Source(path) {
            let s = choose|s: int| 0 <= s < tags.len() && #[trigger] tags[s] == LcovTag::Source(
                path,
            );
            if s < n {
                assert(init[s] == LcovTag::Source(path));
            }
        }
        assert(tags.last() == tags[n]);
    }
}

/// A file has the lines that the data records of its record give, and no others: those behind
/// its `SF:` up to the end of the record, that is up to the next `SF:` or `end_of_record` or the
/// end of the text; and those in front of its `SF:` that came when no file was open. A line
/// given more than once has the last hit count.
///
/// The last `SF:` of the path is at `s`, its record ends at `e`; the `SF:` before it is at
/// `before`, or there is none and `before` is -1; the records from `b` on count for the file.
pub proof fn files_have_the_lines_of_their_records(
    lines: Seq<Seq<char>>,
    tags: Seq<LcovTag>,
    path: Seq<char>,
    before: int,
    b: int,
    s: int,
    e: int,
)
    requires
        lines.len() == tags.len(),
        forall|j: int| 0 <= j < lines.len() ==> crate::ingest::line_record(
            (j + 1) as nat,
            #[trigger] lines[j],
        ) == Ok::<LcovTag, Seq<char>>(tags[j]),
        0 <= s < e <= tags.len(),
        tags[s] == LcovTag::Source(path),
        forall|j: int| s < j < tags.len() ==> #[trigger] tags[j] != LcovTag::Source(path),
        forall|j: int| s < j < e ==> (#[trigger] tags[j]) !is Source && tags[j] !is End,
        e < tags.len() ==> tags[e] is Source || tags[e] is End,
        -1 <= before < s,
        before >= 0 ==> tags[before] is Source,
        forall|j: int| before < j < s ==> (#[trigger] tags[j]) !is Source,
        if before == -1 {
            b == 0
        } else if b == s && tags[s - 1] !is End {
            forall|j: int| before < j < s ==> (#[trigger] tags[j]) !is End
        } else {
            &&& before < b - 1 < s
            &&& tags[b - 1] is End
            &&& forall|j: int| before < j < b - 1 ==> (#[trigger] tags[j]) !is End
        },
    ensures
        crate::ingest::lcov_files(lines) matches Ok(files) && {
            &&& files.contains_key(path)
            &&& forall|d: int|
                b <= d < e && (#[trigger] tags[d]) is Data && (forall|c: int|
                    d < c < e && (#[trigger] tags[c]) is Data ==> tags[c]->Data_0
                        != tags[d]->Data_0) ==> files[path].contains_pair(
                    tags[d]->Data_0,
                    tags[d]->Data_1,
                )
            &&& forall|l: u32| #[trigger]
                files[path].contains_key(l) ==> exists|d: int|
                    b <= d < e && (#[trigger] tags[d]) is Data && tags[d]->Data_0 == l
        },
{
    readable_lines_give_a_state(lines, tags);
    assert(tags.take(0) =~= Seq::<LcovTag>::empty());
    nothing_is_held(tags, b);
    nothing_is_held(tags, 0);
    if before == -1 {
        collecting_goes_on(tags, 0, 0, s);
    } else {
        one_record_more(tags, before);
        let opened = state_after(tags.take(before + 1));
        assert(opened.open is Some);
        file_is_open(tags, before + 1, if b == s && tags[s - 1] !is End { s } else { b - 1 });
        if !(b == s && tags[s - 1] !is End) {
            one_record_more(tags, b - 1);
            collecting_goes_on(tags, b, b, s);
        }
    }
    one_record_more(tags, s);
    let opened = state_after(tags.take(s + 1));
    assert(opened.open == Some(path));
    if before >= 0 && b == s && tags[s - 1] !is End {
        assert(opened.lines == Map::<u32, u64>::empty());
        data_held_longer(opened.lines, tags, b, s);
    } else {
        data_held_longer(state_after(tags.take(s)).lines, tags, b, s);
    }
    assert(holds_data(opened.lines, tags, b, s + 1));
    collecting_goes_on(tags, b, s + 1, e);
    let full = state_after(tags.take(e));
    if e < tags.len() {
        one_record_more(tags, e);
        assert(tags[e] != LcovTag::Source(path));
        closed_files_stay(tags, e + 1, path);
    } else {
        assert(tags.take(e) =~= tags);
    }
    let files = crate::ingest::lcov_close(state_after(tags)).files;
    assert(files[path] == full.lines);
    reveal(holds_data);
}

/// No records give no lines.
proof fn nothing_is_held(tags: Seq<LcovTag>, x: int)
    ensures
        holds_data(Map::empty(), tags, x, x),
{
    reveal(holds_data);
}

/// A file stays open while no other opens and none closes.
proof fn file_is_open(tags: Seq<LcovTag>, from: int, to: int)
    requires
        0 <= from <= to <= tags.len(),
        state_after(tags.take(from)).open is Some,
        forall|j: int| from <= j < to ==> (#[trigger] tags[j]) !is Source && tags[j] !is End,
    ensures
        state_after(tags.take(to)).open == state_after(tags.take(from)).open,
    decreases to - from,
{
    if from < to {
        file_is_open(tags, from, to - 1);
        one_record_more(tags, to - 1);
        assert(tags[to - 1] !is Source && tags[to - 1] !is End);
    }
}

// ---------------------------------------------------------------------------
// What a payload says
// ---------------------------------------------------------------------------

/// A payload's file has exactly the lines that some entry gives.
pub proof fn payload_lines_are_those_of_the_entries(lines: Seq<CoverageLineEntry>, l: u32)
    ensures
        crate::ingest::entry_lines(lines).contains_key(l) <==> exists|i: int|
            0 <= i < lines.len() && #[trigger] lines[i].line_number == l,
    decreases lines.len(),
{
    if lines.len() > 0 {
        let init = lines.drop_last();
        let n = lines.len() - 1;
        payload_lines_are_those_of_the_entries(init, l);
        if exists|i: int| 0 <= i < init.len() && #[trigger] init[i].line_number == l {
            let i = choose|i: int| 0 <= i < init.len() && #[trigger] init[i].line_number == l;
            assert(lines[i].line_number == l);
        }
        if exists|i: int| 0 <= i < lines.len() && #[trigger] lines[i].line_number == l {
            let i = choose|i: int| 0 <= i < lines.len() && #[trigger] lines[i].line_number == l;
            if i < n {
                assert(init[i].line_number == l);
            }
        }
        assert(lines.last().line_number == lines[n].line_number);
    }
}

/// A line of a payload's file has the hit count of the last entry that gives the line.
pub proof fn the_last_entry_of_a_line_counts(lines: Seq<CoverageLineEntry>, i: int)
    requires
        0 <= i < lines.len(),
        forall|j: int|
            i < j < lines.len() ==> #[trigger] lines[j].line_number != lines[i].line_number,
    ensures
        crate::ingest::entry_lines(lines).contains_pair(
            lines[i].line_number,
            lines[i].hit_count,
        ),
    decreases lines.len(),
{
    let init = lines.drop_last();
    let n = lines.len() - 1;
    if i < n {
        assert(lines[n].line_number != lines[i].line_number);
        assert forall|j: int| i < j < init.len() implies #[trigger] init[j].line_number
            != init[i].line_number by {
            assert(lines[j].line_number != lines[i].line_number);
        }
        the_last_entry_of_a_line_counts(init, i);
    }
}

/// A payload has exactly the files that some entry names.
pub proof fn payload_files_are_those_of_the_entries(
    files: Seq<CoverageFileEntry>,
    path: Seq<char>,
)
    ensures
        crate::ingest::entry_files(files).contains_key(path) <==> exists|i: int|
            0 <= i < files.len() && #[trigger] files[i].file_path@ == path,
    decreases files.len(),
{
    if files.len() > 0 {
        let init = files.drop_last();
        let n = files.len() - 1;
        payload_files_are_those_of_the_entries(init, path);
        if exists|i: int| 0 <= i < init.len() && #[trigger] init[i].file_path@ == path {
            let i = choose|i: int| 0 <= i < init.len() && #[trigger] init[i].file_path@ == path;
            assert(files[i].file_path@ == path);
        }
        if exists|i: int| 0 <= i < files.len() && #[trigger] files[i].file_path@ == path {
            let i = choose|i: int| 0 <= i < files.len() && #[trigger] files[i].file_path@ == path;
            if i < n {
                assert(init[i].file_path@ == path);
            }
        }
        assert(files.last().file_path@ == files[n].file_path@);
    }
}

/// A file of a payload has the lines of the last entry that names it.
pub proof fn the_last_entry_of_a_file_counts(files: Seq<CoverageFileEntry>, i: int)
    requires
        0 <= i < files.len(),
        forall|j: int|
            i < j < files.len() ==> #[trigger] files[j].file_path@ != files[i].file_path@,
    ensures
        crate::ingest::entry_files(files).contains_pair(
            files[i].file_path@,
            crate::ingest::entry_lines(files[i].lines@),
        ),
    decreases files.len(),
{
    let init = files.drop_last();
    let n = files.len() - 1;
    if i < n {
        assert(files[n].file_path@ != files[i].file_path@);
        assert forall|j: int| i < j < init.len() implies #[trigger] init[j].file_path@
            != init[i].file_path@ by {
            assert(files[j].file_path@ != files[i].file_path@);
        }
        the_last_entry_of_a_file_counts(init, i);
    }
}

} // verus!
