//! What holds of all packets.
use vstd::prelude::*;

verus! {

// ---------------------------------------------------------------------------
// Values
// ---------------------------------------------------------------------------

/// Texts that are quoted alike are alike.
proof fn quoting_loses_nothing(a: Seq<char>, b: Seq<char>)
    requires
        crate::sync::quoted_chars(a) == crate::sync::quoted_chars(b),
    ensures
        a == b,
    decreases a.len(),
{
    let qa = crate::sync::quoted_chars(a);
    let qb = crate::sync::quoted_chars(b);
    if a.len() == 0 || b.len() == 0 {
        if a.len() > 0 {
            assert(qa.len() > 0);
        }
        if b.len() > 0 {
            assert(qb.len() > 0);
        }
        assert(a =~= b);
    } else {
        let ca = crate::sync::quoted_char(a.first());
        let cb = crate::sync::quoted_char(b.first());
        let ra = crate::sync::quoted_chars(a.drop_first());
        let rb = crate::sync::quoted_chars(b.drop_first());
        assert(qa == ca + ra && qb == cb + rb);
        assert(qa[0] == ca[0] && qb[0] == cb[0]);
        if ca.len() == 2 {
            assert(qa[1] == ca[1]);
        }
        if cb.len() == 2 {
            assert(qb[1] == cb[1]);
        }
        assert(a.first() == b.first());
        assert(ra =~= qa.skip(ca.len() as int));
        assert(rb =~= qb.skip(cb.len() as int));
        quoting_loses_nothing(a.drop_first(), b.drop_first());
        assert(a =~= seq![a.first()] + a.drop_first());
        assert(b =~= seq![b.first()] + b.drop_first());
    }
}

/// Values that stand alike in a packet are alike.
pub proof fn values_are_told_apart(a: Seq<char>, b: Seq<char>)
    requires
        crate::sync::packet_value(a) == crate::sync::packet_value(b),
    ensures
        a == b,
{
    let va = crate::sync::packet_value(a);
    let vb = crate::sync::packet_value(b);
    let quoted_a = crate::sync::needs_quoting(a);
    let quoted_b = crate::sync::needs_quoting(b);
    if quoted_a && quoted_b {
        let qa = crate::sync::quoted_chars(a);
        let qb = crate::sync::quoted_chars(b);
        assert(qa =~= va.subrange(1, va.len() - 1));
        assert(qb =~= vb.subrange(1, vb.len() - 1));
        quoting_loses_nothing(a, b);
    } else if quoted_a {
        assert(va[0] == '"');
        assert(crate::sync::is_special(b[0]));
    } else if quoted_b {
        assert(vb[0] == '"');
        assert(crate::sync::is_special(a[0]));
    }
}

/// Quoted text has no line feed.
proof fn quoted_text_is_one_line(s: Seq<char>)
    ensures
        !crate::sync::quoted_chars(s).contains('\n'),
    decreases s.len(),
{
    let q = crate::sync::quoted_chars(s);
    if s.len() > 0 {
        quoted_text_is_one_line(s.drop_first());
        let c = crate::sync::quoted_char(s.first());
        let rest = crate::sync::quoted_chars(s.drop_first());
        if q.contains('\n') {
            let i = choose|i: int| 0 <= i < q.len() && q[i] == '\n';
            if i < c.len() {
                assert(c[i] == '\n');
            } else {
                assert(rest[i - c.len()] == '\n');
            }
        }
    }
}

/// A value in a packet has no line feed.
pub proof fn values_stay_in_their_line(s: Seq<char>)
    ensures
        !crate::sync::packet_value(s).contains('\n'),
{
    let v = crate::sync::packet_value(s);
    if v.contains('\n') {
        let i = choose|i: int| 0 <= i < v.len() && v[i] == '\n';
        if crate::sync::needs_quoting(s) {
            quoted_text_is_one_line(s);
            assert(crate::sync::quoted_chars(s)[i - 1] == '\n');
        } else {
            assert(crate::sync::is_special(s[i]));
        }
    }
}

// ---------------------------------------------------------------------------
// JSON
// ---------------------------------------------------------------------------

/// Hexadecimal digits are told apart.
proof fn hex_digits_are_told_apart(a: int, b: int)
    requires
        0 <= a < 16,
        0 <= b < 16,
        crate::sync::hex_digit(a) == crate::sync::hex_digit(b),
    ensures
        a == b,
{
    assert(crate::sync::hex_digit(a) as u32 == if a < 10 {
        48 + a
    } else {
        87 + a
    });
    assert(crate::sync::hex_digit(b) as u32 == if b < 10 {
        48 + b
    } else {
        87 + b
    });
}

/// Characters are told apart in a JSON string by the first, the second and, if there are so
/// many, the last two of the characters that stand for them.
proof fn json_chars_are_told_apart(a: char, b: char)
    requires
        ({
            let ca = crate::sync::json_char(a);
            let cb = crate::sync::json_char(b);
            &&& ca[0] == cb[0]
            &&& ca.len() > 1 && cb.len() > 1 ==> ca[1] == cb[1]
            &&& ca.len() == 6 && cb.len() == 6 ==> ca[4] == cb[4] && ca[5] == cb[5]
        }),
    ensures
        a == b,
{
    let ca = crate::sync::json_char(a);
    let cb = crate::sync::json_char(b);
    if ca.len() == 6 && cb.len() == 6 {
        let m = a as u32 as int;
        let n = b as u32 as int;
        assert(ca[4] == crate::sync::hex_digit(m / 16) && ca[5] == crate::sync::hex_digit(m % 16));
        assert(cb[4] == crate::sync::hex_digit(n / 16) && cb[5] == crate::sync::hex_digit(n % 16));
        hex_digits_are_told_apart(m / 16, n / 16);
        hex_digits_are_told_apart(m % 16, n % 16);
    }
}

/// Texts that a JSON string holds alike are alike.
proof fn json_loses_nothing(a: Seq<char>, b: Seq<char>)
    requires
        crate::sync::json_chars(a) == crate::sync::json_chars(b),
    ensures
        a == b,
    decreases a.len(),
{
    let qa = crate::sync::json_chars(a);
    let qb = crate::sync::json_chars(b);
    if a.len() == 0 || b.len() == 0 {
        if a.len() > 0 {
            assert(qa.len() > 0);
        }
        if b.len() > 0 {
            assert(qb.len() > 0);
        }
        assert(a =~= b);
    } else {
        let ca = crate::sync::json_char(a.first());
        let cb = crate::sync::json_char(b.first());
        let ra = crate::sync::json_chars(a.drop_first());
        let rb = crate::sync::json_chars(b.drop_first());
        assert(qa == ca + ra && qb == cb + rb);
        assert(qa[0] == ca[0] && qb[0] == cb[0]);
        if ca.len() > 1 {
            assert(qa[1] == ca[1]);
        }
        if cb.len() > 1 {
            assert(qb[1] == cb[1]);
        }
        if ca.len() == 6 && cb.len() == 6 {
            assert(qa[4] == ca[4] && qa[5] == ca[5] && qb[4] == cb[4] && qb[5] == cb[5]);
        }
        json_chars_are_told_apart(a.first(), b.first());
        assert(ra =~= qa.skip(ca.len() as int));
        assert(rb =~= qb.skip(cb.len() as int));
        json_loses_nothing(a.drop_first(), b.drop_first());
        assert(a =~= seq![a.first()] + a.drop_first());
        assert(b =~= seq![b.first()] + b.drop_first());
    }
}

/// What stands in front of the first `c` and what stands behind it are told apart.
proof fn parts_are_told_apart(
    c: char,
    a: Seq<char>,
    x: Seq<char>,
    b: Seq<char>,
    y: Seq<char>,
)
    requires
        !a.contains(c),
        !b.contains(c),
        a + seq![c] + x == b + seq![c] + y,
    ensures
        a == b,
        x == y,
{
    let s = a + seq![c] + x;
    let t = b + seq![c] + y;
    if a.len() < b.len() {
        assert(s[a.len() as int] == c);
        assert(t[a.len() as int] == b[a.len() as int]);
        assert(b.contains(b[a.len() as int]));
    }
    if b.len() < a.len() {
        assert(t[b.len() as int] == c);
        assert(s[b.len() as int] == a[b.len() as int]);
        assert(a.contains(a[b.len() as int]));
    }
    assert(a =~= s.take(a.len() as int));
    assert(b =~= t.take(b.len() as int));
    assert(x =~= s.skip(a.len() as int + 1));
    assert(y =~= t.skip(b.len() as int + 1));
}

/// A number in decimal has no character but digits.
proof fn decimals_hold_no(n: nat, c: char)
    requires
        !crate::text::is_digit(c),
    ensures
        !crate::text::decimal(n).contains(c),
{
    let d = crate::text::decimal(n);
    crate::source_laws::decimals_are_digits(n);
    if d.contains(c) {
        let i = choose|i: int| 0 <= i < d.len() && d[i] == c;
        assert(crate::text::is_digit(d[i]));
    }
}

/// Numbers that look alike in decimal are alike.
proof fn decimals_are_told_apart(a: nat, b: nat)
    requires
        crate::text::decimal(a) == crate::text::decimal(b),
    ensures
        a == b,
{
    let max = a + b;
    crate::source_laws::decimals_are_read_back(a, max);
    crate::source_laws::decimals_are_read_back(b, max);
}

/// Fractions that look alike are alike, and hold no comma.
proof fn fractions_are_told_apart(a: nat, b: nat)
    ensures
        !crate::sync::tenths_text(a).contains(','),
        crate::sync::tenths_text(a) == crate::sync::tenths_text(b) ==> a == b,
{
    reveal_strlit(".");
    let fa = crate::sync::tenths_text(a);
    let fb = crate::sync::tenths_text(b);
    decimals_hold_no(a / 10, ',');
    decimals_hold_no(a % 10, ',');
    if fa.contains(',') {
        let i = choose|i: int| 0 <= i < fa.len() && fa[i] == ',';
        let whole = crate::text::decimal(a / 10);
        if i < whole.len() {
            assert(whole[i] == ',');
        } else if i > whole.len() {
            assert(crate::text::decimal(a % 10)[i - whole.len() - 1] == ',');
        }
    }
    if fa == fb {
        decimals_hold_no(a / 10, '.');
        decimals_hold_no(b / 10, '.');
        assert("."@ =~= seq!['.']);
        parts_are_told_apart(
            '.',
            crate::text::decimal(a / 10),
            crate::text::decimal(a % 10),
            crate::text::decimal(b / 10),
            crate::text::decimal(b % 10),
        );
        decimals_are_told_apart(a / 10, b / 10);
        decimals_are_told_apart(a % 10, b % 10);
    }
}

/// The JSON text of a summary from the first value on: what follows the fixed opening.
spec fn summary_tail(
    workspace_key: Seq<char>,
    total_nodes: nat,
    blindspots: nat,
    avg_tenths: nat,
) -> Seq<char> {
    crate::sync::tenths_text(avg_tenths) + seq![','] + counts_tail(
        workspace_key,
        total_nodes,
        blindspots,
    )
}

/// What follows the average.
spec fn counts_tail(workspace_key: Seq<char>, total_nodes: nat, blindspots: nat) -> Seq<char> {
    let after_total = crate::text::decimal(total_nodes) + seq![','] + text_tail(workspace_key);
    let after_spots = crate::text::decimal(blindspots) + seq![','] + (crate::sync::json_string(
        "total_nodes"@,
    ) + ":"@ + after_total);
    crate::sync::json_string("blindspots"@) + ":"@ + after_spots
}

/// What follows the counts.
spec fn text_tail(workspace_key: Seq<char>) -> Seq<char> {
    crate::sync::json_string("workspace_key"@) + ":"@ + (crate::sync::json_string(workspace_key)
        + "}}"@)
}

/// The fixed opening.
spec fn summary_head() -> Seq<char> {
    "{"@ + crate::sync::json_string("coverage"@) + ":{"@ + crate::sync::json_string(
        "avg_coverage"@,
    ) + ":"@
}

/// The JSON text of a summary in these parts.
proof fn summary_in_parts(
    workspace_key: Seq<char>,
    total_nodes: nat,
    blindspots: nat,
    avg_tenths: nat,
)
    ensures
        crate::sync::summary_json(workspace_key, total_nodes, blindspots, avg_tenths)
            == summary_head() + summary_tail(
            workspace_key,
            total_nodes,
            blindspots,
            avg_tenths,
        ),
{
    reveal_strlit(",");
    assert(","@ =~= seq![',']);
    assert(crate::sync::summary_json(workspace_key, total_nodes, blindspots, avg_tenths)
        =~= summary_head() + summary_tail(workspace_key, total_nodes, blindspots, avg_tenths));
}

/// What stands behind one text is told apart.
proof fn rests_are_told_apart(head: Seq<char>, x: Seq<char>, y: Seq<char>)
    requires
        head + x == head + y,
    ensures
        x == y,
{
    assert(x =~= (head + x).skip(head.len() as int));
    assert(y =~= (head + y).skip(head.len() as int));
}

/// Texts of one workspace key are told apart by what follows the counts.
proof fn text_tails_are_told_apart(a: Seq<char>, b: Seq<char>)
    requires
        text_tail(a) == text_tail(b),
    ensures
        a == b,
{
    let head = crate::sync::json_string("workspace_key"@) + ":"@;
    rests_are_told_apart(
        head,
        crate::sync::json_string(a) + "}}"@,
        crate::sync::json_string(b) + "}}"@,
    );
    let ja = crate::sync::json_string(a) + "}}"@;
    let jb = crate::sync::json_string(b) + "}}"@;
    reveal_strlit("}}");
    let ca = crate::sync::json_chars(a);
    let cb = crate::sync::json_chars(b);
    assert(ja.len() == ca.len() + 4);
    assert(jb.len() == cb.len() + 4);
    assert(ca =~= ja.subrange(1, ja.len() - 3));
    assert(cb =~= jb.subrange(1, jb.len() - 3));
    json_loses_nothing(a, b);
}

/// The JSON text of a summary says all that the summary says.
pub proof fn summaries_are_told_apart(
    workspace_a: Seq<char>,
    total_a: nat,
    blindspots_a: nat,
    avg_a: nat,
    workspace_b: Seq<char>,
    total_b: nat,
    blindspots_b: nat,
    avg_b: nat,
)
    requires
        crate::sync::summary_json(workspace_a, total_a, blindspots_a, avg_a)
            == crate::sync::summary_json(workspace_b, total_b, blindspots_b, avg_b),
    ensures
        workspace_a == workspace_b,
        total_a == total_b,
        blindspots_a == blindspots_b,
        avg_a == avg_b,
{
    summary_in_parts(workspace_a, total_a, blindspots_a, avg_a);
    summary_in_parts(workspace_b, total_b, blindspots_b, avg_b);
    rests_are_told_apart(
        summary_head(),
        summary_tail(workspace_a, total_a, blindspots_a, avg_a),
        summary_tail(workspace_b, total_b, blindspots_b, avg_b),
    );
    fractions_are_told_apart(avg_a, avg_b);
    fractions_are_told_apart(avg_b, avg_a);
    let counts_a = counts_tail(workspace_a, total_a, blindspots_a);
    let counts_b = counts_tail(workspace_b, total_b, blindspots_b);
    parts_are_told_apart(
        ',',
        crate::sync::tenths_text(avg_a),
        counts_a,
        crate::sync::tenths_text(avg_b),
        counts_b,
    );
    let spots_key = crate::sync::json_string("blindspots"@) + ":"@;
    let total_key = crate::sync::json_string("total_nodes"@) + ":"@;
    let after_total_a = crate::text::decimal(total_a) + seq![','] + text_tail(workspace_a);
    let after_total_b = crate::text::decimal(total_b) + seq![','] + text_tail(workspace_b);
    let after_spots_a = crate::text::decimal(blindspots_a) + seq![','] + (total_key
        + after_total_a);
    let after_spots_b = crate::text::decimal(blindspots_b) + seq![','] + (total_key
        + after_total_b);
    rests_are_told_apart(spots_key, after_spots_a, after_spots_b);
    decimals_hold_no(blindspots_a, ',');
    decimals_hold_no(blindspots_b, ',');
    parts_are_told_apart(
        ',',
        crate::text::decimal(blindspots_a),
        total_key + after_total_a,
        crate::text::decimal(blindspots_b),
        total_key + after_total_b,
    );
    decimals_are_told_apart(blindspots_a, blindspots_b);
    rests_are_told_apart(total_key, after_total_a, after_total_b);
    decimals_hold_no(total_a, ',');
    decimals_hold_no(total_b, ',');
    parts_are_told_apart(
        ',',
        crate::text::decimal(total_a),
        text_tail(workspace_a),
        crate::text::decimal(total_b),
        text_tail(workspace_b),
    );
    decimals_are_told_apart(total_a, total_b);
    text_tails_are_told_apart(workspace_a, workspace_b);
}

// ---------------------------------------------------------------------------
// Packets
// ---------------------------------------------------------------------------

/// The lines of a packet: the title and three values, each in a line of its own.
pub open spec fn packet_lines(workspace_key: Seq<char>, plugin_data: Seq<char>) -> Seq<Seq<char>> {
    seq![
        "metadata:"@,
        "  format_version: "@ + crate::sync::packet_value(crate::sync::FORMAT_VERSION@),
        "  workspace_key: "@ + crate::sync::packet_value(workspace_key),
        "  plugin_data: "@ + crate::sync::packet_value(plugin_data),
    ]
}

/// A line of a packet has no line feed.
proof fn packet_line_is_one_line(key: Seq<char>, value: Seq<char>)
    requires
        !key.contains('\n'),
    ensures
        !(key + crate::sync::packet_value(value)).contains('\n'),
{
    let v = crate::sync::packet_value(value);
    let line = key + v;
    values_stay_in_their_line(value);
    if line.contains('\n') {
        let i = choose|i: int| 0 <= i < line.len() && line[i] == '\n';
        if i < key.len() {
            assert(key[i] == '\n');
        } else {
            assert(v[i - key.len()] == '\n');
        }
    }
}

/// A packet has these lines and no others, whatever the values hold.
pub proof fn packets_have_four_lines(workspace_key: Seq<char>, plugin_data: Seq<char>)
    ensures
        crate::ingest::text_lines(crate::sync::packet(workspace_key, plugin_data))
            == packet_lines(workspace_key, plugin_data).push(Seq::<char>::empty()),
{
    reveal_strlit("metadata:");
    reveal_strlit("  format_version: ");
    reveal_strlit("  workspace_key: ");
    reveal_strlit("  plugin_data: ");
    reveal_strlit("metadata:\n  format_version: ");
    reveal_strlit("\n  workspace_key: ");
    reveal_strlit("\n  plugin_data: ");
    reveal_strlit("\n");
    let lines = packet_lines(workspace_key, plugin_data);
    let feed = seq!['\n'];
    packet_line_is_one_line("  format_version: "@, crate::sync::FORMAT_VERSION@);
    packet_line_is_one_line("  workspace_key: "@, workspace_key);
    packet_line_is_one_line("  plugin_data: "@, plugin_data);
    assert forall|i: int| 0 <= i < lines.len() implies !(#[trigger] lines[i]).contains('\n') by {
        assert(i == 0 || i == 1 || i == 2 || i == 3);
    }
    crate::source_laws::joined_lines_come_apart(lines);
    assert("metadata:\n  format_version: "@ =~= "metadata:"@ + feed + "  format_version: "@);
    assert("\n  workspace_key: "@ =~= feed + "  workspace_key: "@);
    assert("\n  plugin_data: "@ =~= feed + "  plugin_data: "@);
    assert("\n"@ =~= feed);
    let d3 = lines.drop_first().drop_first().drop_first();
    assert(d3.drop_first() =~= Seq::<Seq<char>>::empty());
    assert(crate::source_laws::joined(d3.drop_first()) =~= Seq::<char>::empty());
    assert(d3.first() == lines[3]);
    assert(lines.drop_first().drop_first().first() == lines[2]);
    assert(lines.drop_first().first() == lines[1]);
    let tail3 = lines[3] + feed + Seq::<char>::empty();
    let tail2 = lines[2] + feed + tail3;
    let tail1 = lines[1] + feed + tail2;
    assert(crate::source_laws::joined(d3) == tail3);
    assert(crate::source_laws::joined(lines.drop_first().drop_first()) == tail2);
    assert(crate::source_laws::joined(lines.drop_first()) == tail1);
    assert(crate::source_laws::joined(lines) == lines[0] + feed + tail1);
    assert(crate::sync::packet(workspace_key, plugin_data) =~= lines[0] + feed + tail1);
}

/// A packet says whose it is and what data it carries.
pub proof fn packets_are_told_apart(
    workspace_a: Seq<char>,
    data_a: Seq<char>,
    workspace_b: Seq<char>,
    data_b: Seq<char>,
)
    requires
        crate::sync::packet(workspace_a, data_a) == crate::sync::packet(workspace_b, data_b),
    ensures
        workspace_a == workspace_b,
        data_a == data_b,
{
    packets_have_four_lines(workspace_a, data_a);
    packets_have_four_lines(workspace_b, data_b);
    let a = packet_lines(workspace_a, data_a);
    let b = packet_lines(workspace_b, data_b);
    let blank = Seq::<char>::empty();
    assert(a.push(blank)[2] == a[2] && b.push(blank)[2] == b[2]);
    assert(a.push(blank)[3] == a[3] && b.push(blank)[3] == b[3]);
    rests_are_told_apart(
        "  workspace_key: "@,
        crate::sync::packet_value(workspace_a),
        crate::sync::packet_value(workspace_b),
    );
    rests_are_told_apart(
        "  plugin_data: "@,
        crate::sync::packet_value(data_a),
        crate::sync::packet_value(data_b),
    );
    values_are_told_apart(workspace_a, workspace_b);
    values_are_told_apart(data_a, data_b);
}

// ---------------------------------------------------------------------------
// What stands in a packet
// ---------------------------------------------------------------------------

/// Text is quoted character by character.
pub proof fn text_is_quoted_by_character(a: Seq<char>, b: Seq<char>)
    ensures
        crate::sync::quoted_chars(a + b) == crate::sync::quoted_chars(a)
            + crate::sync::quoted_chars(b),
    decreases a.len(),
{
    if a.len() == 0 {
        assert(a + b =~= b);
        assert(crate::sync::quoted_chars(a) + crate::sync::quoted_chars(b)
            =~= crate::sync::quoted_chars(b));
    } else {
        text_is_quoted_by_character(a.drop_first(), b);
        assert((a + b).drop_first() =~= a.drop_first() + b);
        assert((a + b).first() == a.first());
        assert(crate::sync::quoted_char(a.first()) + (crate::sync::quoted_chars(a.drop_first())
            + crate::sync::quoted_chars(b)) =~= (crate::sync::quoted_char(a.first())
            + crate::sync::quoted_chars(a.drop_first())) + crate::sync::quoted_chars(b));
    }
}

/// Inside quotes a quote, a backslash, a line feed, a carriage return and a tabulator have a
/// backslash in front, the last three as letters; all other characters stand for themselves.
pub proof fn five_characters_are_escaped(c: char)
    ensures
        crate::sync::quoted_chars(seq![c]) == if c == '"' {
            seq!['\\', '"']
        } else if c == '\\' {
            seq!['\\', '\\']
        } else if c == '\n' {
            seq!['\\', 'n']
        } else if c == '\r' {
            seq!['\\', 'r']
        } else if c == '\t' {
            seq!['\\', 't']
        } else {
            seq![c]
        },
{
    reveal_with_fuel(crate::sync::quoted_chars, 2);
    assert(seq![c].drop_first() =~= Seq::<char>::empty());
    assert(crate::sync::quoted_chars(seq![c]) =~= crate::sync::quoted_char(c));
}

/// A value stands bare exactly if it is not empty, none of the words `null`, `true` and `false`,
/// does not start with a digit, and has no white space, colon, bracket, brace, hyphen, backslash
/// or quote; any other value stands in quotes.
pub proof fn values_stand_bare_where_they_can(s: Seq<char>)
    ensures
        ({
            let bare = {
                &&& s.len() > 0
                &&& s != "null"@ && s != "true"@ && s != "false"@
                &&& !('0' <= s[0] && s[0] <= '9')
                &&& forall|i: int|
                    0 <= i < s.len() ==> !crate::text::is_white_space(#[trigger] s[i]) && s[i]
                        != ':' && s[i] != '[' && s[i] != ']' && s[i] != '{' && s[i] != '}' && s[i]
                        != '-' && s[i] != '\\' && s[i] != '"'
            };
            crate::sync::packet_value(s) == if bare {
                s
            } else {
                seq!['"'] + crate::sync::quoted_chars(s) + seq!['"']
            }
        }),
{
    if crate::sync::needs_quoting(s) {
        if exists|i: int| 0 <= i < s.len() && crate::sync::is_special(#[trigger] s[i]) {
            let i = choose|i: int| 0 <= i < s.len() && crate::sync::is_special(#[trigger] s[i]);
            assert(crate::sync::is_special(s[i]));
        }
    } else {
        assert forall|i: int| 0 <= i < s.len() implies !crate::text::is_white_space(
            #[trigger] s[i],
        ) && s[i] != ':' && s[i] != '[' && s[i] != ']' && s[i] != '{' && s[i] != '}' && s[i] != '-'
            && s[i] != '\\' && s[i] != '"' by {
            assert(!crate::sync::is_special(s[i]));
        }
    }
}

/// Text that needs no escape stands in quotes as it is.
proof fn plain_text_is_quoted_as_it_is(s: Seq<char>)
    requires
        forall|i: int|
            0 <= i < s.len() ==> #[trigger] s[i] != '"' && s[i] != '\\' && s[i] != '\n' && s[i]
                != '\r' && s[i] != '\t',
    ensures
        crate::sync::quoted_chars(s) == s,
    decreases s.len(),
{
    if s.len() > 0 {
        let rest = s.drop_first();
        assert(s[0] != '"');
        assert forall|i: int| 0 <= i < rest.len() implies #[trigger] rest[i] != '"' && rest[i]
            != '\\' && rest[i] != '\n' && rest[i] != '\r' && rest[i] != '\t' by {
            assert(rest[i] == s[i + 1]);
        }
        plain_text_is_quoted_as_it_is(rest);
        assert(s =~= seq![s.first()] + rest);
    } else {
        assert(crate::sync::quoted_chars(s) =~= s);
    }
}

/// A packet is a title and three lines: the format version, the workspace key and the data.
pub proof fn packets_are_what_they_should_be(workspace_key: Seq<char>, plugin_data: Seq<char>)
    ensures
        crate::sync::packet(workspace_key, plugin_data)
            == "metadata:\n  format_version: \"1.0.0\"\n  workspace_key: "@
            + crate::sync::packet_value(workspace_key) + "\n  plugin_data: "@
            + crate::sync::packet_value(plugin_data) + "\n"@,
{
    reveal_strlit("metadata:\n  format_version: \"1.0.0\"\n  workspace_key: ");
    reveal_strlit("metadata:\n  format_version: ");
    reveal_strlit("\n  workspace_key: ");
    reveal_strlit("1.0.0");
    let version = crate::sync::FORMAT_VERSION@;
    assert(version == "1.0.0"@);
    assert(crate::text::is_digit(version.first()));
    plain_text_is_quoted_as_it_is(version);
    assert("metadata:\n  format_version: "@ + crate::sync::packet_value(version)
        + "\n  workspace_key: "@
        =~= "metadata:\n  format_version: \"1.0.0\"\n  workspace_key: "@);
    assert(crate::sync::packet(workspace_key, plugin_data)
        =~= "metadata:\n  format_version: \"1.0.0\"\n  workspace_key: "@
        + crate::sync::packet_value(workspace_key) + "\n  plugin_data: "@
        + crate::sync::packet_value(plugin_data) + "\n"@);
}

// ---------------------------------------------------------------------------
// What stands in a summary
// ---------------------------------------------------------------------------

/// A JSON string is escaped character by character.
pub proof fn json_is_escaped_by_character(a: Seq<char>, b: Seq<char>)
    ensures
        crate::sync::json_chars(a + b) == crate::sync::json_chars(a) + crate::sync::json_chars(b),
    decreases a.len(),
{
    if a.len() == 0 {
        assert(a + b =~= b);
        assert(crate::sync::json_chars(a) + crate::sync::json_chars(b)
            =~= crate::sync::json_chars(b));
    } else {
        json_is_escaped_by_character(a.drop_first(), b);
        assert((a + b).drop_first() =~= a.drop_first() + b);
        assert((a + b).first() == a.first());
        assert(crate::sync::json_char(a.first()) + (crate::sync::json_chars(a.drop_first())
            + crate::sync::json_chars(b)) =~= (crate::sync::json_char(a.first())
            + crate::sync::json_chars(a.drop_first())) + crate::sync::json_chars(b));
    }
}

/// In a JSON string quotes, backslashes and control characters are escaped, the latter by a
/// letter where JSON has one and else by their number; all others stand for themselves.
pub proof fn json_escapes_what_it_must(c: char)
    ensures
        ({
            let n = c as u32 as int;
            crate::sync::json_chars(seq![c]) == if n == 0x22 {
                seq!['\\', '"']
            } else if n == 0x5c {
                seq!['\\', '\\']
            } else if n == 0x08 {
                seq!['\\', 'b']
            } else if n == 0x09 {
                seq!['\\', 't']
            } else if n == 0x0a {
                seq!['\\', 'n']
            } else if n == 0x0c {
                seq!['\\', 'f']
            } else if n == 0x0d {
                seq!['\\', 'r']
            } else if n < 10 {
                seq!['\\', 'u', '0', '0', '0', (48 + n) as char]
            } else if n < 16 {
                seq!['\\', 'u', '0', '0', '0', (87 + n) as char]
            } else if n < 26 {
                seq!['\\', 'u', '0', '0', '1', (32 + n) as char]
            } else if n < 32 {
                seq!['\\', 'u', '0', '0', '1', (71 + n) as char]
            } else {
                seq![c]
            }
        }),
{
    reveal_with_fuel(crate::sync::json_chars, 2);
    assert(seq![c].drop_first() =~= Seq::<char>::empty());
    assert(crate::sync::json_chars(seq![c]) =~= crate::sync::json_char(c));
    let n = c as u32 as int;
    if n < 32 {
        assert(n / 16 == if n < 16 {
            0int
        } else {
            1
        });
        assert(n % 16 == if n < 16 {
            n
        } else {
            n - 16
        });
    }
}

/// Text that needs no escape stands in a JSON string as it is.
proof fn plain_text_is_plain_json(s: Seq<char>)
    requires
        forall|i: int|
            0 <= i < s.len() ==> #[trigger] s[i] != '"' && s[i] != '\\' && s[i] as u32 >= 32,
    ensures
        crate::sync::json_chars(s) == s,
    decreases s.len(),
{
    if s.len() > 0 {
        let rest = s.drop_first();
        assert(s[0] != '"');
        assert forall|i: int| 0 <= i < rest.len() implies #[trigger] rest[i] != '"' && rest[i]
            != '\\' && rest[i] as u32 >= 32 by {
            assert(rest[i] == s[i + 1]);
        }
        plain_text_is_plain_json(rest);
        assert(s =~= seq![s.first()] + rest);
    } else {
        assert(crate::sync::json_chars(s) =~= s);
    }
}

/// The summary is a JSON object: under `coverage` the average with one digit behind the point,
/// the number of blindspots, the number of rows and the workspace key.
pub proof fn summaries_are_what_they_should_be(
    workspace_key: Seq<char>,
    total_nodes: nat,
    blindspots: nat,
    avg_tenths: nat,
)
    ensures
        crate::sync::summary_json(workspace_key, total_nodes, blindspots, avg_tenths)
            == "{\"coverage\":{\"avg_coverage\":"@ + crate::text::decimal(avg_tenths / 10) + "."@
            + crate::text::decimal(avg_tenths % 10) + ",\"blindspots\":"@
            + crate::text::decimal(blindspots) + ",\"total_nodes\":"@ + crate::text::decimal(
            total_nodes,
        ) + ",\"workspace_key\":\""@ + crate::sync::json_chars(workspace_key) + "\"}}"@,
{
    reveal_strlit("coverage");
    reveal_strlit("avg_coverage");
    reveal_strlit("blindspots");
    reveal_strlit("total_nodes");
    reveal_strlit("workspace_key");
    reveal_strlit("{");
    reveal_strlit(":{");
    reveal_strlit(":");
    reveal_strlit(",");
    reveal_strlit("}}");
    reveal_strlit("{\"coverage\":{\"avg_coverage\":");
    reveal_strlit(",\"blindspots\":");
    reveal_strlit(",\"total_nodes\":");
    reveal_strlit(",\"workspace_key\":\"");
    reveal_strlit("\"}}");
    plain_text_is_plain_json("coverage"@);
    plain_text_is_plain_json("avg_coverage"@);
    plain_text_is_plain_json("blindspots"@);
    plain_text_is_plain_json("total_nodes"@);
    plain_text_is_plain_json("workspace_key"@);
    let head = "{"@ + crate::sync::json_string("coverage"@) + ":{"@ + crate::sync::json_string(
        "avg_coverage"@,
    ) + ":"@;
    let spots = ","@ + crate::sync::json_string("blindspots"@) + ":"@;
    let total = ","@ + crate::sync::json_string("total_nodes"@) + ":"@;
    let key = ","@ + crate::sync::json_string("workspace_key"@) + ":"@ + seq!['"'];
    let tail = seq!['"'] + "}}"@;
    assert(head =~= "{\"coverage\":{\"avg_coverage\":"@);
    assert(spots =~= ",\"blindspots\":"@);
    assert(total =~= ",\"total_nodes\":"@);
    assert(key =~= ",\"workspace_key\":\""@);
    assert(tail =~= "\"}}"@);
    let text = head + (crate::text::decimal(avg_tenths / 10) + "."@ + crate::text::decimal(
        avg_tenths % 10,
    )) + spots + crate::text::decimal(blindspots) + total + crate::text::decimal(total_nodes) + key
        + crate::sync::json_chars(workspace_key) + tail;
    assert(crate::sync::summary_json(workspace_key, total_nodes, blindspots, avg_tenths) =~= text);
    assert(text =~= head + crate::text::decimal(avg_tenths / 10) + "."@ + crate::text::decimal(
        avg_tenths % 10,
    ) + spots + crate::text::decimal(blindspots) + total + crate::text::decimal(total_nodes) + key
        + crate::sync::json_chars(workspace_key) + tail);
}

} // verus!
