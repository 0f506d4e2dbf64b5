//! From line coverage to symbol coverage.
//!
//! Each node of the graph is looked up in the coverage file that names its source file; the
//! measured lines inside its range give its binding. Measured lines of such a file that lie in
//! no node's range are gathered in one binding for the file.
use std::collections::HashMap;

use vstd::hash_map::StringHashMap;
use vstd::prelude::*;
use vstd::slice::slice_subrange;
use vstd::string::StringExecFns;

use crate::file_table::{FileRow, FileTable};
use crate::graph::{GraphOutput, Node, Symbol};
use crate::ingest::CoverageData;
use crate::registry::{Binding, CoverageBinding};
use crate::text::{chars_eq, contains_char, ends_with, starts_with, to_chars};

verus! {

broadcast use vstd::std_specs::hash::group_hash_axioms;

// ---------------------------------------------------------------------------
// Which coverage file a node belongs to
// ---------------------------------------------------------------------------

/// `prefix` is empty or ends a path component.
pub open spec fn at_component(prefix: Seq<char>) -> bool {
    prefix.len() == 0 || prefix.last() == '/'
}

/// `path` without a leading `./`.
pub open spec fn without_dot(path: Seq<char>) -> Seq<char> {
    if "./"@.is_prefix_of(path) {
        path.skip(2)
    } else {
        path
    }
}

/// `tail` has a slash and ends `path`, from a component on.
pub open spec fn is_tail_of(tail: Seq<char>, path: Seq<char>) -> bool {
    &&& tail.contains('/')
    &&& tail.is_suffix_of(path)
    &&& at_component(path.take(path.len() - tail.len()))
}

/// Whether the graph's path `node_path` and the coverage source's path `want` name one file:
/// they are equal; or `want` has a slash and is the tail of `node_path`, from a component on;
/// or `node_path`, a leading `./` apart, has a slash and is the tail of `want`, from a
/// component on.
pub open spec fn same_file(node_path: Seq<char>, want: Seq<char>) -> bool {
    ||| node_path == want
    ||| is_tail_of(want, node_path)
    ||| is_tail_of(without_dot(node_path), want)
}

/// Whether `tail` has a slash and ends `path`, from a component on.
fn ends_path(path: &[char], tail: &[char]) -> (yes: bool)
    ensures
        yes == is_tail_of(tail@, path@),
{
    if !contains_char(tail, '/') || !ends_with(path, tail) {
        return false;
    }
    let n = path.len() - tail.len();
    n == 0 || path[n - 1] == '/'
}

/// [`file_matches`] on characters.
fn chars_match(node_path: &[char], want: &[char]) -> (yes: bool)
    ensures
        yes == same_file(node_path@, want@),
{
    if chars_eq(node_path, want) || ends_path(node_path, want) {
        return true;
    }
    proof {
        reveal_strlit("./");
    }
    let clean = if starts_with(node_path, "./") {
        slice_subrange(node_path, 2, node_path.len())
    } else {
        node_path
    };
    assert(clean@ == without_dot(node_path@));
    ends_path(want, clean)
}

/// Whether the graph's path `node_path` and the coverage source's path `want` name one file.
#[must_use]
pub fn file_matches(node_path: &str, want: &str) -> (yes: bool)
    ensures
        yes == same_file(node_path@, want@),
{
    chars_match(to_chars(node_path).as_slice(), to_chars(want).as_slice())
}

/// Row `i` is the first whose path names the file `source`.
pub open spec fn belongs_to(source: Seq<char>, rows: Seq<FileRow>, i: int) -> bool {
    &&& 0 <= i < rows.len()
    &&& same_file(source, rows[i].0)
    &&& forall|j: int| 0 <= j < i ==> !same_file(source, #[trigger] rows[j].0)
}

/// The nodes that belong to row `i`, in the order of the graph.
pub open spec fn nodes_of(nodes: Seq<Symbol>, rows: Seq<FileRow>, i: int) -> Seq<Symbol> {
    nodes.filter(|n: Symbol| belongs_to(n.source_file, rows, i))
}

// ---------------------------------------------------------------------------
// What is bound
// ---------------------------------------------------------------------------

/// Line `line` lies in the range of `node`.
pub open spec fn spans(node: Symbol, line: u32) -> bool {
    node.start_line <= line <= node.end_line
}

/// Line `line` lies in the range of some node of `nodes`.
pub open spec fn some_spans(nodes: Seq<Symbol>, line: u32) -> bool {
    exists|i: int| 0 <= i < nodes.len() && spans(#[trigger] nodes[i], line)
}

/// The measured lines in the range of `node`.
pub open spec fn lines_inside(lines: Map<u32, u64>, node: Symbol) -> Set<u32> {
    lines.dom().filter(|l: u32| spans(node, l))
}

/// The measured lines that no node of `nodes` spans.
pub open spec fn lines_outside(lines: Map<u32, u64>, nodes: Seq<Symbol>) -> Set<u32> {
    lines.dom().filter(|l: u32| !some_spans(nodes, l))
}

/// Those of the lines `chosen` that were hit.
pub open spec fn lines_hit(lines: Map<u32, u64>, chosen: Set<u32>) -> Set<u32> {
    chosen.filter(|l: u32| lines[l] > 0)
}

/// The binding of the measured lines `chosen` of the row `row` to `id`: how many they are, how
/// many of them were hit, and whether these are less than half.
pub open spec fn bind_lines(
    workspace_key: Seq<char>,
    id: Seq<char>,
    row: FileRow,
    chosen: Set<u32>,
) -> Binding {
    let total = chosen.len() as int;
    let covered = lines_hit(row.1, chosen).len() as int;
    Binding {
        workspace_key,
        canonical_node_id: id,
        file_path: row.0,
        total_lines: total,
        covered_lines: covered,
        is_blindspot: 2 * covered < total,
        updated_at: Seq::empty(),
    }
}

/// The counts of a binding: not negative, and no more lines covered than there are.
pub open spec fn sound_counts(b: Binding) -> bool {
    0 <= b.covered_lines <= b.total_lines
}

/// A node with the number of the row that it belongs to.
pub type Candidate = (int, Symbol);

/// The nodes that belong to the first `k` rows, row by row.
pub open spec fn candidates(nodes: Seq<Symbol>, rows: Seq<FileRow>, k: nat) -> Seq<Candidate>
    decreases k,
{
    if k == 0 {
        Seq::empty()
    } else {
        candidates(nodes, rows, (k - 1) as nat) + nodes_of(nodes, rows, k - 1).map_values(
            |n: Symbol| (k - 1, n),
        )
    }
}

/// Lines in the range of the candidate were measured.
pub open spec fn has_lines(c: Candidate, rows: Seq<FileRow>) -> bool {
    lines_inside(rows[c.0].1, c.1).len() > 0
}

/// Candidate `a` goes before candidate `b`: its row comes first, or in one row its first line,
/// or with one first line its last line.
pub open spec fn goes_before(a: Candidate, b: Candidate) -> bool {
    ||| a.0 < b.0
    ||| a.0 == b.0 && a.1.start_line < b.1.start_line
    ||| a.0 == b.0 && a.1.start_line == b.1.start_line && a.1.end_line < b.1.end_line
}

/// Among the first `n` candidates, `k` is the one to be bound under its id: it has measured
/// lines, no other one with its id and measured lines goes before it, and it is the first of
/// those that have its place.
pub open spec fn wins(found: Seq<Candidate>, rows: Seq<FileRow>, k: int, n: int) -> bool {
    &&& 0 <= k < n
    &&& has_lines(found[k], rows)
    &&& forall|j: int|
        0 <= j < n && found[j].1.id == found[k].1.id && has_lines(found[j], rows) ==> !goes_before(
            #[trigger] found[j],
            found[k],
        ) && (j < k ==> goes_before(found[k], found[j]))
}

/// Candidate `k` is bound.
pub open spec fn is_bound(found: Seq<Candidate>, rows: Seq<FileRow>, k: int) -> bool {
    wins(found, rows, k, found.len() as int)
}

/// The binding of a candidate to the lines in its range.
pub open spec fn candidate_binding(
    candidate: Candidate,
    rows: Seq<FileRow>,
    workspace_key: Seq<char>,
) -> Binding {
    let (i, node) = candidate;
    bind_lines(workspace_key, node.id, rows[i], lines_inside(rows[i].1, node))
}

/// The bindings of those of the first `k` candidates that are bound.
pub open spec fn bound_among(
    found: Seq<Candidate>,
    rows: Seq<FileRow>,
    workspace_key: Seq<char>,
    k: nat,
) -> Seq<Binding>
    decreases k,
{
    if k == 0 {
        Seq::empty()
    } else {
        let done = bound_among(found, rows, workspace_key, (k - 1) as nat);
        if is_bound(found, rows, k - 1) {
            done.push(candidate_binding(found[k - 1], rows, workspace_key))
        } else {
            done
        }
    }
}

/// One binding for each id that a candidate with measured lines has.
pub open spec fn node_bindings(
    found: Seq<Candidate>,
    rows: Seq<FileRow>,
    workspace_key: Seq<char>,
) -> Seq<Binding> {
    bound_among(found, rows, workspace_key, found.len())
}

/// The id under which the lines of `path` outside all nodes are bound.
pub open spec fn file_level_id(path: Seq<char>) -> Seq<char> {
    "file:"@ + path
}

/// One binding for each of the first `k` rows that some node belongs to and that has a
/// measured line outside its nodes.
pub open spec fn file_bindings(
    nodes: Seq<Symbol>,
    rows: Seq<FileRow>,
    workspace_key: Seq<char>,
    k: nat,
) -> Seq<Binding>
    decreases k,
{
    if k == 0 {
        Seq::empty()
    } else {
        let row = rows[k - 1];
        let group = nodes_of(nodes, rows, k - 1);
        let chosen = lines_outside(row.1, group);
        let done = file_bindings(nodes, rows, workspace_key, (k - 1) as nat);
        if group.len() == 0 || chosen.len() == 0 {
            done
        } else {
            done.push(bind_lines(workspace_key, file_level_id(row.0), row, chosen))
        }
    }
}

/// The bindings of a coverage table to the nodes of a graph: first those of nodes, then those
/// of files.
pub open spec fn resolved(
    nodes: Seq<Symbol>,
    rows: Seq<FileRow>,
    workspace_key: Seq<char>,
) -> Seq<Binding> {
    node_bindings(candidates(nodes, rows, rows.len()), rows, workspace_key) + file_bindings(
        nodes,
        rows,
        workspace_key,
        rows.len(),
    )
}

// ---------------------------------------------------------------------------
// Counting
// ---------------------------------------------------------------------------

/// The numbers of measured and of hit lines.
struct Tally {
    total: u64,
    covered: u64,
}

/// There are no more than 2^32 line numbers.
proof fn line_numbers_are_few(lines: Set<u32>)
    requires
        lines.finite(),
    ensures
        lines.len() <= 0x1_0000_0000,
{
    let f = |l: u32| l as int;
    let all = vstd::set_lib::set_int_range(0, 0x1_0000_0000);
    vstd::set_lib::lemma_int_range(0, 0x1_0000_0000);
    let image = lines.map(f);
    vstd::set_lib::lemma_map_size(lines, image, f);
    assert(image.subset_of(all));
    vstd::set_lib::lemma_len_subset(image, all);
}

/// Whether some of the nodes at the positions `group` spans `line`.
fn spanned(nodes: &Vec<Node>, group: &Vec<usize>, line: u32) -> (yes: bool)
    requires
        forall|i: int| 0 <= i < group@.len() ==> #[trigger] group@[i] < nodes@.len(),
    ensures
        yes == some_spans(picked(nodes@, group@), line),
{
    let ghost chosen = picked(nodes@, group@);
    for i in 0..group.len()
        invariant
            chosen == picked(nodes@, group@),
            forall|i: int| 0 <= i < group@.len() ==> #[trigger] group@[i] < nodes@.len(),
            forall|j: int| 0 <= j < i ==> !spans(#[trigger] chosen[j], line),
    {
        let node = &nodes[group[i]];
        assert(chosen[i as int] == node@);
        if node.start_line <= line as usize && line as usize <= node.end_line {
            assert(spans(chosen[i as int], line));
            return true;
        }
    }
    false
}

/// The symbols at the positions `group`.
spec fn picked(nodes: Seq<Node>, group: Seq<usize>) -> Seq<Symbol> {
    group.map_values(|i: usize| nodes[i as int]@)
}

/// Counts the measured lines that nodes at the positions `group` span, or that none spans.
fn tally(lines: &HashMap<u32, u64>, nodes: &Vec<Node>, group: &Vec<usize>, inside: bool) -> (out:
    Tally)
    requires
        forall|i: int| 0 <= i < group@.len() ==> #[trigger] group@[i] < nodes@.len(),
    ensures
        ({
            let chosen = lines@.dom().filter(
                |l: u32| some_spans(picked(nodes@, group@), l) == inside,
            );
            &&& out.total == chosen.len()
            &&& out.covered == lines_hit(lines@, chosen).len()
            &&& out.covered <= out.total <= 0x1_0000_0000
        }),
{
    let ghost symbols_picked = picked(nodes@, group@);
    let ghost wanted = |l: u32| some_spans(symbols_picked, l) == inside;
    let ghost mut chosen: Set<u32> = Set::empty();
    let ghost mut hit: Set<u32> = Set::empty();
    let mut total: u64 = 0;
    let mut covered: u64 = 0;
    for (line, hits) in it: lines.iter()
        invariant
            symbols_picked == picked(nodes@, group@),
            forall|i: int| 0 <= i < group@.len() ==> #[trigger] group@[i] < nodes@.len(),
            wanted == (|l: u32| some_spans(symbols_picked, l) == inside),
            it.seq().no_duplicates(),
            it.seq().len() == lines@.dom().len(),
            forall|i: int|
                0 <= i < it.seq().len() ==> lines@.contains_key(*(#[trigger] it.seq()[i]).0)
                    && lines@[*it.seq()[i].0] == *it.seq()[i].1,
            forall|l: u32|
                lines@.contains_key(l) ==> it.seq().contains((&l, &#[trigger] lines@[l])),
            chosen.finite(),
            hit.finite(),
            total == chosen.len(),
            covered == hit.len(),
            covered <= total,
            forall|l: u32| #[trigger]
                chosen.contains(l) <==> wanted(l) && exists|i: int|
                    0 <= i < it.index() && *(#[trigger] it.seq()[i]).0 == l,
            forall|l: u32| #[trigger] hit.contains(l) <==> chosen.contains(l) && lines@[l] > 0,
    {
        let ghost k = it.index() as int;
        assert(it.seq()[k] == (line, hits));
        proof {
            line_numbers_are_few(chosen);
            assert(!chosen.contains(*line)) by {
                if chosen.contains(*line) {
                    let i = choose|i: int| 0 <= i < k && *(#[trigger] it.seq()[i]).0 == *line;
                    assert(it.seq()[i] == it.seq()[k]);
                }
            }
        }
        let ghost chosen_before = chosen;
        if spanned(nodes, group, *line) == inside {
            total += 1;
            if *hits > 0 {
                covered += 1;
            }
            proof {
                chosen = chosen.insert(*line);
                if *hits > 0 {
                    hit = hit.insert(*line);
                }
            }
        }
        proof {
            assert forall|l: u32| #[trigger] chosen.contains(l) <==> wanted(l) && exists|i: int|
                0 <= i < k + 1 && *(#[trigger] it.seq()[i]).0 == l by {
                if chosen_before.contains(l) {
                    let i = choose|i: int| 0 <= i < k && *(#[trigger] it.seq()[i]).0 == l;
                    assert(*it.seq()[i].0 == l);
                }
                if l == *line {
                    assert(*it.seq()[k].0 == l);
                }
            }
        }
    }
    proof {
        let goal = lines@.dom().filter(|l: u32| some_spans(picked(nodes@, group@), l) == inside);
        assert forall|l: u32| chosen.contains(l) <==> goal.contains(l) by {
            if goal.contains(l) {
                let hits = lines@[l];
                assert(wanted(l));
            }
        }
        assert(chosen =~= goal);
        assert(hit =~= lines_hit(lines@, goal));
        line_numbers_are_few(chosen);
    }
    Tally { total, covered }
}

// ---------------------------------------------------------------------------
// Binding
// ---------------------------------------------------------------------------

/// For each file of the table the positions of the nodes that belong to it.
fn group_nodes_by_coverage_file(nodes: &Vec<Node>, files: &FileTable) -> (groups: Vec<Vec<usize>>)
    ensures
        grouped(nodes@, files@, groups@),
{
    let n = files.len();
    let ghost rows = files@;
    let mut paths: Vec<Vec<char>> = Vec::new();
    let mut groups: Vec<Vec<usize>> = Vec::new();
    for f in 0..n
        invariant
            n == files@.len(),
            rows == files@,
            paths@.len() == f,
            groups@.len() == f,
            forall|g: int| 0 <= g < f ==> (#[trigger] paths@[g])@ == rows[g].0,
            forall|g: int| 0 <= g < f ==> (#[trigger] groups@[g])@.len() == 0,
    {
        paths.push(to_chars(files.entry(f).path.as_str()));
        groups.push(Vec::new());
    }
    let ghost all = crate::graph::symbols(nodes@);
    assert forall|g: int| 0 <= g < n implies picked(nodes@, (#[trigger] groups@[g])@) == nodes_of(
        all.take(0),
        rows,
        g,
    ) by {
        reveal(Seq::filter);
        assert(picked(nodes@, groups@[g]@) =~= nodes_of(all.take(0), rows, g));
    }
    for k in 0..nodes.len()
        invariant
            n == rows.len(),
            all == crate::graph::symbols(nodes@),
            paths@.len() == n,
            groups@.len() == n,
            forall|g: int| 0 <= g < n ==> (#[trigger] paths@[g])@ == rows[g].0,
            forall|g: int| #![trigger groups@[g]]
                0 <= g < n ==> (forall|i: int|
                    0 <= i < groups@[g]@.len() ==> #[trigger] groups@[g]@[i] < nodes@.len())
                    && picked(nodes@, groups@[g]@) == nodes_of(all.take(k as int), rows, g),
    {
        let source = to_chars(nodes[k].source_file.as_str());
        let ghost node = nodes@[k as int]@;
        let mut f: usize = 0;
        while f < n && !chars_match(source.as_slice(), paths[f].as_slice())
            invariant
                f <= n,
                n == rows.len(),
                paths@.len() == n,
                source@ == node.source_file,
                forall|g: int| 0 <= g < n ==> (#[trigger] paths@[g])@ == rows[g].0,
                forall|g: int| 0 <= g < f ==> !same_file(node.source_file, #[trigger] rows[g].0),
            decreases n - f,
        {
            assert(paths@[f as int]@ == rows[f as int].0);
            f += 1;
        }
        let ghost before = groups@;
        if f < n {
            assert(paths@[f as int]@ == rows[f as int].0);
            assert(belongs_to(node.source_file, rows, f as int));
            groups[f].push(k);
        }
        assert forall|g: int| #![trigger groups@[g]] 0 <= g < n implies (forall|i: int|
            0 <= i < groups@[g]@.len() ==> #[trigger] groups@[g]@[i] < nodes@.len()) && picked(
            nodes@,
            groups@[g]@,
        ) == nodes_of(all.take(k + 1), rows, g) by {
            reveal(Seq::filter);
            let b = before[g];
            assert(all.take(k + 1).drop_last() =~= all.take(k as int));
            assert(all.take(k + 1).last() == node);
            if g == f {
                assert(groups@[g]@ == before[g]@.push(k));
                assert(picked(nodes@, groups@[g]@) =~= picked(nodes@, before[g]@).push(node));
            } else {
                assert(groups@[g] == before[g]);
                if belongs_to(node.source_file, rows, g) {
                    if f < g {
                        assert(same_file(node.source_file, rows[f as int].0));
                    } else {
                        assert(!same_file(node.source_file, rows[g].0));
                    }
                }
            }
        }
    }
    assert(all.take(nodes@.len() as int) =~= all);
    groups
}

/// `groups` holds for each row the positions of its nodes.
spec fn grouped(nodes: Seq<Node>, rows: Seq<FileRow>, groups: Seq<Vec<usize>>) -> bool {
    &&& groups.len() == rows.len()
    &&& forall|g: int| #![trigger groups[g]]
        0 <= g < groups.len() ==> (forall|i: int|
            0 <= i < groups[g]@.len() ==> #[trigger] groups[g]@[i] < nodes.len()) && picked(
            nodes,
            groups[g]@,
        ) == nodes_of(crate::graph::symbols(nodes), rows, g)
}

/// The binding that a tally gives.
fn make_binding(workspace_key: &str, id: String, path: &str, counts: Tally) -> (out:
    CoverageBinding)
    requires
        counts.covered <= counts.total <= 0x1_0000_0000,
    ensures
        out@ == (Binding {
            workspace_key: workspace_key@,
            canonical_node_id: id@,
            file_path: path@,
            total_lines: counts.total as int,
            covered_lines: counts.covered as int,
            is_blindspot: 2 * counts.covered < counts.total,
            updated_at: Seq::empty(),
        }),
{
    CoverageBinding {
        workspace_key: workspace_key.to_owned(),
        canonical_node_id: id,
        file_path: path.to_owned(),
        total_lines: counts.total as i64,
        covered_lines: counts.covered as i64,
        is_blindspot: 2 * counts.covered < counts.total,
        updated_at: String::new(),
    }
}

/// A candidate: the positions of its row and of its node, and its counts.
struct Found {
    row: usize,
    at: usize,
    counts: Tally,
}

/// `entry` stands for the candidate `c`.
spec fn stands_for(entry: Found, nodes: Seq<Node>, rows: Seq<FileRow>, c: Candidate) -> bool {
    let chosen = lines_inside(rows[c.0].1, c.1);
    &&& entry.row == c.0 && entry.row < rows.len()
    &&& entry.at < nodes.len() && nodes[entry.at as int]@ == c.1
    &&& entry.counts.total == chosen.len()
    &&& entry.counts.covered == lines_hit(rows[c.0].1, chosen).len()
    &&& entry.counts.covered <= entry.counts.total <= 0x1_0000_0000
}

/// `entries` stand for the candidates `found`.
spec fn all_stand_for(
    entries: Seq<Found>,
    nodes: Seq<Node>,
    rows: Seq<FileRow>,
    found: Seq<Candidate>,
) -> bool {
    &&& entries.len() == found.len()
    &&& forall|i: int|
        0 <= i < entries.len() ==> stands_for(#[trigger] entries[i], nodes, rows, found[i])
}

/// Counts the measured lines in the range of a node.
fn tally_node(nodes: &Vec<Node>, at: usize, lines: &HashMap<u32, u64>) -> (counts: Tally)
    requires
        at < nodes@.len(),
    ensures
        ({
            let chosen = lines_inside(lines@, nodes@[at as int]@);
            &&& counts.total == chosen.len()
            &&& counts.covered == lines_hit(lines@, chosen).len()
            &&& counts.covered <= counts.total <= 0x1_0000_0000
        }),
{
    let mut one: Vec<usize> = Vec::new();
    one.push(at);
    let counts = tally(lines, nodes, &one, true);
    proof {
        let node = nodes@[at as int]@;
        let ps = picked(nodes@, one@);
        assert(ps =~= seq![node]);
        assert forall|l: u32| some_spans(ps, l) == spans(node, l) by {
            if spans(node, l) {
                assert(spans(ps[0], l));
            }
        }
        assert(lines@.dom().filter(|l: u32| some_spans(ps, l) == true) =~= lines_inside(
            lines@,
            node,
        ));
    }
    counts
}

/// Lists the candidates with their counts, row by row.
fn list_candidates(nodes: &Vec<Node>, groups: &Vec<Vec<usize>>, files: &FileTable) -> (out: Vec<
    Found,
>)
    requires
        grouped(nodes@, files@, groups@),
    ensures
        all_stand_for(
            out@,
            nodes@,
            files@,
            candidates(crate::graph::symbols(nodes@), files@, files@.len()),
        ),
{
    let ghost all = crate::graph::symbols(nodes@);
    let ghost rows = files@;
    let mut out: Vec<Found> = Vec::new();
    for f in 0..groups.len()
        invariant
            grouped(nodes@, rows, groups@),
            all == crate::graph::symbols(nodes@),
            rows == files@,
            all_stand_for(out@, nodes@, rows, candidates(all, rows, f as nat)),
    {
        let entry = files.entry(f);
        let group = &groups[f];
        let ghost before = candidates(all, rows, f as nat);
        let ghost members = nodes_of(all, rows, f as int).map_values(|n: Symbol| (f as int, n));
        assert(candidates(all, rows, (f + 1) as nat) == before + members);
        assert(before + members.take(0) =~= before);
        for j in 0..group.len()
            invariant
                grouped(nodes@, rows, groups@),
                rows == files@,
                f < groups@.len(),
                *group == groups@[f as int],
                entry@ == rows[f as int],
                all == crate::graph::symbols(nodes@),
                members == nodes_of(all, rows, f as int).map_values(|n: Symbol| (f as int, n)),
                all_stand_for(out@, nodes@, rows, before + members.take(j as int)),
        {
            let at = group[j];
            assert(groups@[f as int]@[j as int] < nodes@.len());
            let ghost c: Candidate = (f as int, nodes@[at as int]@);
            assert(picked(nodes@, group@)[j as int] == nodes@[at as int]@);
            assert(members[j as int] == c);
            let ghost earlier = out@;
            out.push(Found { row: f, at, counts: tally_node(nodes, at, &entry.lines) });
            assert(before + members.take(j + 1) =~= (before + members.take(j as int)).push(c));
            assert forall|i: int| 0 <= i < out@.len() implies stands_for(
                #[trigger] out@[i],
                nodes@,
                rows,
                (before + members.take(j + 1))[i],
            ) by {
                if i < earlier.len() {
                    assert(out@[i] == earlier[i]);
                    assert(stands_for(
                        earlier[i],
                        nodes@,
                        rows,
                        (before + members.take(j as int))[i],
                    ));
                }
            }
        }
        assert(members.take(group@.len() as int) =~= members);
    }
    out
}

/// Whether the candidate that `a` stands for goes before the one that `b` stands for.
fn entry_before(nodes: &Vec<Node>, a: &Found, b: &Found) -> (yes: bool)
    requires
        a.at < nodes@.len(),
        b.at < nodes@.len(),
    ensures
        yes == goes_before(
            (a.row as int, nodes@[a.at as int]@),
            (b.row as int, nodes@[b.at as int]@),
        ),
{
    let x = &nodes[a.at];
    let y = &nodes[b.at];
    a.row < b.row || (a.row == b.row && (x.start_line < y.start_line || (x.start_line
        == y.start_line && x.end_line < y.end_line)))
}

/// `winners` holds for each id of the first `n` candidates with measured lines the one that
/// wins.
spec fn holds_winners(
    winners: Map<Seq<char>, usize>,
    found: Seq<Candidate>,
    rows: Seq<FileRow>,
    n: int,
) -> bool {
    &&& forall|id: Seq<char>| #[trigger]
        winners.contains_key(id) ==> wins(found, rows, winners[id] as int, n)
            && found[winners[id] as int].1.id == id
    &&& forall|j: int|
        0 <= j < n && has_lines(#[trigger] found[j], rows) ==> winners.contains_key(found[j].1.id)
}

/// Finds for each id the candidate that is bound under it.
fn find_winners(nodes: &Vec<Node>, entries: &Vec<Found>, files: &FileTable) -> (winners:
    StringHashMap<usize>)
    requires
        all_stand_for(
            entries@,
            nodes@,
            files@,
            candidates(crate::graph::symbols(nodes@), files@, files@.len()),
        ),
    ensures
        holds_winners(
            winners@,
            candidates(crate::graph::symbols(nodes@), files@, files@.len()),
            files@,
            entries@.len() as int,
        ),
{
    let ghost rows = files@;
    let ghost found = candidates(crate::graph::symbols(nodes@), rows, rows.len());
    let mut winners: StringHashMap<usize> = StringHashMap::new();
    for k in 0..entries.len()
        invariant
            all_stand_for(entries@, nodes@, rows, found),
            holds_winners(winners@, found, rows, k as int),
    {
        let entry = &entries[k];
        let ghost c = found[k as int];
        assert(stands_for(entries@[k as int], nodes@, rows, c));
        let ghost before = winners@;
        let ghost id = c.1.id;
        if entry.counts.total > 0 {
            let node = &nodes[entry.at];
            let better = match winners.get(node.id.as_str()) {
                Some(w) => {
                    assert(wins(found, rows, before[id] as int, k as int));
                    assert(stands_for(entries@[*w as int], nodes@, rows, found[*w as int]));
                    entry_before(nodes, entry, &entries[*w])
                },
                None => true,
            };
            if better {
                winners.insert(node.id.clone(), k);
            }
        }
        proof {
            let after = winners@;
            assert forall|x: Seq<char>| #[trigger] after.contains_key(x) implies wins(
                found,
                rows,
                after[x] as int,
                k + 1,
            ) && found[after[x] as int].1.id == x by {
                if x == id && after[x] == k {
                    assert forall|j: int|
                        0 <= j < k + 1 && found[j].1.id == c.1.id && has_lines(
                            found[j],
                            rows,
                        ) implies !goes_before(#[trigger] found[j], c) && (j < k ==> goes_before(
                        c,
                        found[j],
                    )) by {
                        if j < k {
                            assert(before.contains_key(found[j].1.id));
                            let w = before[id] as int;
                            assert(wins(found, rows, w, k as int));
                            assert(!goes_before(found[j], found[w]));
                            assert(goes_before(c, found[w]));
                        }
                    }
                } else {
                    assert(before.contains_key(x) && before[x] == after[x]);
                }
            }
            assert forall|j: int|
                0 <= j < k + 1 && has_lines(#[trigger] found[j], rows) implies after.contains_key(
                found[j].1.id,
            ) by {
                if j < k {
                    assert(before.contains_key(found[j].1.id));
                }
            }
        }
    }
    winners
}

/// Binds under each id the first in place of the nodes that belong to a file and have measured
/// lines.
fn resolve_nodes(
    nodes: &Vec<Node>,
    groups: &Vec<Vec<usize>>,
    files: &FileTable,
    workspace_key: &str,
) -> (out: Vec<CoverageBinding>)
    requires
        grouped(nodes@, files@, groups@),
    ensures
        crate::registry::bindings(out@) == node_bindings(
            candidates(crate::graph::symbols(nodes@), files@, files@.len()),
            files@,
            workspace_key@,
        ),
        forall|i: int| 0 <= i < out@.len() ==> sound_counts(#[trigger] out@[i]@),
{
    let ghost rows = files@;
    let ghost found = candidates(crate::graph::symbols(nodes@), rows, rows.len());
    let entries = list_candidates(nodes, groups, files);
    let winners = find_winners(nodes, &entries, files);
    let mut out: Vec<CoverageBinding> = Vec::new();
    assert(crate::registry::bindings(out@) =~= Seq::<Binding>::empty());
    for k in 0..entries.len()
        invariant
            rows == files@,
            all_stand_for(entries@, nodes@, rows, found),
            holds_winners(winners@, found, rows, found.len() as int),
            crate::registry::bindings(out@) == bound_among(found, rows, workspace_key@, k as nat),
            forall|i: int| 0 <= i < out@.len() ==> sound_counts(#[trigger] out@[i]@),
    {
        let entry = &entries[k];
        let ghost c = found[k as int];
        assert(stands_for(entries@[k as int], nodes@, rows, c));
        let node = &nodes[entry.at];
        let chosen = match winners.get(node.id.as_str()) {
            Some(w) => *w == k,
            None => false,
        };
        assert(chosen == is_bound(found, rows, k as int)) by {
            if is_bound(found, rows, k as int) {
                assert(has_lines(found[k as int], rows));
                let w = winners@[c.1.id] as int;
                assert(wins(found, rows, w, found.len() as int));
                assert(found[w].1.id == c.1.id);
                assert(!goes_before(found[w], c) && !goes_before(c, found[w]));
            }
        }
        if chosen {
            let file = files.entry(entry.row);
            let counts = Tally { total: entry.counts.total, covered: entry.counts.covered };
            let ghost before = out@;
            out.push(make_binding(workspace_key, node.id.clone(), file.path.as_str(), counts));
            assert(crate::registry::bindings(out@) =~= crate::registry::bindings(before).push(
                out@.last()@,
            ));
        }
    }
    out
}

/// Binds, for each file that some node belongs to, the measured lines outside its nodes.
fn resolve_file_level(
    nodes: &Vec<Node>,
    groups: &Vec<Vec<usize>>,
    files: &FileTable,
    workspace_key: &str,
) -> (out: Vec<CoverageBinding>)
    requires
        grouped(nodes@, files@, groups@),
    ensures
        crate::registry::bindings(out@) == file_bindings(
            crate::graph::symbols(nodes@),
            files@,
            workspace_key@,
            files@.len(),
        ),
        forall|i: int| 0 <= i < out@.len() ==> sound_counts(#[trigger] out@[i]@),
{
    let ghost all = crate::graph::symbols(nodes@);
    let ghost rows = files@;
    let mut out: Vec<CoverageBinding> = Vec::new();
    assert(crate::registry::bindings(out@) =~= Seq::<Binding>::empty());
    for f in 0..groups.len()
        invariant
            grouped(nodes@, rows, groups@),
            all == crate::graph::symbols(nodes@),
            rows == files@,
            crate::registry::bindings(out@) == file_bindings(all, rows, workspace_key@, f as nat),
            forall|i: int| 0 <= i < out@.len() ==> sound_counts(#[trigger] out@[i]@),
    {
        let entry = files.entry(f);
        let group = &groups[f];
        assert(picked(nodes@, groups@[f as int]@) == nodes_of(all, rows, f as int));
        if group.len() > 0 {
            let counts = tally(&entry.lines, nodes, group, false);
            proof {
                let ps = picked(nodes@, group@);
                let chosen = entry.lines@.dom().filter(|l: u32| some_spans(ps, l) == false);
                assert(chosen =~= lines_outside(rows[f as int].1, nodes_of(all, rows, f as int)));
            }
            if counts.total > 0 {
                let mut id = String::new();
                id.append("file:");
                id.append(entry.path.as_str());
                assert(id@ =~= file_level_id(rows[f as int].0));
                let ghost before = out@;
                out.push(make_binding(workspace_key, id, entry.path.as_str(), counts));
                assert(crate::registry::bindings(out@) =~= crate::registry::bindings(before).push(
                    out@.last()@,
                ));
            }
        }
    }
    out
}

/// The bindings of a coverage table to the nodes of a graph, those of nodes in front, and how
/// many these are.
#[derive(Debug)]
pub struct Resolution {
    pub bindings: Vec<CoverageBinding>,
    pub bound_nodes: usize,
}

/// Binds line coverage to the nodes of a graph, and counts the nodes that are bound.
#[must_use]
pub fn resolve(graph: &GraphOutput, coverage: &CoverageData, workspace_key: &str) -> (out:
    Resolution)
    ensures
        crate::registry::bindings(out.bindings@) == resolved(
            graph@.nodes,
            coverage.files@,
            workspace_key@,
        ),
        out.bound_nodes == node_bindings(
            candidates(graph@.nodes, coverage.files@, coverage.files@.len()),
            coverage.files@,
            workspace_key@,
        ).len(),
        out.bindings@.len() == resolved(graph@.nodes, coverage.files@, workspace_key@).len(),
        forall|i: int|
            0 <= i < out.bindings@.len() ==> (#[trigger] out.bindings@[i])@ == resolved(
                graph@.nodes,
                coverage.files@,
                workspace_key@,
            )[i],
        forall|i: int|
            0 <= i < out.bindings@.len() ==> sound_counts(#[trigger] out.bindings@[i]@),
{
    let groups = group_nodes_by_coverage_file(&graph.nodes, &coverage.files);
    let mut bindings = resolve_nodes(&graph.nodes, &groups, &coverage.files, workspace_key);
    let bound_nodes = bindings.len();
    let mut file_level = resolve_file_level(&graph.nodes, &groups, &coverage.files, workspace_key);
    let ghost first = bindings@;
    let ghost second = file_level@;
    bindings.append(&mut file_level);
    assert(crate::registry::bindings(bindings@) =~= crate::registry::bindings(first)
        + crate::registry::bindings(second));
    assert forall|i: int| 0 <= i < bindings@.len() implies (#[trigger] bindings@[i])@ == resolved(
        graph@.nodes,
        coverage.files@,
        workspace_key@,
    )[i] by {
        assert(crate::registry::bindings(bindings@)[i] == bindings@[i]@);
    }
    Resolution { bindings, bound_nodes }
}

/// Binds line coverage to the nodes of a graph.
///
/// A node without measured lines gets no binding. The bindings carry no time yet.
#[must_use]
pub fn resolve_coverage(graph: &GraphOutput, coverage: &CoverageData, workspace_key: &str) -> (out:
    Vec<CoverageBinding>)
    ensures
        crate::registry::bindings(out@) == resolved(
            graph@.nodes,
            coverage.files@,
            workspace_key@,
        ),
        out@.len() == resolved(graph@.nodes, coverage.files@, workspace_key@).len(),
        forall|i: int|
            0 <= i < out@.len() ==> (#[trigger] out@[i])@ == resolved(
                graph@.nodes,
                coverage.files@,
                workspace_key@,
            )[i],
        forall|i: int| 0 <= i < out@.len() ==> sound_counts(#[trigger] out@[i]@),
{
    resolve(graph, coverage, workspace_key).bindings
}

} // verus!
