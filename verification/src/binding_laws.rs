//! What holds of all matches and bindings that the resolver makes.
use vstd::prelude::*;

use crate::file_table::FileRow;
use crate::graph::Symbol;
use crate::registry::Binding;
use crate::resolver::Candidate;

verus! {

// ---------------------------------------------------------------------------
// Which paths name one file
// ---------------------------------------------------------------------------

/// A path names the file that its tail names, whichever of the two is the graph's, if the tail
/// starts a component and has a slash (a leading `./` of the graph's path apart).
pub proof fn a_tail_names_the_file(prefix: Seq<char>, tail: Seq<char>)
    requires
        crate::resolver::at_component(prefix),
        tail.contains('/'),
    ensures
        crate::resolver::same_file(prefix + tail, tail),
        crate::resolver::without_dot(tail).contains('/') ==> crate::resolver::same_file(
            tail,
            prefix + tail,
        ),
{
    reveal_strlit("./");
    let whole = prefix + tail;
    assert(whole.take(whole.len() - tail.len()) =~= prefix);
    assert(tail.is_suffix_of(whole)) by {
        assert(whole.skip(whole.len() - tail.len()) =~= tail);
    }
    let clean = crate::resolver::without_dot(tail);
    if clean.contains('/') && whole != tail {
        assert(prefix.len() > 0) by {
            if prefix.len() == 0 {
                assert(whole =~= tail);
            }
        }
        let front = whole.take(whole.len() - clean.len());
        assert(clean.is_suffix_of(whole)) by {
            assert(clean =~= whole.skip(whole.len() - clean.len()));
        }
        if clean == tail {
            assert(front =~= prefix);
        } else {
            assert(front =~= prefix + "./"@);
            assert(front.last() == '/');
        }
    }
}

/// A leading `./` of the graph's path is no obstacle: `./` and a tail with a slash name the
/// file that any directory and the tail name.
pub proof fn a_leading_dot_is_no_obstacle(prefix: Seq<char>, tail: Seq<char>)
    requires
        crate::resolver::at_component(prefix),
        tail.contains('/'),
    ensures
        crate::resolver::same_file("./"@ + tail, prefix + tail),
{
    reveal_strlit("./");
    let want = prefix + tail;
    assert(crate::resolver::without_dot("./"@ + tail) =~= tail);
    assert(tail =~= want.subrange(want.len() - tail.len(), want.len() as int));
    assert(want.take(want.len() - tail.len()) =~= prefix);
}

/// A path without a slash is matched by itself alone.
pub proof fn bare_names_match_only_themselves(node_path: Seq<char>, want: Seq<char>)
    requires
        !want.contains('/'),
    ensures
        crate::resolver::same_file(node_path, want) == (node_path == want),
{
    let clean = crate::resolver::without_dot(node_path);
    if clean.contains('/') && clean.is_suffix_of(want) {
        let i = choose|i: int| 0 <= i < clean.len() && clean[i] == '/';
        assert(want[want.len() - clean.len() + i] == '/');
    }
}

/// Paths that name one file are equal, or the source's path has a slash and the graph's path is
/// some prefix `p` and then the source's path, or the graph's path, less a leading `./`, has a
/// slash and the source's path is some prefix `p` and then that; the prefix is empty or ends
/// with a slash.
pub proof fn paths_match_only_by_their_tails(node_path: Seq<char>, want: Seq<char>) -> (p: Seq<
    char,
>)
    requires
        crate::resolver::same_file(node_path, want),
    ensures
        ({
            let clean = if node_path.len() >= 2 && node_path[0] == '.' && node_path[1] == '/' {
                node_path.skip(2)
            } else {
                node_path
            };
            &&& p.len() == 0 || p.last() == '/'
            &&& {
                ||| node_path == want
                ||| want.contains('/') && node_path == p + want
                ||| clean.contains('/') && want == p + clean
            }
        }),
{
    reveal_strlit("./");
    let clean = if node_path.len() >= 2 && node_path[0] == '.' && node_path[1] == '/' {
        node_path.skip(2)
    } else {
        node_path
    };
    leading_dots(node_path);
    if node_path == want {
        Seq::empty()
    } else if crate::resolver::is_tail_of(want, node_path) {
        let p = node_path.take(node_path.len() - want.len());
        assert(node_path =~= p + want);
        p
    } else {
        let p = want.take(want.len() - clean.len());
        assert(want =~= p + clean);
        p
    }
}

/// A leading `./` is a point and then a slash.
proof fn leading_dots(path: Seq<char>)
    ensures
        crate::resolver::without_dot(path) == if path.len() >= 2 && path[0] == '.' && path[1]
            == '/' {
            path.skip(2)
        } else {
            path
        },
{
    reveal_strlit("./");
    if path.len() >= 2 && path[0] == '.' && path[1] == '/' {
        assert("./"@ =~= path.subrange(0, 2));
    }
    if "./"@.is_prefix_of(path) {
        assert("./"@[0] == path[0] && "./"@[1] == path[1]);
    }
}

/// Paths that are equal, or one of which is the other behind a prefix that is empty or ends with
/// a slash, name one file, if the shorter one has a slash; of the graph's path a leading `./`
/// may be left out.
pub proof fn a_prefix_more_names_the_file(
    node_path: Seq<char>,
    want: Seq<char>,
    p: Seq<char>,
)
    requires
        p.len() == 0 || p.last() == '/',
        ({
            let clean = if node_path.len() >= 2 && node_path[0] == '.' && node_path[1] == '/' {
                node_path.skip(2)
            } else {
                node_path
            };
            ||| node_path == want
            ||| want.contains('/') && node_path == p + want
            ||| clean.contains('/') && want == p + clean
        }),
    ensures
        crate::resolver::same_file(node_path, want),
{
    leading_dots(node_path);
    let clean = crate::resolver::without_dot(node_path);
    if node_path != want {
        if want.contains('/') && node_path == p + want {
            assert(node_path.take(node_path.len() - want.len()) =~= p);
            assert(want =~= node_path.subrange(
                node_path.len() - want.len(),
                node_path.len() as int,
            ));
        } else {
            assert(want.take(want.len() - clean.len()) =~= p);
            assert(clean =~= want.subrange(want.len() - clean.len(), want.len() as int));
        }
    }
}

/// Two different paths of one length match only if a leading `./` makes them so.
pub proof fn different_paths_of_one_length_do_not_match(node_path: Seq<char>, want: Seq<char>)
    requires
        node_path.len() == want.len(),
        node_path != want,
        !(node_path.len() >= 2 && node_path[0] == '.' && node_path[1] == '/'),
    ensures
        !crate::resolver::same_file(node_path, want),
{
    if crate::resolver::same_file(node_path, want) {
        let p = paths_match_only_by_their_tails(node_path, want);
        assert(p =~= Seq::<char>::empty());
        assert(p + want =~= want);
        assert(p + node_path =~= node_path);
    }
}

// ---------------------------------------------------------------------------
// Which bindings there are
// ---------------------------------------------------------------------------

/// The bindings of nodes are those of the bound candidates among the first ones.
proof fn bindings_among_the_first(
    found: Seq<Candidate>,
    rows: Seq<FileRow>,
    workspace_key: Seq<char>,
    n: nat,
    b: Binding,
)
    requires
        n <= found.len(),
    ensures
        crate::resolver::bound_among(found, rows, workspace_key, n).contains(b) <==> exists|k: int|
            k < n && #[trigger] crate::resolver::is_bound(found, rows, k) && b
                == crate::resolver::candidate_binding(found[k], rows, workspace_key),
    decreases n,
{
    if n > 0 {
        let last = n - 1;
        let done = crate::resolver::bound_among(found, rows, workspace_key, last as nat);
        let out = crate::resolver::bound_among(found, rows, workspace_key, n);
        bindings_among_the_first(found, rows, workspace_key, last as nat, b);
        let own = crate::resolver::candidate_binding(found[last], rows, workspace_key);
        if crate::resolver::is_bound(found, rows, last) {
            if done.contains(b) {
                let i = choose|i: int| 0 <= i < done.len() && done[i] == b;
                assert(out[i] == b);
            }
            if out.contains(b) && b != own {
                let i = choose|i: int| 0 <= i < out.len() && out[i] == b;
                assert(done[i] == b);
            }
            assert(out[done.len() as int] == own);
        }
        if exists|k: int|
            k < n && #[trigger] crate::resolver::is_bound(found, rows, k) && b
                == crate::resolver::candidate_binding(found[k], rows, workspace_key) {
            let k = choose|k: int|
                k < n && #[trigger] crate::resolver::is_bound(found, rows, k) && b
                    == crate::resolver::candidate_binding(found[k], rows, workspace_key);
            if k < last {
                assert(k < last && crate::resolver::is_bound(found, rows, k));
            }
        }
    }
}

/// The bindings of nodes are those of the bound candidates: those with measured lines in their
/// range that no other one with their id goes before. A node without measured lines gets none.
pub proof fn node_bindings_are_those_of_bound_nodes(
    found: Seq<Candidate>,
    rows: Seq<FileRow>,
    workspace_key: Seq<char>,
    b: Binding,
)
    ensures
        crate::resolver::node_bindings(found, rows, workspace_key).contains(b) <==> exists|k: int|
            #[trigger] crate::resolver::is_bound(found, rows, k) && b
                == crate::resolver::candidate_binding(found[k], rows, workspace_key),
{
    bindings_among_the_first(found, rows, workspace_key, found.len(), b);
    if exists|k: int|
        #[trigger] crate::resolver::is_bound(found, rows, k) && b
            == crate::resolver::candidate_binding(found[k], rows, workspace_key) {
        let k = choose|k: int|
            #[trigger] crate::resolver::is_bound(found, rows, k) && b
                == crate::resolver::candidate_binding(found[k], rows, workspace_key);
        assert(k < found.len() && crate::resolver::is_bound(found, rows, k));
    }
}

/// Of two different candidates with one id at most one is bound.
proof fn one_candidate_is_bound(found: Seq<Candidate>, rows: Seq<FileRow>, j: int, k: int)
    requires
        crate::resolver::is_bound(found, rows, j),
        crate::resolver::is_bound(found, rows, k),
        found[j].1.id == found[k].1.id,
    ensures
        j == k,
{
    assert(!crate::resolver::goes_before(found[j], found[k]));
    assert(!crate::resolver::goes_before(found[k], found[j]));
}

/// Some candidate wins under each id that has measured lines among the first ones.
proof fn some_candidate_wins(
    found: Seq<Candidate>,
    rows: Seq<FileRow>,
    id: Seq<char>,
    n: nat,
    x: int,
) -> (k: int)
    requires
        n <= found.len(),
        0 <= x < n,
        found[x].1.id == id,
        crate::resolver::has_lines(found[x], rows),
    ensures
        crate::resolver::wins(found, rows, k, n as int),
        found[k].1.id == id,
    decreases n,
{
    let last = n - 1;
    let own = found[last].1.id == id && crate::resolver::has_lines(found[last], rows);
    if exists|y: int|
        0 <= y < last && (#[trigger] found[y]).1.id == id && crate::resolver::has_lines(
            found[y],
            rows,
        ) {
        let y = choose|y: int|
            0 <= y < last && (#[trigger] found[y]).1.id == id && crate::resolver::has_lines(
                found[y],
                rows,
            );
        let w = some_candidate_wins(found, rows, id, last as nat, y);
        if own && crate::resolver::goes_before(found[last], found[w]) {
            assert forall|j: int|
                0 <= j < n && found[j].1.id == found[last].1.id && crate::resolver::has_lines(
                    found[j],
                    rows,
                ) implies !crate::resolver::goes_before(#[trigger] found[j], found[last]) && (j
                < last ==> crate::resolver::goes_before(found[last], found[j])) by {
                if j < last {
                    assert(!crate::resolver::goes_before(found[j], found[w]));
                }
            }
            last
        } else {
            w
        }
    } else {
        assert(x == last);
        x
    }
}

/// A candidate is a node of the graph with the row that it belongs to.
pub proof fn candidates_are_nodes_with_their_row(
    nodes: Seq<Symbol>,
    rows: Seq<FileRow>,
    k: nat,
    c: Candidate,
)
    ensures
        crate::resolver::candidates(nodes, rows, k).contains(c) <==> c.0 < k && nodes.contains(c.1)
            && crate::resolver::belongs_to(c.1.source_file, rows, c.0),
    decreases k,
{
    if k > 0 {
        let i = k - 1;
        let before = crate::resolver::candidates(nodes, rows, i as nat);
        let group = crate::resolver::nodes_of(nodes, rows, i);
        let added = group.map_values(|n: Symbol| (i, n));
        let all = crate::resolver::candidates(nodes, rows, k);
        assert(all == before + added);
        candidates_are_nodes_with_their_row(nodes, rows, i as nat, c);
        members_of_a_row(nodes, rows, i, c.1);
        if before.contains(c) {
            let j = choose|j: int| 0 <= j < before.len() && before[j] == c;
            assert(all[j] == c);
        }
        if c.0 == i && group.contains(c.1) {
            let j = choose|j: int| 0 <= j < group.len() && group[j] == c.1;
            assert(all[before.len() + j] == c);
        }
        if all.contains(c) {
            let j = choose|j: int| 0 <= j < all.len() && all[j] == c;
            if j < before.len() {
                assert(before[j] == c);
            } else {
                assert(group[j - before.len()] == c.1);
                assert(group.contains(c.1));
            }
        }
    }
}

/// The nodes of a row are the nodes that belong to it.
pub proof fn members_of_a_row(nodes: Seq<Symbol>, rows: Seq<FileRow>, i: int, n: Symbol)
    ensures
        crate::resolver::nodes_of(nodes, rows, i).contains(n) <==> nodes.contains(n)
            && crate::resolver::belongs_to(n.source_file, rows, i),
{
    let p = |n: Symbol| crate::resolver::belongs_to(n.source_file, rows, i);
    let group = nodes.filter(p);
    if group.contains(n) {
        nodes.lemma_filter_contains_rev(p, n);
        let j = choose|j: int| 0 <= j < group.len() && group[j] == n;
        nodes.lemma_filter_pred(p, j);
    }
    if nodes.contains(n) && p(n) {
        let j = choose|j: int| 0 <= j < nodes.len() && nodes[j] == n;
        nodes.lemma_filter_contains(p, j);
    }
}

/// Some node belongs to row `k`, and lines outside its nodes were measured.
pub open spec fn has_rest(nodes: Seq<Symbol>, rows: Seq<FileRow>, k: int) -> bool {
    let group = crate::resolver::nodes_of(nodes, rows, k);
    &&& 0 <= k < rows.len()
    &&& group.len() > 0
    &&& crate::resolver::lines_outside(rows[k].1, group).len() > 0
}

/// The binding of row `k` to the lines outside its nodes.
pub open spec fn rest_binding(
    nodes: Seq<Symbol>,
    rows: Seq<FileRow>,
    workspace_key: Seq<char>,
    k: int,
) -> Binding {
    crate::resolver::bind_lines(
        workspace_key,
        crate::resolver::file_level_id(rows[k].0),
        rows[k],
        crate::resolver::lines_outside(rows[k].1, crate::resolver::nodes_of(nodes, rows, k)),
    )
}

/// The bindings of files are those of the rows that have nodes and measured lines outside them.
pub proof fn file_bindings_are_those_of_rows_with_a_rest(
    nodes: Seq<Symbol>,
    rows: Seq<FileRow>,
    workspace_key: Seq<char>,
    m: nat,
    b: Binding,
)
    requires
        m <= rows.len(),
    ensures
        crate::resolver::file_bindings(nodes, rows, workspace_key, m).contains(b) <==> exists|
            k: int,
        |
            k < m && #[trigger] has_rest(nodes, rows, k) && b == rest_binding(
                nodes,
                rows,
                workspace_key,
                k,
            ),
    decreases m,
{
    if m > 0 {
        let last = m - 1;
        let done = crate::resolver::file_bindings(nodes, rows, workspace_key, last as nat);
        let out = crate::resolver::file_bindings(nodes, rows, workspace_key, m);
        file_bindings_are_those_of_rows_with_a_rest(nodes, rows, workspace_key, last as nat, b);
        let own = rest_binding(nodes, rows, workspace_key, last);
        if has_rest(nodes, rows, last) {
            assert(out == done.push(own));
            if done.contains(b) {
                let i = choose|i: int| 0 <= i < done.len() && done[i] == b;
                assert(out[i] == b);
            }
            if out.contains(b) && b != own {
                let i = choose|i: int| 0 <= i < out.len() && out[i] == b;
                assert(done[i] == b);
            }
            assert(out[done.len() as int] == own);
        } else {
            assert(out == done);
        }
        if exists|k: int|
            k < m && #[trigger] has_rest(nodes, rows, k) && b == rest_binding(
                nodes,
                rows,
                workspace_key,
                k,
            ) {
            let k = choose|k: int|
                k < m && #[trigger] has_rest(nodes, rows, k) && b == rest_binding(
                    nodes,
                    rows,
                    workspace_key,
                    k,
                );
            if k < last {
                assert(k < last && has_rest(nodes, rows, k));
            }
        }
    }
}

// ---------------------------------------------------------------------------
// What every binding says
// ---------------------------------------------------------------------------

/// Lines counted among finitely many are counted soundly.
proof fn hit_lines_are_lines(lines: Map<u32, u64>, chosen: Set<u32>)
    requires
        chosen.finite(),
    ensures
        crate::resolver::lines_hit(lines, chosen).len() <= chosen.len(),
{
    vstd::set_lib::lemma_len_subset(crate::resolver::lines_hit(lines, chosen), chosen);
}

/// Every binding is of the workspace, names a file of the table, has at least one measured
/// line and no more covered ones, is a blindspot exactly if less than half of its lines are
/// covered, and carries no time yet.
pub proof fn bindings_are_sound(
    nodes: Seq<Symbol>,
    rows: Seq<FileRow>,
    workspace_key: Seq<char>,
    i: int,
)
    requires
        0 <= i < crate::resolver::resolved(nodes, rows, workspace_key).len(),
        forall|k: int| 0 <= k < rows.len() ==> (#[trigger] rows[k]).1.dom().finite(),
    ensures
        ({
            let b = crate::resolver::resolved(nodes, rows, workspace_key)[i];
            &&& b.workspace_key == workspace_key
            &&& exists|k: int| 0 <= k < rows.len() && #[trigger] rows[k].0 == b.file_path
            &&& 0 < b.total_lines
            &&& 0 <= b.covered_lines <= b.total_lines
            &&& b.is_blindspot == (2 * b.covered_lines < b.total_lines)
            &&& b.updated_at == Seq::<char>::empty()
        }),
{
    let found = crate::resolver::candidates(nodes, rows, rows.len());
    let first = crate::resolver::node_bindings(found, rows, workspace_key);
    let second = crate::resolver::file_bindings(nodes, rows, workspace_key, rows.len());
    let b = crate::resolver::resolved(nodes, rows, workspace_key)[i];
    if i < first.len() {
        assert(first.contains(first[i]));
        node_bindings_are_those_of_bound_nodes(found, rows, workspace_key, b);
        let k = choose|k: int|
            #[trigger] crate::resolver::is_bound(found, rows, k) && b
                == crate::resolver::candidate_binding(found[k], rows, workspace_key);
        let c = found[k];
        assert(found.contains(c));
        candidates_are_nodes_with_their_row(nodes, rows, rows.len(), c);
        assert(rows[c.0].0 == b.file_path);
        let chosen = crate::resolver::lines_inside(rows[c.0].1, c.1);
        vstd::set_lib::lemma_len_subset(chosen, rows[c.0].1.dom());
        hit_lines_are_lines(rows[c.0].1, chosen);
    } else {
        assert(second.contains(second[i - first.len()]));
        file_bindings_are_those_of_rows_with_a_rest(nodes, rows, workspace_key, rows.len(), b);
        let k = choose|k: int|
            k < rows.len() && #[trigger] has_rest(nodes, rows, k) && b == rest_binding(
                nodes,
                rows,
                workspace_key,
                k,
            );
        assert(rows[k].0 == b.file_path);
        let chosen = crate::resolver::lines_outside(
            rows[k].1,
            crate::resolver::nodes_of(nodes, rows, k),
        );
        vstd::set_lib::lemma_len_subset(chosen, rows[k].1.dom());
        hit_lines_are_lines(rows[k].1, chosen);
    }
}

/// No measured line of a file that has nodes is lost: those in the range of a node and those
/// that the file's own binding counts make up all of them, and no line is among both.
pub proof fn no_measured_line_is_lost(
    nodes: Seq<Symbol>,
    rows: Seq<FileRow>,
    workspace_key: Seq<char>,
    k: int,
)
    requires
        0 <= k < rows.len(),
        rows[k].1.dom().finite(),
        crate::resolver::nodes_of(nodes, rows, k).len() > 0,
    ensures
        ({
            let group = crate::resolver::nodes_of(nodes, rows, k);
            let spanned = rows[k].1.dom().filter(
                |l: u32| crate::resolver::some_spans(group, l),
            );
            let rest = rest_binding(nodes, rows, workspace_key, k);
            &&& spanned.len() + rest.total_lines == rows[k].1.dom().len()
            &&& rest.total_lines > 0 ==> crate::resolver::resolved(
                nodes,
                rows,
                workspace_key,
            ).contains(rest)
        }),
{
    let lines = rows[k].1.dom();
    let group = crate::resolver::nodes_of(nodes, rows, k);
    let spanned = lines.filter(|l: u32| crate::resolver::some_spans(group, l));
    let outside = crate::resolver::lines_outside(rows[k].1, group);
    vstd::set_lib::lemma_len_subset(spanned, lines);
    vstd::set_lib::lemma_len_subset(outside, lines);
    assert(spanned.disjoint(outside));
    assert(spanned + outside =~= lines);
    vstd::set_lib::lemma_set_disjoint_lens(spanned, outside);
    let rest = rest_binding(nodes, rows, workspace_key, k);
    if rest.total_lines > 0 {
        let first = crate::resolver::node_bindings(
            crate::resolver::candidates(nodes, rows, rows.len()),
            rows,
            workspace_key,
        );
        let second = crate::resolver::file_bindings(nodes, rows, workspace_key, rows.len());
        assert(has_rest(nodes, rows, k));
        file_bindings_are_those_of_rows_with_a_rest(nodes, rows, workspace_key, rows.len(), rest);
        let i = choose|i: int| 0 <= i < second.len() && second[i] == rest;
        assert(crate::resolver::resolved(nodes, rows, workspace_key)[first.len() + i] == rest);
    }
}

// ---------------------------------------------------------------------------
// Ids
// ---------------------------------------------------------------------------

/// No two bindings of nodes among the first ones have one id.
proof fn ids_among_the_first_are_distinct(
    found: Seq<Candidate>,
    rows: Seq<FileRow>,
    workspace_key: Seq<char>,
    n: nat,
)
    requires
        n <= found.len(),
    ensures
        forall|i: int, j: int|
            0 <= i < j < crate::resolver::bound_among(found, rows, workspace_key, n).len()
                ==> #[trigger] crate::resolver::bound_among(
                found,
                rows,
                workspace_key,
                n,
            )[i].canonical_node_id != #[trigger] crate::resolver::bound_among(
                found,
                rows,
                workspace_key,
                n,
            )[j].canonical_node_id,
    decreases n,
{
    if n > 0 {
        let last = n - 1;
        let done = crate::resolver::bound_among(found, rows, workspace_key, last as nat);
        let out = crate::resolver::bound_among(found, rows, workspace_key, n);
        ids_among_the_first_are_distinct(found, rows, workspace_key, last as nat);
        assert forall|i: int, j: int| 0 <= i < j < out.len() implies #[trigger]
            out[i].canonical_node_id != #[trigger] out[j].canonical_node_id by {
            assert(out[i] == done[i]);
            if j < done.len() {
                assert(done[i].canonical_node_id != done[j].canonical_node_id);
            } else {
                assert(done.contains(done[i]));
                bindings_among_the_first(found, rows, workspace_key, last as nat, done[i]);
                let k = choose|k: int|
                    k < last && #[trigger] crate::resolver::is_bound(found, rows, k) && done[i]
                        == crate::resolver::candidate_binding(found[k], rows, workspace_key);
                if done[i].canonical_node_id == out[j].canonical_node_id {
                    one_candidate_is_bound(found, rows, k, last);
                }
            }
        }
    }
}

/// No two bindings of nodes have one id.
pub proof fn node_ids_are_distinct(
    found: Seq<Candidate>,
    rows: Seq<FileRow>,
    workspace_key: Seq<char>,
    i: int,
    j: int,
)
    requires
        0 <= i < j < crate::resolver::node_bindings(found, rows, workspace_key).len(),
    ensures
        crate::resolver::node_bindings(found, rows, workspace_key)[i].canonical_node_id
            != crate::resolver::node_bindings(found, rows, workspace_key)[j].canonical_node_id,
{
    ids_among_the_first_are_distinct(found, rows, workspace_key, found.len());
}

/// The ids under which a node is to be bound: those that a node with measured lines in its
/// range has.
pub open spec fn measured_ids(nodes: Seq<Symbol>, rows: Seq<FileRow>) -> Set<Seq<char>> {
    Set::new(
        |id: Seq<char>|
            exists|n: Symbol, r: int|
                nodes.contains(n) && n.id == id && #[trigger] crate::resolver::belongs_to(
                    n.source_file,
                    rows,
                    r,
                ) && #[trigger] crate::resolver::has_lines((r, n), rows),
    )
}

/// The bindings of nodes are one for each id that a node with measured lines has.
pub proof fn every_measured_id_is_bound_once(
    nodes: Seq<Symbol>,
    rows: Seq<FileRow>,
    workspace_key: Seq<char>,
)
    ensures
        ({
            let bound = crate::resolver::node_bindings(
                crate::resolver::candidates(nodes, rows, rows.len()),
                rows,
                workspace_key,
            );
            let ids = bound.map_values(|b: Binding| b.canonical_node_id);
            &&& ids.no_duplicates()
            &&& ids.to_set() == measured_ids(nodes, rows)
            &&& measured_ids(nodes, rows).finite()
            &&& measured_ids(nodes, rows).len() == bound.len()
        }),
{
    let found = crate::resolver::candidates(nodes, rows, rows.len());
    let bound = crate::resolver::node_bindings(found, rows, workspace_key);
    let ids = bound.map_values(|b: Binding| b.canonical_node_id);
    let wanted = measured_ids(nodes, rows);
    assert forall|i: int, j: int| 0 <= i < ids.len() && 0 <= j < ids.len() && i != j implies ids[i]
        != ids[j] by {
        if i < j {
            node_ids_are_distinct(found, rows, workspace_key, i, j);
        } else {
            node_ids_are_distinct(found, rows, workspace_key, j, i);
        }
    }
    ids.unique_seq_to_set();
    assert forall|id: Seq<char>| ids.to_set().contains(id) == wanted.contains(id) by {
        if ids.to_set().contains(id) {
            let i = choose|i: int| 0 <= i < ids.len() && ids[i] == id;
            assert(bound.contains(bound[i]));
            node_bindings_are_those_of_bound_nodes(found, rows, workspace_key, bound[i]);
            let k = choose|k: int|
                #[trigger] crate::resolver::is_bound(found, rows, k) && bound[i]
                    == crate::resolver::candidate_binding(found[k], rows, workspace_key);
            let (r, n) = found[k];
            assert(found.contains(found[k]));
            candidates_are_nodes_with_their_row(nodes, rows, rows.len(), found[k]);
            assert(crate::resolver::belongs_to(n.source_file, rows, r));
            assert(crate::resolver::has_lines((r, n), rows));
        }
        if wanted.contains(id) {
            let (n, r) = choose|n: Symbol, r: int|
                nodes.contains(n) && n.id == id && #[trigger] crate::resolver::belongs_to(
                    n.source_file,
                    rows,
                    r,
                ) && #[trigger] crate::resolver::has_lines((r, n), rows);
            candidates_are_nodes_with_their_row(nodes, rows, rows.len(), (r, n));
            let x = choose|x: int| 0 <= x < found.len() && found[x] == (r, n);
            let k = some_candidate_wins(found, rows, id, found.len(), x);
            assert(crate::resolver::is_bound(found, rows, k));
            let b = crate::resolver::candidate_binding(found[k], rows, workspace_key);
            node_bindings_are_those_of_bound_nodes(found, rows, workspace_key, b);
            let i = choose|i: int| 0 <= i < bound.len() && bound[i] == b;
            assert(ids[i] == id);
        }
    }
    assert(ids.to_set() =~= wanted);
}

/// No binding of a node occurs twice.
proof fn no_node_is_bound_twice(
    found: Seq<Candidate>,
    rows: Seq<FileRow>,
    workspace_key: Seq<char>,
)
    ensures
        crate::resolver::node_bindings(found, rows, workspace_key).no_duplicates(),
{
    let out = crate::resolver::node_bindings(found, rows, workspace_key);
    ids_among_the_first_are_distinct(found, rows, workspace_key, found.len());
    assert forall|i: int, j: int| 0 <= i < out.len() && 0 <= j < out.len() && i != j implies out[i]
        != out[j] by {
        if i < j {
            assert(out[i].canonical_node_id != out[j].canonical_node_id);
        } else {
            assert(out[j].canonical_node_id != out[i].canonical_node_id);
        }
    }
}

/// Two files with one id are one file.
proof fn file_level_ids_are_distinct(a: Seq<char>, b: Seq<char>)
    requires
        crate::resolver::file_level_id(a) == crate::resolver::file_level_id(b),
    ensures
        a == b,
{
    let n = "file:"@.len() as int;
    assert(a =~= crate::resolver::file_level_id(a).skip(n));
    assert(b =~= crate::resolver::file_level_id(b).skip(n));
}

/// No two bindings of files have one id.
proof fn file_ids_are_distinct(
    nodes: Seq<Symbol>,
    rows: Seq<FileRow>,
    workspace_key: Seq<char>,
    m: nat,
)
    requires
        m <= rows.len(),
        crate::file_table::in_path_order(rows),
    ensures
        forall|i: int, j: int|
            0 <= i < j < crate::resolver::file_bindings(nodes, rows, workspace_key, m).len()
                ==> #[trigger] crate::resolver::file_bindings(
                nodes,
                rows,
                workspace_key,
                m,
            )[i].canonical_node_id != #[trigger] crate::resolver::file_bindings(
                nodes,
                rows,
                workspace_key,
                m,
            )[j].canonical_node_id,
    decreases m,
{
    if m > 0 {
        let done = crate::resolver::file_bindings(nodes, rows, workspace_key, (m - 1) as nat);
        let out = crate::resolver::file_bindings(nodes, rows, workspace_key, m);
        file_ids_are_distinct(nodes, rows, workspace_key, (m - 1) as nat);
        assert forall|i: int, j: int| 0 <= i < j < out.len() implies #[trigger]
            out[i].canonical_node_id != #[trigger] out[j].canonical_node_id by {
            assert(out[i] == done[i]);
            if j < done.len() {
                assert(done[i].canonical_node_id != done[j].canonical_node_id);
            } else {
                assert(done.contains(done[i]));
                file_bindings_are_those_of_rows_with_a_rest(
                    nodes,
                    rows,
                    workspace_key,
                    (m - 1) as nat,
                    done[i],
                );
                let k = choose|k: int|
                    k < m - 1 && #[trigger] has_rest(nodes, rows, k) && done[i] == rest_binding(
                        nodes,
                        rows,
                        workspace_key,
                        k,
                    );
                if done[i].canonical_node_id == out[j].canonical_node_id {
                    file_level_ids_are_distinct(rows[k].0, rows[m - 1].0);
                    assert(crate::file_table::path_before(rows[k].0, rows[m - 1].0));
                    crate::file_table::path_order_is_irreflexive(rows[k].0);
                }
            }
        }
    }
}

/// Some bound node bears the id of a file that is bound, too.
pub open spec fn ids_clash(nodes: Seq<Symbol>, rows: Seq<FileRow>) -> bool {
    let found = crate::resolver::candidates(nodes, rows, rows.len());
    exists|k: int, r: int|
        #[trigger] crate::resolver::is_bound(found, rows, k) && #[trigger] has_rest(nodes, rows, r)
            && found[k].1.id == crate::resolver::file_level_id(rows[r].0)
}

/// Two bindings have one id only if the first is of a node and the second of a file, and the
/// node bears the file's id.
pub proof fn ids_are_distinct(
    nodes: Seq<Symbol>,
    rows: Seq<FileRow>,
    workspace_key: Seq<char>,
    i: int,
    j: int,
)
    requires
        crate::file_table::in_path_order(rows),
        0 <= i < j < crate::resolver::resolved(nodes, rows, workspace_key).len(),
        crate::resolver::resolved(nodes, rows, workspace_key)[i].canonical_node_id
            == crate::resolver::resolved(nodes, rows, workspace_key)[j].canonical_node_id,
    ensures
        i < crate::resolver::node_bindings(
            crate::resolver::candidates(nodes, rows, rows.len()),
            rows,
            workspace_key,
        ).len() <= j,
        ids_clash(nodes, rows),
{
    let found = crate::resolver::candidates(nodes, rows, rows.len());
    let first = crate::resolver::node_bindings(found, rows, workspace_key);
    let second = crate::resolver::file_bindings(nodes, rows, workspace_key, rows.len());
    let all = crate::resolver::resolved(nodes, rows, workspace_key);
    let n = first.len() as int;
    ids_among_the_first_are_distinct(found, rows, workspace_key, found.len());
    file_ids_are_distinct(nodes, rows, workspace_key, rows.len());
    if j < n {
        assert(first[i].canonical_node_id != first[j].canonical_node_id);
    } else if i >= n {
        assert(second[i - n].canonical_node_id != second[j - n].canonical_node_id);
    } else {
        assert(first.contains(first[i]));
        node_bindings_are_those_of_bound_nodes(found, rows, workspace_key, all[i]);
        let k = choose|k: int|
            #[trigger] crate::resolver::is_bound(found, rows, k) && all[i]
                == crate::resolver::candidate_binding(found[k], rows, workspace_key);
        assert(second.contains(second[j - n]));
        file_bindings_are_those_of_rows_with_a_rest(
            nodes,
            rows,
            workspace_key,
            rows.len(),
            all[j],
        );
        let r = choose|r: int|
            r < rows.len() && #[trigger] has_rest(nodes, rows, r) && all[j] == rest_binding(
                nodes,
                rows,
                workspace_key,
                r,
            );
        assert(found[k].1.id == crate::resolver::file_level_id(rows[r].0));
    }
}

// ---------------------------------------------------------------------------
// Order
// ---------------------------------------------------------------------------

/// A binding of a node is there in either order of the nodes.
proof fn node_binding_carries_over(
    a: Seq<Symbol>,
    b: Seq<Symbol>,
    rows: Seq<FileRow>,
    workspace_key: Seq<char>,
    x: Binding,
)
    requires
        a.to_set() == b.to_set(),
        crate::resolver::node_bindings(
            crate::resolver::candidates(a, rows, rows.len()),
            rows,
            workspace_key,
        ).contains(x),
    ensures
        crate::resolver::node_bindings(
            crate::resolver::candidates(b, rows, rows.len()),
            rows,
            workspace_key,
        ).contains(x),
{
    let fa = crate::resolver::candidates(a, rows, rows.len());
    let fb = crate::resolver::candidates(b, rows, rows.len());
    same_nodes(a, b);
    node_bindings_are_those_of_bound_nodes(fa, rows, workspace_key, x);
    let k = choose|k: int|
        #[trigger] crate::resolver::is_bound(fa, rows, k) && x
            == crate::resolver::candidate_binding(fa[k], rows, workspace_key);
    let c = fa[k];
    assert(fa.contains(c));
    candidates_are_nodes_with_their_row(a, rows, rows.len(), c);
    candidates_are_nodes_with_their_row(b, rows, rows.len(), c);
    let at = choose|at: int| 0 <= at < fb.len() && fb[at] == c;
    let w = some_candidate_wins(fb, rows, c.1.id, fb.len(), at);
    let d = fb[w];
    assert(fb.contains(d));
    candidates_are_nodes_with_their_row(a, rows, rows.len(), d);
    candidates_are_nodes_with_their_row(b, rows, rows.len(), d);
    let p = choose|p: int| 0 <= p < fa.len() && fa[p] == d;
    assert(!crate::resolver::goes_before(fa[p], c));
    assert(!crate::resolver::goes_before(fb[at], d));
    assert(crate::resolver::lines_inside(rows[c.0].1, c.1) =~= crate::resolver::lines_inside(
        rows[d.0].1,
        d.1,
    ));
    assert(crate::resolver::is_bound(fb, rows, w));
    assert(x == crate::resolver::candidate_binding(fb[w], rows, workspace_key));
    node_bindings_are_those_of_bound_nodes(fb, rows, workspace_key, x);
}

/// Sequences with one set of elements have the same elements.
proof fn same_nodes(a: Seq<Symbol>, b: Seq<Symbol>)
    requires
        a.to_set() == b.to_set(),
    ensures
        forall|n: Symbol| a.contains(n) <==> b.contains(n),
{
    assert forall|n: Symbol| a.contains(n) <==> b.contains(n) by {
        assert(a.to_set().contains(n) == a.contains(n));
        assert(b.to_set().contains(n) == b.contains(n));
    }
}

/// The bindings of files are the same in either order of the nodes.
proof fn file_bindings_carry_over(
    a: Seq<Symbol>,
    b: Seq<Symbol>,
    rows: Seq<FileRow>,
    workspace_key: Seq<char>,
    m: nat,
)
    requires
        a.to_set() == b.to_set(),
        m <= rows.len(),
    ensures
        crate::resolver::file_bindings(a, rows, workspace_key, m)
            == crate::resolver::file_bindings(b, rows, workspace_key, m),
    decreases m,
{
    if m > 0 {
        let k = m - 1;
        file_bindings_carry_over(a, b, rows, workspace_key, k as nat);
        same_nodes(a, b);
        let ga = crate::resolver::nodes_of(a, rows, k);
        let gb = crate::resolver::nodes_of(b, rows, k);
        assert forall|n: Symbol| ga.contains(n) <==> gb.contains(n) by {
            members_of_a_row(a, rows, k, n);
            members_of_a_row(b, rows, k, n);
        }
        assert(ga.len() == 0 <==> gb.len() == 0) by {
            if ga.len() > 0 {
                assert(ga.contains(ga[0]));
            }
            if gb.len() > 0 {
                assert(gb.contains(gb[0]));
            }
        }
        assert forall|l: u32|
            crate::resolver::some_spans(ga, l) == crate::resolver::some_spans(gb, l) by {
            if crate::resolver::some_spans(ga, l) {
                let i = choose|i: int|
                    0 <= i < ga.len() && crate::resolver::spans(#[trigger] ga[i], l);
                assert(ga.contains(ga[i]));
                let j = choose|j: int| 0 <= j < gb.len() && gb[j] == ga[i];
                assert(crate::resolver::spans(gb[j], l));
            }
            if crate::resolver::some_spans(gb, l) {
                let i = choose|i: int|
                    0 <= i < gb.len() && crate::resolver::spans(#[trigger] gb[i], l);
                assert(gb.contains(gb[i]));
                let j = choose|j: int| 0 <= j < ga.len() && ga[j] == gb[i];
                assert(crate::resolver::spans(ga[j], l));
            }
        }
        assert(crate::resolver::lines_outside(rows[k].1, ga) =~= crate::resolver::lines_outside(
            rows[k].1,
            gb,
        ));
    }
}

/// Neither the order of the nodes nor a repetition among them changes the bindings, their own
/// order apart.
pub proof fn only_the_set_of_nodes_matters(
    a: Seq<Symbol>,
    b: Seq<Symbol>,
    rows: Seq<FileRow>,
    workspace_key: Seq<char>,
)
    requires
        a.to_set() == b.to_set(),
    ensures
        crate::resolver::resolved(a, rows, workspace_key).to_multiset()
            == crate::resolver::resolved(b, rows, workspace_key).to_multiset(),
{
    broadcast use vstd::seq_lib::group_to_multiset_ensures;

    let fa = crate::resolver::candidates(a, rows, rows.len());
    let fb = crate::resolver::candidates(b, rows, rows.len());
    let na = crate::resolver::node_bindings(fa, rows, workspace_key);
    let nb = crate::resolver::node_bindings(fb, rows, workspace_key);
    no_node_is_bound_twice(fa, rows, workspace_key);
    no_node_is_bound_twice(fb, rows, workspace_key);
    na.lemma_multiset_has_no_duplicates();
    nb.lemma_multiset_has_no_duplicates();
    assert forall|x: Binding| na.to_multiset().count(x) == nb.to_multiset().count(x) by {
        if na.contains(x) {
            node_binding_carries_over(a, b, rows, workspace_key, x);
        }
        if nb.contains(x) {
            node_binding_carries_over(b, a, rows, workspace_key, x);
        }
        assert(na.contains(x) == (na.to_multiset().count(x) > 0));
        assert(nb.contains(x) == (nb.to_multiset().count(x) > 0));
    }
    assert(na.to_multiset() =~= nb.to_multiset());
    file_bindings_carry_over(a, b, rows, workspace_key, rows.len());
    let files = crate::resolver::file_bindings(a, rows, workspace_key, rows.len());
    vstd::seq_lib::lemma_multiset_commutative(na, files);
    vstd::seq_lib::lemma_multiset_commutative(nb, files);
}

/// The order of the inputs does not matter: with the same nodes in another order, and with
/// tables that say the same of each path, however they were filled, the bindings are the same,
/// their own order apart.
pub proof fn input_order_does_not_matter(
    a: Seq<Symbol>,
    b: Seq<Symbol>,
    rows_a: Seq<FileRow>,
    rows_b: Seq<FileRow>,
    workspace_key: Seq<char>,
)
    requires
        a.to_multiset() == b.to_multiset(),
        crate::file_table::in_path_order(rows_a),
        crate::file_table::in_path_order(rows_b),
        crate::file_table::rows_map(rows_a) == crate::file_table::rows_map(rows_b),
    ensures
        crate::resolver::resolved(a, rows_a, workspace_key).to_multiset()
            == crate::resolver::resolved(b, rows_b, workspace_key).to_multiset(),
{
    crate::file_table::rows_are_canonical(rows_a, rows_b);
    node_order_does_not_matter(a, b, rows_a, workspace_key);
}

/// The order of the nodes does not change the bindings, their own order apart.
pub proof fn node_order_does_not_matter(
    a: Seq<Symbol>,
    b: Seq<Symbol>,
    rows: Seq<FileRow>,
    workspace_key: Seq<char>,
)
    requires
        a.to_multiset() == b.to_multiset(),
    ensures
        crate::resolver::resolved(a, rows, workspace_key).to_multiset()
            == crate::resolver::resolved(b, rows, workspace_key).to_multiset(),
{
    broadcast use vstd::seq_lib::group_to_multiset_ensures;

    assert forall|n: Symbol| a.contains(n) == b.contains(n) by {
        assert(a.contains(n) == (a.to_multiset().count(n) > 0));
        assert(b.contains(n) == (b.to_multiset().count(n) > 0));
    }
    assert(a.to_set() =~= b.to_set());
    only_the_set_of_nodes_matters(a, b, rows, workspace_key);
}

// ---------------------------------------------------------------------------
// What a binding counts
// ---------------------------------------------------------------------------

/// A node is bound to the measured lines in its range: with `i` the first row whose path names
/// the node's file, the binding counts the lines `l` of that row with
/// `start_line <= l <= end_line`, and as covered those of them with a hit; it is a blindspot if
/// these are less than half. There is one unless there are no such lines, or a node with the
/// same id and measured lines comes first: in an earlier row, or in the same row with an earlier
/// first line, or with the same first line and an earlier last line.
pub proof fn a_node_is_bound_to_the_lines_in_its_range(
    nodes: Seq<Symbol>,
    rows: Seq<FileRow>,
    workspace_key: Seq<char>,
    n: int,
    i: int,
)
    requires
        0 <= n < nodes.len(),
        0 <= i < rows.len(),
        crate::resolver::same_file(nodes[n].source_file, rows[i].0),
        forall|j: int|
            0 <= j < i ==> !crate::resolver::same_file(
                nodes[n].source_file,
                #[trigger] rows[j].0,
            ),
        forall|k: int| 0 <= k < rows.len() ==> (#[trigger] rows[k]).1.dom().finite(),
        exists|l: u32|
            nodes[n].start_line <= l && l <= nodes[n].end_line && #[trigger]
            rows[i].1.contains_key(l),
        forall|m: int, j: int, l: u32|
            0 <= m < nodes.len() && 0 <= j < rows.len() && nodes[m].id == nodes[n].id
                && crate::resolver::same_file(nodes[m].source_file, rows[j].0) && (forall|k: int|
                0 <= k < j ==> !crate::resolver::same_file(
                    nodes[m].source_file,
                    #[trigger] rows[k].0,
                )) && nodes[m].start_line <= l && l <= nodes[m].end_line
                && #[trigger] rows[j].1.contains_key(l) && #[trigger] nodes[m].id.len() >= 0 ==> {
                ||| i < j
                ||| i == j && nodes[n].start_line < nodes[m].start_line
                ||| i == j && nodes[n].start_line == nodes[m].start_line && nodes[n].end_line
                    <= nodes[m].end_line
            },
    ensures
        ({
            let lines = rows[i].1;
            let inside = lines.dom().filter(
                |l: u32| nodes[n].start_line <= l && l <= nodes[n].end_line,
            );
            let covered = inside.filter(|l: u32| lines[l] > 0);
            crate::resolver::resolved(nodes, rows, workspace_key).contains(
                Binding {
                    workspace_key,
                    canonical_node_id: nodes[n].id,
                    file_path: rows[i].0,
                    total_lines: inside.len() as int,
                    covered_lines: covered.len() as int,
                    is_blindspot: 2 * covered.len() < inside.len(),
                    updated_at: Seq::empty(),
                },
            )
        }),
{
    let lines = rows[i].1;
    let inside = lines.dom().filter(
        |l: u32| nodes[n].start_line <= l && l <= nodes[n].end_line,
    );
    let covered = inside.filter(|l: u32| lines[l] > 0);
    let found = crate::resolver::candidates(nodes, rows, rows.len());
    let c: Candidate = (i, nodes[n]);
    assert(inside =~= crate::resolver::lines_inside(lines, nodes[n]));
    assert(covered =~= crate::resolver::lines_hit(lines, inside));
    assert(nodes.contains(nodes[n]));
    candidates_are_nodes_with_their_row(nodes, rows, rows.len(), c);
    let x = choose|x: int| 0 <= x < found.len() && found[x] == c;
    let l = choose|l: u32|
        nodes[n].start_line <= l && l <= nodes[n].end_line && #[trigger] lines.contains_key(l);
    assert(inside.contains(l));
    vstd::set_lib::lemma_len_subset(inside, lines.dom());
    assert(inside.len() > 0);
    let w = some_candidate_wins(found, rows, nodes[n].id, found.len(), x);
    let d = found[w];
    assert(found.contains(d));
    candidates_are_nodes_with_their_row(nodes, rows, rows.len(), d);
    let m = choose|m: int| 0 <= m < nodes.len() && nodes[m] == d.1;
    let other = crate::resolver::lines_inside(rows[d.0].1, d.1);
    vstd::set_lib::lemma_len_subset(other, rows[d.0].1.dom());
    assert(other.len() > 0);
    let k = other.choose();
    assert(other.contains(k));
    assert(rows[d.0].1.contains_key(k));
    assert(nodes[m].id.len() >= 0);
    assert(!crate::resolver::goes_before(d, c));
    assert(!crate::resolver::goes_before(found[x], d));
    assert(other =~= inside);
    let b = crate::resolver::candidate_binding(d, rows, workspace_key);
    assert(crate::resolver::is_bound(found, rows, w));
    node_bindings_are_those_of_bound_nodes(found, rows, workspace_key, b);
    let first = crate::resolver::node_bindings(found, rows, workspace_key);
    let at = choose|at: int| 0 <= at < first.len() && first[at] == b;
    assert(crate::resolver::resolved(nodes, rows, workspace_key)[at] == b);
}

/// A file is bound to the measured lines that no node of it spans: if some node names row `i`
/// as its first, and lines of the row are in no such node's `start_line <= l <= end_line`, the
/// file's own binding counts exactly these.
pub proof fn a_file_is_bound_to_the_lines_outside_its_nodes(
    nodes: Seq<Symbol>,
    rows: Seq<FileRow>,
    workspace_key: Seq<char>,
    n: int,
    i: int,
)
    requires
        0 <= n < nodes.len(),
        0 <= i < rows.len(),
        crate::resolver::same_file(nodes[n].source_file, rows[i].0),
        forall|j: int|
            0 <= j < i ==> !crate::resolver::same_file(
                nodes[n].source_file,
                #[trigger] rows[j].0,
            ),
        rows[i].1.dom().finite(),
    ensures
        ({
            let lines = rows[i].1;
            let outside = lines.dom().filter(
                |l: u32|
                    forall|m: int|
                        0 <= m < nodes.len() && crate::resolver::same_file(
                            (#[trigger] nodes[m]).source_file,
                            rows[i].0,
                        ) && (forall|j: int|
                            0 <= j < i ==> !crate::resolver::same_file(
                                nodes[m].source_file,
                                #[trigger] rows[j].0,
                            )) ==> !(nodes[m].start_line <= l && l <= nodes[m].end_line),
            );
            let covered = outside.filter(|l: u32| lines[l] > 0);
            outside.len() > 0 ==> crate::resolver::resolved(nodes, rows, workspace_key).contains(
                Binding {
                    workspace_key,
                    canonical_node_id: "file:"@ + rows[i].0,
                    file_path: rows[i].0,
                    total_lines: outside.len() as int,
                    covered_lines: covered.len() as int,
                    is_blindspot: 2 * covered.len() < outside.len(),
                    updated_at: Seq::empty(),
                },
            )
        }),
{
    let lines = rows[i].1;
    let group = crate::resolver::nodes_of(nodes, rows, i);
    let outside = lines.dom().filter(
        |l: u32|
            forall|m: int|
                0 <= m < nodes.len() && crate::resolver::same_file(
                    (#[trigger] nodes[m]).source_file,
                    rows[i].0,
                ) && (forall|j: int|
                    0 <= j < i ==> !crate::resolver::same_file(
                        nodes[m].source_file,
                        #[trigger] rows[j].0,
                    )) ==> !(nodes[m].start_line <= l && l <= nodes[m].end_line),
    );
    let covered = outside.filter(|l: u32| lines[l] > 0);
    lines_outside_are_those_no_node_spans(nodes, rows, i);
    assert(outside =~= crate::resolver::lines_outside(lines, group));
    assert(covered =~= crate::resolver::lines_hit(lines, outside));
    assert(nodes.contains(nodes[n]));
    members_of_a_row(nodes, rows, i, nodes[n]);
    if outside.len() > 0 {
        no_measured_line_is_lost(nodes, rows, workspace_key, i);
    }
}

/// The lines outside the nodes of a row are those that none of its nodes spans.
proof fn lines_outside_are_those_no_node_spans(nodes: Seq<Symbol>, rows: Seq<FileRow>, i: int)
    requires
        0 <= i < rows.len(),
    ensures
        forall|l: u32|
            crate::resolver::some_spans(crate::resolver::nodes_of(nodes, rows, i), l) <==> !(forall|
                m: int,
            |
                0 <= m < nodes.len() && crate::resolver::same_file(
                    (#[trigger] nodes[m]).source_file,
                    rows[i].0,
                ) && (forall|j: int|
                    0 <= j < i ==> !crate::resolver::same_file(
                        nodes[m].source_file,
                        #[trigger] rows[j].0,
                    )) ==> !(nodes[m].start_line <= l && l <= nodes[m].end_line)),
{
    let group = crate::resolver::nodes_of(nodes, rows, i);
    assert forall|l: u32| crate::resolver::some_spans(group, l) <==> !(forall|m: int|
        0 <= m < nodes.len() && crate::resolver::same_file(
            (#[trigger] nodes[m]).source_file,
            rows[i].0,
        ) && (forall|j: int|
            0 <= j < i ==> !crate::resolver::same_file(
                nodes[m].source_file,
                #[trigger] rows[j].0,
            )) ==> !(nodes[m].start_line <= l && l <= nodes[m].end_line)) by {
        if crate::resolver::some_spans(group, l) {
            let g = choose|g: int|
                0 <= g < group.len() && crate::resolver::spans(#[trigger] group[g], l);
            assert(group.contains(group[g]));
            members_of_a_row(nodes, rows, i, group[g]);
            let m = choose|m: int| 0 <= m < nodes.len() && nodes[m] == group[g];
            assert(nodes[m].start_line <= l && l <= nodes[m].end_line);
        } else {
            assert forall|m: int|
                0 <= m < nodes.len() && crate::resolver::same_file(
                    (#[trigger] nodes[m]).source_file,
                    rows[i].0,
                ) && (forall|j: int|
                    0 <= j < i ==> !crate::resolver::same_file(
                        nodes[m].source_file,
                        #[trigger] rows[j].0,
                    )) implies !(nodes[m].start_line <= l && l <= nodes[m].end_line) by {
                assert(nodes.contains(nodes[m]));
                members_of_a_row(nodes, rows, i, nodes[m]);
                let g = choose|g: int| 0 <= g < group.len() && group[g] == nodes[m];
                assert(!crate::resolver::spans(group[g], l));
            }
        }
    }
}

/// There are no other bindings: each one is that of a node to the measured lines in its range,
/// the node being `w.0` and the row `w.1`; or, with `w.0` being -1, that of row `w.1` to the
/// lines that none of its nodes spans, and the row has nodes.
pub proof fn every_binding_is_of_a_node_or_of_a_file(
    nodes: Seq<Symbol>,
    rows: Seq<FileRow>,
    workspace_key: Seq<char>,
    x: int,
) -> (w: (int, int))
    requires
        0 <= x < crate::resolver::resolved(nodes, rows, workspace_key).len(),
    ensures
        ({
            let b = crate::resolver::resolved(nodes, rows, workspace_key)[x];
            let (n, i) = w;
            let lines = rows[i].1;
            &&& 0 <= i < rows.len()
            &&& b.workspace_key == workspace_key
            &&& b.file_path == rows[i].0
            &&& b.updated_at == Seq::<char>::empty()
            &&& b.total_lines > 0
            &&& b.is_blindspot == (2 * b.covered_lines < b.total_lines)
            &&& if n >= 0 {
                let inside = lines.dom().filter(
                    |l: u32| nodes[n].start_line <= l && l <= nodes[n].end_line,
                );
                &&& n < nodes.len()
                &&& b.canonical_node_id == nodes[n].id
                &&& crate::resolver::same_file(nodes[n].source_file, rows[i].0)
                &&& forall|j: int|
                    0 <= j < i ==> !crate::resolver::same_file(
                        nodes[n].source_file,
                        #[trigger] rows[j].0,
                    )
                &&& b.total_lines == inside.len()
                &&& b.covered_lines == inside.filter(|l: u32| lines[l] > 0).len()
            } else {
                let outside = lines.dom().filter(
                    |l: u32|
                        forall|m: int|
                            0 <= m < nodes.len() && crate::resolver::same_file(
                                (#[trigger] nodes[m]).source_file,
                                rows[i].0,
                            ) && (forall|j: int|
                                0 <= j < i ==> !crate::resolver::same_file(
                                    nodes[m].source_file,
                                    #[trigger] rows[j].0,
                                )) ==> !(nodes[m].start_line <= l && l <= nodes[m].end_line),
                );
                &&& b.canonical_node_id == "file:"@ + rows[i].0
                &&& exists|m: int|
                    0 <= m < nodes.len() && crate::resolver::same_file(
                        (#[trigger] nodes[m]).source_file,
                        rows[i].0,
                    )
                &&& b.total_lines == outside.len()
                &&& b.covered_lines == outside.filter(|l: u32| lines[l] > 0).len()
            }
        }),
{
    let found = crate::resolver::candidates(nodes, rows, rows.len());
    let first = crate::resolver::node_bindings(found, rows, workspace_key);
    let second = crate::resolver::file_bindings(nodes, rows, workspace_key, rows.len());
    let b = crate::resolver::resolved(nodes, rows, workspace_key)[x];
    if x < first.len() {
        assert(first.contains(first[x]));
        node_bindings_are_those_of_bound_nodes(found, rows, workspace_key, b);
        let k = choose|k: int|
            #[trigger] crate::resolver::is_bound(found, rows, k) && b
                == crate::resolver::candidate_binding(found[k], rows, workspace_key);
        let c = found[k];
        assert(found.contains(c));
        candidates_are_nodes_with_their_row(nodes, rows, rows.len(), c);
        let n = choose|n: int| 0 <= n < nodes.len() && nodes[n] == c.1;
        let lines = rows[c.0].1;
        let inside = lines.dom().filter(
            |l: u32| nodes[n].start_line <= l && l <= nodes[n].end_line,
        );
        assert(inside =~= crate::resolver::lines_inside(lines, c.1));
        assert(inside.filter(|l: u32| lines[l] > 0) =~= crate::resolver::lines_hit(
            lines,
            inside,
        ));
        (n, c.0)
    } else {
        assert(second.contains(second[x - first.len()]));
        file_bindings_are_those_of_rows_with_a_rest(nodes, rows, workspace_key, rows.len(), b);
        let i = choose|i: int|
            i < rows.len() && #[trigger] has_rest(nodes, rows, i) && b == rest_binding(
                nodes,
                rows,
                workspace_key,
                i,
            );
        let lines = rows[i].1;
        let group = crate::resolver::nodes_of(nodes, rows, i);
        lines_outside_are_those_no_node_spans(nodes, rows, i);
        let outside = lines.dom().filter(
            |l: u32|
                forall|m: int|
                    0 <= m < nodes.len() && crate::resolver::same_file(
                        (#[trigger] nodes[m]).source_file,
                        rows[i].0,
                    ) && (forall|j: int|
                        0 <= j < i ==> !crate::resolver::same_file(
                            nodes[m].source_file,
                            #[trigger] rows[j].0,
                        )) ==> !(nodes[m].start_line <= l && l <= nodes[m].end_line),
        );
        assert(outside =~= crate::resolver::lines_outside(lines, group));
        assert(outside.filter(|l: u32| lines[l] > 0) =~= crate::resolver::lines_hit(
            lines,
            outside,
        ));
        assert(group.contains(group[0]));
        members_of_a_row(nodes, rows, i, group[0]);
        let m = choose|m: int| 0 <= m < nodes.len() && nodes[m] == group[0];
        assert(crate::resolver::same_file(nodes[m].source_file, rows[i].0));
        (-1, i)
    }
}

/// No id is bound twice, unless a node bears an id made of `file:` and the path of a file.
pub proof fn no_id_is_bound_twice(
    nodes: Seq<Symbol>,
    rows: Seq<FileRow>,
    workspace_key: Seq<char>,
    x: int,
    y: int,
)
    requires
        crate::file_table::in_path_order(rows),
        forall|n: int, i: int|
            0 <= n < nodes.len() && 0 <= i < rows.len() ==> #[trigger] nodes[n].id != "file:"@
                + #[trigger] rows[i].0,
        0 <= x < y < crate::resolver::resolved(nodes, rows, workspace_key).len(),
    ensures
        crate::resolver::resolved(nodes, rows, workspace_key)[x].canonical_node_id
            != crate::resolver::resolved(nodes, rows, workspace_key)[y].canonical_node_id,
{
    if crate::resolver::resolved(nodes, rows, workspace_key)[x].canonical_node_id
        == crate::resolver::resolved(nodes, rows, workspace_key)[y].canonical_node_id {
        ids_are_distinct(nodes, rows, workspace_key, x, y);
        let found = crate::resolver::candidates(nodes, rows, rows.len());
        let (k, r) = choose|k: int, r: int|
            #[trigger] crate::resolver::is_bound(found, rows, k) && #[trigger] has_rest(
                nodes,
                rows,
                r,
            ) && found[k].1.id == crate::resolver::file_level_id(rows[r].0);
        assert(found.contains(found[k]));
        candidates_are_nodes_with_their_row(nodes, rows, rows.len(), found[k]);
        let n = choose|n: int| 0 <= n < nodes.len() && nodes[n] == found[k].1;
        assert(nodes[n].id == "file:"@ + rows[r].0);
    }
}

} // verus!
