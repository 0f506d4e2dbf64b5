//! The bindings of a file add up to its lines.
use vstd::prelude::*;

use crate::file_table::FileRow;
use crate::graph::Symbol;
use crate::registry::Binding;
use crate::resolver::Candidate;

verus! {

/// How many of the lines `chosen` there are, or how many of them were hit.
spec fn lines_counted(lines: Map<u32, u64>, chosen: Set<u32>, hit: bool) -> int {
    if hit {
        crate::resolver::lines_hit(lines, chosen).len() as int
    } else {
        chosen.len() as int
    }
}

/// The sum of the measured lines, or of the covered ones.
spec fn sum_of(rows: Seq<Binding>, hit: bool) -> int {
    if hit {
        crate::plugin::sum_covered(rows)
    } else {
        crate::plugin::sum_total(rows)
    }
}

/// The bindings to a path.
pub open spec fn bindings_to(rows: Seq<Binding>, path: Seq<char>) -> Seq<Binding> {
    rows.filter(|b: Binding| b.file_path == path)
}

/// No two nodes have one id.
pub open spec fn ids_differ(nodes: Seq<Symbol>) -> bool {
    forall|i: int, j: int|
        0 <= i < j < nodes.len() ==> #[trigger] nodes[i].id != #[trigger] nodes[j].id
}

/// No measured line lies in the ranges of two of the nodes.
pub open spec fn ranges_are_disjoint(nodes: Seq<Symbol>, lines: Map<u32, u64>) -> bool {
    forall|i: int, j: int, l: u32|
        0 <= i < j < nodes.len() && lines.contains_key(l) ==> !(#[trigger] crate::resolver::spans(
            nodes[i],
            l,
        ) && #[trigger] crate::resolver::spans(nodes[j], l))
}

/// The sum over two sequences is the sum of the sums.
proof fn sums_add(a: Seq<Binding>, b: Seq<Binding>, hit: bool)
    ensures
        sum_of(a + b, hit) == sum_of(a, hit) + sum_of(b, hit),
    decreases b.len(),
{
    if b.len() == 0 {
        assert(a + b =~= a);
    } else {
        sums_add(a, b.drop_last(), hit);
        assert((a + b).drop_last() =~= a + b.drop_last());
        assert((a + b).last() == b.last());
    }
}

/// One binding more adds its lines if it is one to the path.
proof fn sum_of_one_more(rows: Seq<Binding>, b: Binding, path: Seq<char>, hit: bool)
    ensures
        sum_of(bindings_to(rows.push(b), path), hit) == sum_of(bindings_to(rows, path), hit)
            + if b.file_path == path {
            if hit {
                b.covered_lines
            } else {
                b.total_lines
            }
        } else {
            0
        },
{
    reveal(Seq::filter);
    let longer = rows.push(b);
    assert(longer.drop_last() =~= rows);
    let own = bindings_to(rows, path);
    if b.file_path == path {
        assert(bindings_to(longer, path) == own.push(b));
        assert(own.push(b).drop_last() =~= own);
    }
}

/// Paths in order are different.
proof fn rows_have_their_own_path(rows: Seq<FileRow>, i: int, k: int)
    requires
        crate::file_table::in_path_order(rows),
        0 <= i < rows.len(),
        0 <= k < rows.len(),
    ensures
        rows[i].0 == rows[k].0 <==> i == k,
{
    crate::file_table::path_order_is_irreflexive(rows[i].0);
    if i < k {
        assert(crate::file_table::path_before(rows[i].0, rows[k].0));
    } else if k < i {
        assert(crate::file_table::path_before(rows[k].0, rows[i].0));
    }
}

// ---------------------------------------------------------------------------
// Candidates
// ---------------------------------------------------------------------------

/// The lines in the ranges of the candidates of row `k`, each counted for itself.
spec fn sum_of_candidates(
    found: Seq<Candidate>,
    rows: Seq<FileRow>,
    k: int,
    hit: bool,
) -> int
    decreases found.len(),
{
    if found.len() == 0 {
        0
    } else {
        let c = found.last();
        sum_of_candidates(found.drop_last(), rows, k, hit) + if c.0 == k {
            lines_counted(rows[k].1, crate::resolver::lines_inside(rows[k].1, c.1), hit)
        } else {
            0
        }
    }
}

/// The lines in the ranges of the nodes, each counted for itself.
spec fn sum_of_nodes(nodes: Seq<Symbol>, lines: Map<u32, u64>, hit: bool) -> int
    decreases nodes.len(),
{
    if nodes.len() == 0 {
        0
    } else {
        sum_of_nodes(nodes.drop_last(), lines, hit) + lines_counted(
            lines,
            crate::resolver::lines_inside(lines, nodes.last()),
            hit,
        )
    }
}

/// Nodes of one row, put behind other candidates, add their lines if it is the row in question.
proof fn sum_of_a_group(
    before: Seq<Candidate>,
    group: Seq<Symbol>,
    i: int,
    rows: Seq<FileRow>,
    k: int,
    hit: bool,
)
    ensures
        sum_of_candidates(before + group.map_values(|n: Symbol| (i, n)), rows, k, hit)
            == sum_of_candidates(before, rows, k, hit) + if i == k {
            sum_of_nodes(group, rows[k].1, hit)
        } else {
            0
        },
    decreases group.len(),
{
    let added = group.map_values(|n: Symbol| (i, n));
    if group.len() == 0 {
        assert(before + added =~= before);
    } else {
        let init = group.drop_last();
        sum_of_a_group(before, init, i, rows, k, hit);
        assert((before + added).drop_last() =~= before + init.map_values(|n: Symbol| (i, n)));
        assert((before + added).last() == (i, group.last()));
    }
}

/// The candidates of a row are its nodes.
proof fn sum_of_a_row(nodes: Seq<Symbol>, rows: Seq<FileRow>, m: nat, k: int, hit: bool)
    ensures
        sum_of_candidates(crate::resolver::candidates(nodes, rows, m), rows, k, hit) == if 0 <= k
            < m {
            sum_of_nodes(crate::resolver::nodes_of(nodes, rows, k), rows[k].1, hit)
        } else {
            0
        },
    decreases m,
{
    if m > 0 {
        sum_of_a_row(nodes, rows, (m - 1) as nat, k, hit);
        sum_of_a_group(
            crate::resolver::candidates(nodes, rows, (m - 1) as nat),
            crate::resolver::nodes_of(nodes, rows, m - 1),
            m - 1,
            rows,
            k,
            hit,
        );
    }
}

/// The members of a filtered sequence keep their different ids.
proof fn filtered_ids_differ(nodes: Seq<Symbol>, p: spec_fn(Symbol) -> bool)
    requires
        ids_differ(nodes),
    ensures
        ids_differ(nodes.filter(p)),
    decreases nodes.len(),
{
    reveal(Seq::filter);
    let out = nodes.filter(p);
    if nodes.len() > 0 {
        let init = nodes.drop_last();
        assert forall|i: int, j: int| 0 <= i < j < init.len() implies #[trigger] init[i].id
            != #[trigger] init[j].id by {
            assert(nodes[i].id != nodes[j].id);
        }
        filtered_ids_differ(init, p);
        let rest = init.filter(p);
        assert forall|i: int, j: int| 0 <= i < j < out.len() implies #[trigger] out[i].id
            != #[trigger] out[j].id by {
            assert(out[i] == rest[i]);
            if j < rest.len() {
                assert(rest[i].id != rest[j].id);
            } else {
                assert(rest.contains(rest[i]));
                init.lemma_filter_contains_rev(p, rest[i]);
                let x = choose|x: int| 0 <= x < init.len() && init[x] == rest[i];
                assert(nodes[x].id != nodes[nodes.len() - 1].id);
            }
        }
    }
}

/// Candidates from nodes with different ids have different ids.
proof fn candidate_ids_differ(nodes: Seq<Symbol>, rows: Seq<FileRow>, m: nat)
    requires
        ids_differ(nodes),
    ensures
        forall|i: int, j: int|
            0 <= i < j < crate::resolver::candidates(nodes, rows, m).len()
                ==> #[trigger] crate::resolver::candidates(nodes, rows, m)[i].1.id
                != #[trigger] crate::resolver::candidates(nodes, rows, m)[j].1.id,
    decreases m,
{
    if m > 0 {
        let r = m - 1;
        let before = crate::resolver::candidates(nodes, rows, r as nat);
        let group = crate::resolver::nodes_of(nodes, rows, r);
        let all = crate::resolver::candidates(nodes, rows, m);
        candidate_ids_differ(nodes, rows, r as nat);
        filtered_ids_differ(
            nodes,
            |n: Symbol| crate::resolver::belongs_to(n.source_file, rows, r),
        );
        let n = before.len() as int;
        assert forall|i: int, j: int| 0 <= i < j < all.len() implies #[trigger] all[i].1.id
            != #[trigger] all[j].1.id by {
            if j < n {
                assert(before[i].1.id != before[j].1.id);
            } else if i >= n {
                assert(all[i].1 == group[i - n] && all[j].1 == group[j - n]);
                assert(group[i - n].id != group[j - n].id);
            } else {
                let c = before[i];
                let d = group[j - n];
                assert(all[i] == c && all[j].1 == d);
                assert(before.contains(c));
                assert(group.contains(d));
                crate::binding_laws::candidates_are_nodes_with_their_row(
                    nodes,
                    rows,
                    r as nat,
                    c,
                );
                crate::binding_laws::members_of_a_row(nodes, rows, r, d);
                let x = choose|x: int| 0 <= x < nodes.len() && nodes[x] == c.1;
                let y = choose|y: int| 0 <= y < nodes.len() && nodes[y] == d;
                if c.1.id == d.id {
                    if x < y {
                        assert(nodes[x].id != nodes[y].id);
                    } else if y < x {
                        assert(nodes[y].id != nodes[x].id);
                    }
                    assert(!crate::resolver::same_file(d.source_file, rows[c.0].0));
                }
            }
        }
    }
}

/// With different ids all candidates with measured lines are bound, so that the bindings of
/// nodes to a row sum up what its candidates count.
proof fn sum_of_node_bindings(
    found: Seq<Candidate>,
    rows: Seq<FileRow>,
    workspace_key: Seq<char>,
    n: nat,
    k: int,
    hit: bool,
)
    requires
        n <= found.len(),
        0 <= k < rows.len(),
        crate::file_table::in_path_order(rows),
        rows[k].1.dom().finite(),
        forall|i: int| 0 <= i < found.len() ==> 0 <= (#[trigger] found[i]).0 < rows.len(),
        forall|i: int, j: int|
            0 <= i < j < found.len() ==> #[trigger] found[i].1.id != #[trigger] found[j].1.id,
    ensures
        sum_of(
            bindings_to(
                crate::resolver::bound_among(found, rows, workspace_key, n),
                rows[k].0,
            ),
            hit,
        ) == sum_of_candidates(found.take(n as int), rows, k, hit),
    decreases n,
{
    reveal(Seq::filter);
    if n > 0 {
        let last = n - 1;
        let c = found[last];
        let done = crate::resolver::bound_among(found, rows, workspace_key, last as nat);
        let b = crate::resolver::candidate_binding(c, rows, workspace_key);
        sum_of_node_bindings(found, rows, workspace_key, last as nat, k, hit);
        assert(found.take(n as int).drop_last() =~= found.take(last));
        assert(found.take(n as int).last() == c);
        rows_have_their_own_path(rows, c.0, k);
        sum_of_one_more(done, b, rows[k].0, hit);
        assert(crate::resolver::is_bound(found, rows, last) == crate::resolver::has_lines(
            c,
            rows,
        )) by {
            assert forall|j: int|
                0 <= j < found.len() && found[j].1.id == c.1.id implies #[trigger] found[j]
                == c && j == last by {
                if j < last {
                    assert(found[j].1.id != found[last].1.id);
                } else if last < j {
                    assert(found[last].1.id != found[j].1.id);
                }
            }
        }
        if c.0 == k && !crate::resolver::has_lines(c, rows) {
            let chosen = crate::resolver::lines_inside(rows[k].1, c.1);
            vstd::set_lib::lemma_len_subset(chosen, rows[k].1.dom());
            vstd::set_lib::lemma_len_subset(
                crate::resolver::lines_hit(rows[k].1, chosen),
                chosen,
            );
        }
    } else {
        assert(found.take(0) =~= Seq::<Candidate>::empty());
    }
}

/// The bindings of files to a row are that of its rest.
proof fn sum_of_file_bindings(
    nodes: Seq<Symbol>,
    rows: Seq<FileRow>,
    workspace_key: Seq<char>,
    m: nat,
    k: int,
    hit: bool,
)
    requires
        m <= rows.len(),
        0 <= k < rows.len(),
        crate::file_table::in_path_order(rows),
        rows[k].1.dom().finite(),
        crate::resolver::nodes_of(nodes, rows, k).len() > 0,
    ensures
        sum_of(
            bindings_to(
                crate::resolver::file_bindings(nodes, rows, workspace_key, m),
                rows[k].0,
            ),
            hit,
        ) == if k < m {
            lines_counted(
                rows[k].1,
                crate::resolver::lines_outside(
                    rows[k].1,
                    crate::resolver::nodes_of(nodes, rows, k),
                ),
                hit,
            )
        } else {
            0
        },
    decreases m,
{
    reveal(Seq::filter);
    if m > 0 {
        let r = m - 1;
        let done = crate::resolver::file_bindings(nodes, rows, workspace_key, r as nat);
        sum_of_file_bindings(nodes, rows, workspace_key, r as nat, k, hit);
        rows_have_their_own_path(rows, r, k);
        let b = crate::binding_laws::rest_binding(nodes, rows, workspace_key, r);
        sum_of_one_more(done, b, rows[k].0, hit);
        if r == k {
            let outside = crate::resolver::lines_outside(
                rows[k].1,
                crate::resolver::nodes_of(nodes, rows, k),
            );
            vstd::set_lib::lemma_len_subset(outside, rows[k].1.dom());
            vstd::set_lib::lemma_len_subset(
                crate::resolver::lines_hit(rows[k].1, outside),
                outside,
            );
        }
    }
}

// ---------------------------------------------------------------------------
// Lines
// ---------------------------------------------------------------------------

/// Lines in two separate sets are counted in each.
proof fn counts_add(lines: Map<u32, u64>, a: Set<u32>, b: Set<u32>, hit: bool)
    requires
        a.finite(),
        b.finite(),
        a.disjoint(b),
    ensures
        lines_counted(lines, a + b, hit) == lines_counted(lines, a, hit) + lines_counted(
            lines,
            b,
            hit,
        ),
{
    let ha = crate::resolver::lines_hit(lines, a);
    let hb = crate::resolver::lines_hit(lines, b);
    vstd::set_lib::lemma_set_disjoint_lens(a, b);
    vstd::set_lib::lemma_len_subset(ha, a);
    vstd::set_lib::lemma_len_subset(hb, b);
    assert(ha.disjoint(hb));
    assert(crate::resolver::lines_hit(lines, a + b) =~= ha + hb);
    vstd::set_lib::lemma_set_disjoint_lens(ha, hb);
}

/// With disjoint ranges the nodes count each line that they span once.
proof fn disjoint_ranges_add(nodes: Seq<Symbol>, lines: Map<u32, u64>, hit: bool)
    requires
        lines.dom().finite(),
        ranges_are_disjoint(nodes, lines),
    ensures
        sum_of_nodes(nodes, lines, hit) == lines_counted(
            lines,
            lines.dom().filter(|l: u32| crate::resolver::some_spans(nodes, l)),
            hit,
        ),
    decreases nodes.len(),
{
    let spanned = lines.dom().filter(|l: u32| crate::resolver::some_spans(nodes, l));
    if nodes.len() == 0 {
        assert(spanned =~= Set::empty());
        assert(crate::resolver::lines_hit(lines, spanned) =~= Set::empty());
    } else {
        let init = nodes.drop_last();
        let last = nodes.last();
        let n = nodes.len() - 1;
        assert forall|i: int, j: int, l: u32|
            0 <= i < j < init.len() && lines.contains_key(l) implies !(
        #[trigger] crate::resolver::spans(init[i], l) && #[trigger] crate::resolver::spans(
            init[j],
            l,
        )) by {
            assert(init[i] == nodes[i] && init[j] == nodes[j]);
        }
        disjoint_ranges_add(init, lines, hit);
        let before = lines.dom().filter(|l: u32| crate::resolver::some_spans(init, l));
        let own = crate::resolver::lines_inside(lines, last);
        vstd::set_lib::lemma_len_subset(before, lines.dom());
        vstd::set_lib::lemma_len_subset(own, lines.dom());
        assert forall|l: u32| !(before.contains(l) && own.contains(l)) by {
            if before.contains(l) && own.contains(l) {
                let i = choose|i: int|
                    0 <= i < init.len() && crate::resolver::spans(#[trigger] init[i], l);
                assert(crate::resolver::spans(nodes[i], l));
                assert(crate::resolver::spans(nodes[n], l));
            }
        }
        assert(before.disjoint(own));
        assert forall|l: u32| #[trigger]
            crate::resolver::some_spans(nodes, l) == (crate::resolver::some_spans(init, l)
                || crate::resolver::spans(last, l)) by {
            if crate::resolver::some_spans(nodes, l) {
                let i = choose|i: int|
                    0 <= i < nodes.len() && crate::resolver::spans(#[trigger] nodes[i], l);
                if i < n {
                    assert(crate::resolver::spans(init[i], l));
                }
            }
            if crate::resolver::some_spans(init, l) {
                let i = choose|i: int|
                    0 <= i < init.len() && crate::resolver::spans(#[trigger] init[i], l);
                assert(crate::resolver::spans(nodes[i], l));
            }
            if crate::resolver::spans(last, l) {
                assert(crate::resolver::spans(nodes[n], l));
            }
        }
        assert(spanned =~= before + own);
        counts_add(lines, before, own, hit);
    }
}

/// The bindings to a row sum up its lines.
proof fn bindings_sum_up(
    nodes: Seq<Symbol>,
    rows: Seq<FileRow>,
    workspace_key: Seq<char>,
    k: int,
    hit: bool,
)
    requires
        crate::file_table::in_path_order(rows),
        0 <= k < rows.len(),
        rows[k].1.dom().finite(),
        crate::resolver::nodes_of(nodes, rows, k).len() > 0,
        ids_differ(nodes),
        ranges_are_disjoint(crate::resolver::nodes_of(nodes, rows, k), rows[k].1),
    ensures
        sum_of(
            bindings_to(crate::resolver::resolved(nodes, rows, workspace_key), rows[k].0),
            hit,
        ) == lines_counted(rows[k].1, rows[k].1.dom(), hit),
{
    let lines = rows[k].1;
    let group = crate::resolver::nodes_of(nodes, rows, k);
    let found = crate::resolver::candidates(nodes, rows, rows.len());
    let first = crate::resolver::node_bindings(found, rows, workspace_key);
    let second = crate::resolver::file_bindings(nodes, rows, workspace_key, rows.len());
    let path = rows[k].0;
    candidate_ids_differ(nodes, rows, rows.len());
    assert forall|i: int| 0 <= i < found.len() implies 0 <= (#[trigger] found[i]).0
        < rows.len() by {
        assert(found.contains(found[i]));
        crate::binding_laws::candidates_are_nodes_with_their_row(
            nodes,
            rows,
            rows.len(),
            found[i],
        );
    }
    sum_of_node_bindings(found, rows, workspace_key, found.len(), k, hit);
    assert(found.take(found.len() as int) =~= found);
    sum_of_a_row(nodes, rows, rows.len(), k, hit);
    disjoint_ranges_add(group, lines, hit);
    sum_of_file_bindings(nodes, rows, workspace_key, rows.len(), k, hit);
    Seq::filter_distributes_over_add(first, second, |b: Binding| b.file_path == path);
    sums_add(bindings_to(first, path), bindings_to(second, path), hit);
    let spanned = lines.dom().filter(|l: u32| crate::resolver::some_spans(group, l));
    let outside = crate::resolver::lines_outside(lines, group);
    vstd::set_lib::lemma_len_subset(spanned, lines.dom());
    vstd::set_lib::lemma_len_subset(outside, lines.dom());
    assert(spanned.disjoint(outside));
    assert(spanned + outside =~= lines.dom());
    counts_add(lines, spanned, outside, hit);
}

/// The bindings of a file add up: if no two nodes have one id and no measured line lies in the
/// ranges of two nodes of the file, the lines of its bindings are its measured lines, and their
/// covered lines its hit lines, each counted once.
pub proof fn bindings_add_up_to_the_file(
    nodes: Seq<Symbol>,
    rows: Seq<FileRow>,
    workspace_key: Seq<char>,
    k: int,
)
    requires
        crate::file_table::in_path_order(rows),
        0 <= k < rows.len(),
        rows[k].1.dom().finite(),
        crate::resolver::nodes_of(nodes, rows, k).len() > 0,
        ids_differ(nodes),
        ranges_are_disjoint(crate::resolver::nodes_of(nodes, rows, k), rows[k].1),
    ensures
        ({
            let own = bindings_to(
                crate::resolver::resolved(nodes, rows, workspace_key),
                rows[k].0,
            );
            let lines = rows[k].1;
            &&& crate::plugin::sum_total(own) == lines.dom().len()
            &&& crate::plugin::sum_covered(own) == crate::resolver::lines_hit(
                lines,
                lines.dom(),
            ).len()
        }),
{
    bindings_sum_up(nodes, rows, workspace_key, k, false);
    bindings_sum_up(nodes, rows, workspace_key, k, true);
}

} // verus!
