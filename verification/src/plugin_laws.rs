//! What holds of an ingest, from the coverage source to the table.
use vstd::prelude::*;

use crate::file_table::FileRow;
use crate::graph::Symbol;
use crate::plugin::{CoverageError, CoveragePlugin, CoverageSummary, Ingest};
use crate::registry::Binding;
use crate::table::{Outcome, Table};

verus! {

/// What an ingest writes is a snapshot (all rows are of the workspace, and no two have one id)
/// exactly if no bound node bears the id of a bound file.
pub proof fn an_ingest_writes_a_snapshot(
    nodes: Seq<Symbol>,
    rows: Seq<FileRow>,
    workspace_key: Seq<char>,
    now: Seq<char>,
)
    requires
        crate::file_table::in_path_order(rows),
        forall|k: int| 0 <= k < rows.len() ==> (#[trigger] rows[k]).1.dom().finite(),
    ensures
        crate::table::is_snapshot(
            workspace_key,
            crate::registry::stamped(
                crate::resolver::resolved(nodes, rows, workspace_key),
                now,
            ),
        ) <==> !crate::binding_laws::ids_clash(nodes, rows),
{
    let found = crate::resolver::candidates(nodes, rows, rows.len());
    let first = crate::resolver::node_bindings(found, rows, workspace_key);
    let second = crate::resolver::file_bindings(nodes, rows, workspace_key, rows.len());
    let bound = crate::resolver::resolved(nodes, rows, workspace_key);
    let written = crate::registry::stamped(bound, now);
    assert forall|i: int| 0 <= i < written.len() implies (#[trigger] written[i]).workspace_key
        == workspace_key by {
        crate::binding_laws::bindings_are_sound(nodes, rows, workspace_key, i);
    }
    if !crate::binding_laws::ids_clash(nodes, rows) {
        assert forall|i: int, j: int| 0 <= i < j < written.len() implies #[trigger]
            written[i].canonical_node_id != #[trigger] written[j].canonical_node_id by {
            if bound[i].canonical_node_id == bound[j].canonical_node_id {
                crate::binding_laws::ids_are_distinct(nodes, rows, workspace_key, i, j);
            }
        }
    } else {
        let (k, r) = choose|k: int, r: int|
            #[trigger] crate::resolver::is_bound(found, rows, k)
                && #[trigger] crate::binding_laws::has_rest(nodes, rows, r) && found[k].1.id
                == crate::resolver::file_level_id(rows[r].0);
        let a = crate::resolver::candidate_binding(found[k], rows, workspace_key);
        let b = crate::binding_laws::rest_binding(nodes, rows, workspace_key, r);
        crate::binding_laws::node_bindings_are_those_of_bound_nodes(found, rows, workspace_key, a);
        crate::binding_laws::file_bindings_are_those_of_rows_with_a_rest(
            nodes,
            rows,
            workspace_key,
            rows.len(),
            b,
        );
        let i = choose|i: int| 0 <= i < first.len() && first[i] == a;
        let j = choose|j: int| 0 <= j < second.len() && second[j] == b;
        assert(written[i].canonical_node_id == written[first.len() + j].canonical_node_id);
    }
}

/// What an ingest writes is read: once its replacement is through without a failure, each
/// binding is found under its id with the time of the ingest, and the workspace has as many
/// rows as there are bindings.
pub proof fn an_ingest_is_read_back(
    table: Table,
    nodes: Seq<Symbol>,
    rows: Seq<FileRow>,
    workspace_key: Seq<char>,
    now: Seq<char>,
    outcomes: Seq<Outcome>,
    i: int,
)
    requires
        crate::file_table::in_path_order(rows),
        forall|k: int| 0 <= k < rows.len() ==> (#[trigger] rows[k]).1.dom().finite(),
        !crate::binding_laws::ids_clash(nodes, rows),
        ({
            let bound = crate::resolver::resolved(nodes, rows, workspace_key);
            let run = crate::table::run_of(
                table,
                workspace_key,
                crate::registry::stamped(bound, now),
                outcomes,
            );
            &&& bound.len() <= usize::MAX
            &&& run.due is Done && !run.failed
            &&& 0 <= i < bound.len()
        }),
    ensures
        ({
            let bound = crate::resolver::resolved(nodes, rows, workspace_key);
            let after = crate::table::run_of(
                table,
                workspace_key,
                crate::registry::stamped(bound, now),
                outcomes,
            ).database.committed;
            let key = (workspace_key, bound[i].canonical_node_id);
            &&& after.contains_key(key)
            &&& after[key] == (Binding { updated_at: now, ..bound[i] })
            &&& crate::table::workspace_keys(after, workspace_key).len() == bound.len()
        }),
{
    let bound = crate::resolver::resolved(nodes, rows, workspace_key);
    let written = crate::registry::stamped(bound, now);
    an_ingest_writes_a_snapshot(nodes, rows, workspace_key, now);
    crate::table::replacement_is_atomic(table, workspace_key, written, outcomes);
    crate::table::what_is_written_is_read(table, workspace_key, written, i);
    crate::table::rows_are_counted(table, workspace_key, written);
    assert(written[i] == (Binding { updated_at: now, ..bound[i] }));
}

/// An ingest reports as many blindspots as the table then has.
pub proof fn the_summary_counts_the_blindspots_of_the_table(
    table: Table,
    nodes: Seq<Symbol>,
    rows: Seq<FileRow>,
    workspace_key: Seq<char>,
    now: Seq<char>,
    summary: CoverageSummary,
)
    requires
        crate::file_table::in_path_order(rows),
        forall|k: int| 0 <= k < rows.len() ==> (#[trigger] rows[k]).1.dom().finite(),
        !crate::binding_laws::ids_clash(nodes, rows),
        crate::plugin::sums_up(
            summary,
            crate::resolver::resolved(nodes, rows, workspace_key),
            crate::resolver::node_bindings(
                crate::resolver::candidates(nodes, rows, rows.len()),
                rows,
                workspace_key,
            ).len(),
        ),
    ensures
        summary.blindspots == crate::table::blindspot_keys(
            crate::table::replaced(
                table,
                workspace_key,
                crate::registry::stamped(
                    crate::resolver::resolved(nodes, rows, workspace_key),
                    now,
                ),
            ),
            workspace_key,
        ).len(),
{
    let bound = crate::resolver::resolved(nodes, rows, workspace_key);
    an_ingest_writes_a_snapshot(nodes, rows, workspace_key, now);
    crate::table::rows_are_counted(table, workspace_key, crate::registry::stamped(bound, now));
    stamps_leave_blindspots(bound, now);
}

/// A stamp changes no blindspot.
proof fn stamps_leave_blindspots(rows: Seq<Binding>, now: Seq<char>)
    ensures
        crate::registry::stamped(rows, now).filter(|b: Binding| b.is_blindspot).len()
            == rows.filter(|b: Binding| b.is_blindspot).len(),
    decreases rows.len(),
{
    reveal(Seq::filter);
    if rows.len() > 0 {
        stamps_leave_blindspots(rows.drop_last(), now);
        assert(crate::registry::stamped(rows, now).drop_last() =~= crate::registry::stamped(
            rows.drop_last(),
            now,
        ));
    }
}

/// The bound nodes of a summary are the bindings to nodes: one for each id that a node with
/// measured lines has, those of files left out.
pub proof fn bound_nodes_are_the_bindings_to_nodes(
    nodes: Seq<Symbol>,
    rows: Seq<FileRow>,
    workspace_key: Seq<char>,
    summary: CoverageSummary,
)
    requires
        crate::plugin::sums_up(
            summary,
            crate::resolver::resolved(nodes, rows, workspace_key),
            crate::resolver::node_bindings(
                crate::resolver::candidates(nodes, rows, rows.len()),
                rows,
                workspace_key,
            ).len(),
        ),
    ensures
        summary.bound_nodes == crate::binding_laws::measured_ids(nodes, rows).len(),
        summary.bound_nodes + crate::resolver::file_bindings(
            nodes,
            rows,
            workspace_key,
            rows.len(),
        ).len() == crate::resolver::resolved(nodes, rows, workspace_key).len(),
{
    crate::binding_laws::every_measured_id_is_bound_once(nodes, rows, workspace_key);
}

/// A summary covers no more lines than there are, and no fewer than none.
pub proof fn summaries_are_sound(
    nodes: Seq<Symbol>,
    rows: Seq<FileRow>,
    workspace_key: Seq<char>,
    summary: CoverageSummary,
)
    requires
        forall|k: int| 0 <= k < rows.len() ==> (#[trigger] rows[k]).1.dom().finite(),
        crate::plugin::sums_up(
            summary,
            crate::resolver::resolved(nodes, rows, workspace_key),
            crate::resolver::node_bindings(
                crate::resolver::candidates(nodes, rows, rows.len()),
                rows,
                workspace_key,
            ).len(),
        ),
    ensures
        0 <= summary.covered_lines <= summary.total_lines,
        summary.bound_nodes <= crate::resolver::resolved(nodes, rows, workspace_key).len(),
        summary.blindspots <= crate::resolver::resolved(nodes, rows, workspace_key).len(),
{
    let bound = crate::resolver::resolved(nodes, rows, workspace_key);
    assert forall|i: int| 0 <= i < bound.len() implies crate::resolver::sound_counts(
        #[trigger] bound[i],
    ) by {
        crate::binding_laws::bindings_are_sound(nodes, rows, workspace_key, i);
    }
    crate::plugin::sums_are_sound(bound, bound.len() as int);
    assert(bound.take(bound.len() as int) =~= bound);
    bound.lemma_filter_len(|b: Binding| b.is_blindspot);
}

// ---------------------------------------------------------------------------
// What an ingest comes to
// ---------------------------------------------------------------------------

/// An ingest replaces the rows of the workspace that the plugin is bound to: once what it asks
/// for is through without a failure, the table has under that workspace exactly its new rows,
/// each under its id and all with the time of the ingest, and the rows of other workspaces are
/// as they were; if anything failed, the table is as it was. (Two rows with one id would meet
/// under one key, so there must be none.)
pub proof fn an_ingest_replaces_the_rows_of_its_workspace(
    plugin: CoveragePlugin,
    rows: Seq<FileRow>,
    now: Seq<char>,
    ingest: Ingest,
    table: Table,
    outcomes: Seq<Outcome>,
    key: (Seq<char>, Seq<char>),
)
    requires
        plugin.ingests(rows, now, Ok::<Ingest, CoverageError>(ingest)),
        ingest.snapshot.new_rows().len() <= usize::MAX,
        forall|i: int, j: int|
            0 <= i < j < ingest.snapshot.new_rows().len() ==> #[trigger]
            ingest.snapshot.new_rows()[i].canonical_node_id
                != #[trigger] ingest.snapshot.new_rows()[j].canonical_node_id,
    ensures
        ({
            let written = ingest.snapshot.new_rows();
            let run = crate::table::run_of(
                table,
                ingest.snapshot.workspace(),
                written,
                outcomes,
            );
            let after = run.database.committed;
            &&& ingest.snapshot.workspace() == plugin.workspace()
            &&& forall|i: int|
                0 <= i < written.len() ==> (#[trigger] written[i]).workspace_key
                    == plugin.workspace() && written[i].updated_at == now
            &&& if run.due is Done && !run.failed {
                &&& key.0 != plugin.workspace() ==> after.contains_key(key) == table.contains_key(
                    key,
                )
                &&& key.0 != plugin.workspace() && table.contains_key(key) ==> after[key]
                    == table[key]
                &&& key.0 == plugin.workspace() ==> (after.contains_key(key) <==> exists|i: int|
                    0 <= i < written.len() && #[trigger] written[i].canonical_node_id == key.1)
                &&& forall|i: int|
                    0 <= i < written.len() ==> after[(
                        plugin.workspace(),
                        (#[trigger] written[i]).canonical_node_id,
                    )] == written[i]
            } else {
                after == table
            }
        }),
{
    let nodes = plugin.cached()->Some_0@.nodes;
    let bound = crate::resolver::resolved(nodes, rows, plugin.workspace());
    let written = ingest.snapshot.new_rows();
    assert(written == crate::registry::stamped(bound, now));
    assert forall|i: int| 0 <= i < written.len() implies (#[trigger] written[i]).workspace_key
        == plugin.workspace() && written[i].updated_at == now by {
        let w = crate::binding_laws::every_binding_is_of_a_node_or_of_a_file(
            nodes,
            rows,
            plugin.workspace(),
            i,
        );
        assert(written[i] == (Binding { updated_at: now, ..bound[i] }));
    }
    crate::table::a_run_leaves_exactly_the_new_rows(
        table,
        plugin.workspace(),
        written,
        outcomes,
        key,
    );
}

/// An ingest writes the bindings of its coverage to its graph, with its time and otherwise
/// unchanged, and sums them up: the measured and the covered lines of all rows, the rows with
/// less than half of their lines covered, and as bound nodes the ids that some node has with a
/// measured line of the first matching file in its range.
pub proof fn an_ingest_sums_up_what_it_writes(
    plugin: CoveragePlugin,
    rows: Seq<FileRow>,
    now: Seq<char>,
    ingest: Ingest,
)
    requires
        plugin.ingests(rows, now, Ok::<Ingest, CoverageError>(ingest)),
        forall|k: int| 0 <= k < rows.len() ==> (#[trigger] rows[k]).1.dom().finite(),
    ensures
        ({
            let nodes = plugin.cached()->Some_0@.nodes;
            let bound = crate::resolver::resolved(nodes, rows, plugin.workspace());
            let written = ingest.snapshot.new_rows();
            let measured = Set::new(
                |id: Seq<char>|
                    exists|n: int, i: int, l: u32|
                        0 <= n < nodes.len() && 0 <= i < rows.len() && (#[trigger] nodes[n]).id
                            == id && crate::resolver::same_file(
                            nodes[n].source_file,
                            rows[i].0,
                        ) && (forall|j: int|
                            0 <= j < i ==> !crate::resolver::same_file(
                                nodes[n].source_file,
                                #[trigger] rows[j].0,
                            )) && nodes[n].start_line <= l && l <= nodes[n].end_line
                            && #[trigger] rows[i].1.contains_key(l),
            );
            &&& plugin.workspace().len() > 0 && plugin.cached() is Some
            &&& written.len() == bound.len()
            &&& forall|i: int|
                0 <= i < written.len() ==> #[trigger] written[i] == (Binding {
                    updated_at: now,
                    ..bound[i]
                })
            &&& ingest.summary.total_lines == crate::plugin::sum_total(written)
            &&& ingest.summary.covered_lines == crate::plugin::sum_covered(written)
            &&& ingest.summary.blindspots == written.filter(
                |b: Binding| 2 * b.covered_lines < b.total_lines,
            ).len()
            &&& ingest.summary.bound_nodes == measured.len()
        }),
{
    let nodes = plugin.cached()->Some_0@.nodes;
    let workspace_key = plugin.workspace();
    let bound = crate::resolver::resolved(nodes, rows, workspace_key);
    let written = ingest.snapshot.new_rows();
    assert(written == crate::registry::stamped(bound, now));
    stamps_leave_sums(bound, now);
    assert forall|i: int| 0 <= i < bound.len() implies (#[trigger] bound[i]).is_blindspot == (2
        * bound[i].covered_lines < bound[i].total_lines) by {
        let w = crate::binding_laws::every_binding_is_of_a_node_or_of_a_file(
            nodes,
            rows,
            workspace_key,
            i,
        );
    }
    blindspots_are_less_than_half_covered(bound, now);
    crate::binding_laws::every_measured_id_is_bound_once(nodes, rows, workspace_key);
    measured_ids_in_plain_terms(nodes, rows);
}

/// The ids with measured lines are those of nodes with a measured line in their range.
proof fn measured_ids_in_plain_terms(nodes: Seq<Symbol>, rows: Seq<FileRow>)
    requires
        forall|k: int| 0 <= k < rows.len() ==> (#[trigger] rows[k]).1.dom().finite(),
    ensures
        crate::binding_laws::measured_ids(nodes, rows) == Set::new(
            |id: Seq<char>|
                exists|n: int, i: int, l: u32|
                    0 <= n < nodes.len() && 0 <= i < rows.len() && (#[trigger] nodes[n]).id == id
                        && crate::resolver::same_file(nodes[n].source_file, rows[i].0) && (forall|
                        j: int,
                    |
                        0 <= j < i ==> !crate::resolver::same_file(
                            nodes[n].source_file,
                            #[trigger] rows[j].0,
                        )) && nodes[n].start_line <= l && l <= nodes[n].end_line
                        && #[trigger] rows[i].1.contains_key(l),
        ),
{
    let plain = Set::new(
        |id: Seq<char>|
            exists|n: int, i: int, l: u32|
                0 <= n < nodes.len() && 0 <= i < rows.len() && (#[trigger] nodes[n]).id == id
                    && crate::resolver::same_file(nodes[n].source_file, rows[i].0) && (forall|
                    j: int,
                |
                    0 <= j < i ==> !crate::resolver::same_file(
                        nodes[n].source_file,
                        #[trigger] rows[j].0,
                    )) && nodes[n].start_line <= l && l <= nodes[n].end_line
                    && #[trigger] rows[i].1.contains_key(l),
    );
    let ids = crate::binding_laws::measured_ids(nodes, rows);
    assert forall|id: Seq<char>| ids.contains(id) == plain.contains(id) by {
        if ids.contains(id) {
            let (n, r) = choose|n: Symbol, r: int|
                nodes.contains(n) && n.id == id && #[trigger] crate::resolver::belongs_to(
                    n.source_file,
                    rows,
                    r,
                ) && #[trigger] crate::resolver::has_lines((r, n), rows);
            let at = choose|at: int| 0 <= at < nodes.len() && nodes[at] == n;
            let inside = crate::resolver::lines_inside(rows[r].1, n);
            vstd::set_lib::lemma_len_subset(inside, rows[r].1.dom());
            let l = inside.choose();
            assert(inside.contains(l));
            assert(nodes[at].id == id && rows[r].1.contains_key(l));
        }
        if plain.contains(id) {
            let (n, i, l) = choose|n: int, i: int, l: u32|
                0 <= n < nodes.len() && 0 <= i < rows.len() && (#[trigger] nodes[n]).id == id
                    && crate::resolver::same_file(nodes[n].source_file, rows[i].0) && (forall|
                    j: int,
                |
                    0 <= j < i ==> !crate::resolver::same_file(
                        nodes[n].source_file,
                        #[trigger] rows[j].0,
                    )) && nodes[n].start_line <= l && l <= nodes[n].end_line
                    && #[trigger] rows[i].1.contains_key(l);
            let inside = crate::resolver::lines_inside(rows[i].1, nodes[n]);
            vstd::set_lib::lemma_len_subset(inside, rows[i].1.dom());
            assert(inside.contains(l));
            assert(inside.len() > 0);
            assert(nodes.contains(nodes[n]));
            assert(crate::resolver::belongs_to(nodes[n].source_file, rows, i));
            assert(crate::resolver::has_lines((i, nodes[n]), rows));
        }
    }
    assert(ids =~= plain);
}

/// A stamp changes no sum.
proof fn stamps_leave_sums(rows: Seq<Binding>, now: Seq<char>)
    ensures
        crate::plugin::sum_total(crate::registry::stamped(rows, now)) == crate::plugin::sum_total(
            rows,
        ),
        crate::plugin::sum_covered(crate::registry::stamped(rows, now))
            == crate::plugin::sum_covered(rows),
    decreases rows.len(),
{
    if rows.len() > 0 {
        stamps_leave_sums(rows.drop_last(), now);
        assert(crate::registry::stamped(rows, now).drop_last() =~= crate::registry::stamped(
            rows.drop_last(),
            now,
        ));
    }
}

/// Counting blindspots is counting the rows with less than half of their lines covered.
proof fn blindspots_are_less_than_half_covered(rows: Seq<Binding>, now: Seq<char>)
    requires
        forall|i: int|
            0 <= i < rows.len() ==> (#[trigger] rows[i]).is_blindspot == (2
                * rows[i].covered_lines < rows[i].total_lines),
    ensures
        rows.filter(|b: Binding| b.is_blindspot).len() == crate::registry::stamped(
            rows,
            now,
        ).filter(|b: Binding| 2 * b.covered_lines < b.total_lines).len(),
    decreases rows.len(),
{
    reveal(Seq::filter);
    if rows.len() > 0 {
        let init = rows.drop_last();
        assert forall|i: int| 0 <= i < init.len() implies (#[trigger] init[i]).is_blindspot == (2
            * init[i].covered_lines < init[i].total_lines) by {
            assert(init[i] == rows[i]);
        }
        blindspots_are_less_than_half_covered(init, now);
        assert(crate::registry::stamped(rows, now).drop_last() =~= crate::registry::stamped(
            init,
            now,
        ));
        assert(rows[rows.len() - 1].is_blindspot == (2 * rows[rows.len() - 1].covered_lines
            < rows[rows.len() - 1].total_lines));
    }
}

} // verus!
