//! The table of bindings as a map, and what a snapshot replacement leaves in it.
use vstd::prelude::*;

use crate::registry::{Binding, SnapshotAction};

verus! {

/// The primary key of a row: workspace and node id.
pub type RowKey = (Seq<char>, Seq<char>);

/// The rows of the table by their primary key.
pub type Table = Map<RowKey, Binding>;

/// The primary key of a row.
pub open spec fn key_of(b: Binding) -> RowKey {
    (b.workspace_key, b.canonical_node_id)
}

/// The keys of the rows of a workspace.
pub open spec fn workspace_keys(table: Table, workspace_key: Seq<char>) -> Set<RowKey> {
    table.dom().filter(|k: RowKey| k.0 == workspace_key)
}

/// The keys of the blindspots of a workspace.
pub open spec fn blindspot_keys(table: Table, workspace_key: Seq<char>) -> Set<RowKey> {
    workspace_keys(table, workspace_key).filter(|k: RowKey| table[k].is_blindspot)
}

/// The table without the rows of a workspace.
pub open spec fn without_workspace(table: Table, workspace_key: Seq<char>) -> Table {
    table.remove_keys(workspace_keys(table, workspace_key))
}

/// The table with the rows put in one after the other.
pub open spec fn with_rows(table: Table, rows: Seq<Binding>) -> Table
    decreases rows.len(),
{
    if rows.len() == 0 {
        table
    } else {
        with_rows(table, rows.drop_last()).insert(key_of(rows.last()), rows.last())
    }
}

/// The table with `rows` in place of the rows of a workspace.
pub open spec fn replaced(table: Table, workspace_key: Seq<char>, rows: Seq<Binding>) -> Table {
    with_rows(without_workspace(table, workspace_key), rows)
}

/// All rows are of the workspace, and no two of them have one id.
pub open spec fn is_snapshot(workspace_key: Seq<char>, rows: Seq<Binding>) -> bool {
    &&& forall|i: int|
        0 <= i < rows.len() ==> (#[trigger] rows[i]).workspace_key == workspace_key
    &&& forall|i: int, j: int|
        0 <= i < j < rows.len() ==> #[trigger] rows[i].canonical_node_id
            != #[trigger] rows[j].canonical_node_id
}

// ---------------------------------------------------------------------------
// Reading back
// ---------------------------------------------------------------------------

/// A key is in the table exactly if it was there before or some row has it.
proof fn with_rows_domain(table: Table, rows: Seq<Binding>, key: RowKey)
    ensures
        with_rows(table, rows).contains_key(key) <==> table.contains_key(key) || exists|i: int|
            0 <= i < rows.len() && key_of(#[trigger] rows[i]) == key,
        !(exists|i: int| 0 <= i < rows.len() && key_of(#[trigger] rows[i]) == key) ==> with_rows(
            table,
            rows,
        )[key] == table[key],
    decreases rows.len(),
{
    if rows.len() > 0 {
        let init = rows.drop_last();
        with_rows_domain(table, init, key);
        if exists|i: int| 0 <= i < init.len() && key_of(#[trigger] init[i]) == key {
            let i = choose|i: int| 0 <= i < init.len() && key_of(#[trigger] init[i]) == key;
            assert(key_of(rows[i]) == key);
        }
        if exists|i: int| 0 <= i < rows.len() && key_of(#[trigger] rows[i]) == key {
            let i = choose|i: int| 0 <= i < rows.len() && key_of(#[trigger] rows[i]) == key;
            if i < init.len() {
                assert(key_of(init[i]) == key);
            }
        } else {
            assert(key_of(rows[rows.len() - 1]) != key);
        }
    }
}

/// Part of a snapshot is one.
proof fn prefixes_are_snapshots(workspace_key: Seq<char>, rows: Seq<Binding>)
    requires
        is_snapshot(workspace_key, rows),
        rows.len() > 0,
    ensures
        is_snapshot(workspace_key, rows.drop_last()),
{
    let init = rows.drop_last();
    assert forall|i: int| 0 <= i < init.len() implies (#[trigger] init[i]).workspace_key
        == workspace_key by {
        assert(rows[i].workspace_key == workspace_key);
    }
    assert forall|i: int, j: int| 0 <= i < j < init.len() implies #[trigger]
        init[i].canonical_node_id != #[trigger] init[j].canonical_node_id by {
        assert(rows[i].canonical_node_id != rows[j].canonical_node_id);
    }
}

/// What is written is read: after a replacement each of its rows is found under its id.
pub proof fn what_is_written_is_read(
    table: Table,
    workspace_key: Seq<char>,
    rows: Seq<Binding>,
    i: int,
)
    requires
        is_snapshot(workspace_key, rows),
        0 <= i < rows.len(),
    ensures
        replaced(table, workspace_key, rows).contains_key(
            (workspace_key, rows[i].canonical_node_id),
        ),
        replaced(table, workspace_key, rows)[(workspace_key, rows[i].canonical_node_id)] == rows[i],
    decreases rows.len(),
{
    assert(rows[i].workspace_key == workspace_key);
    let last = rows.len() - 1;
    if i < last {
        prefixes_are_snapshots(workspace_key, rows);
        what_is_written_is_read(table, workspace_key, rows.drop_last(), i);
        assert(rows.drop_last()[i] == rows[i]);
        assert(rows[i].canonical_node_id != rows[last].canonical_node_id);
    }
}

/// Nothing else is left: after a replacement the workspace has no row but the new ones.
pub proof fn old_rows_are_gone(
    table: Table,
    workspace_key: Seq<char>,
    rows: Seq<Binding>,
    id: Seq<char>,
)
    requires
        replaced(table, workspace_key, rows).contains_key((workspace_key, id)),
    ensures
        exists|i: int| 0 <= i < rows.len() && #[trigger] rows[i].canonical_node_id == id,
{
    let key = (workspace_key, id);
    with_rows_domain(without_workspace(table, workspace_key), rows, key);
    assert(!without_workspace(table, workspace_key).contains_key(key)) by {
        if table.contains_key(key) {
            assert(workspace_keys(table, workspace_key).contains(key));
        }
    }
    let i = choose|i: int| 0 <= i < rows.len() && key_of(#[trigger] rows[i]) == key;
    assert(rows[i].canonical_node_id == id);
}

/// A replacement leaves the rows of other workspaces as they are.
pub proof fn other_workspaces_are_untouched(
    table: Table,
    workspace_key: Seq<char>,
    rows: Seq<Binding>,
    key: RowKey,
)
    requires
        is_snapshot(workspace_key, rows),
        key.0 != workspace_key,
    ensures
        replaced(table, workspace_key, rows).contains_key(key) == table.contains_key(key),
        table.contains_key(key) ==> replaced(table, workspace_key, rows)[key] == table[key],
{
    let rest = without_workspace(table, workspace_key);
    with_rows_domain(rest, rows, key);
    assert forall|i: int| 0 <= i < rows.len() implies key_of(#[trigger] rows[i]) != key by {
        assert(rows[i].workspace_key == workspace_key);
    }
    assert(!workspace_keys(table, workspace_key).contains(key));
    assert(rest.contains_key(key) == table.contains_key(key));
}

/// A replacement leaves no trace of the one before it.
pub proof fn the_last_replacement_counts(
    table: Table,
    workspace_key: Seq<char>,
    first: Seq<Binding>,
    second: Seq<Binding>,
)
    requires
        is_snapshot(workspace_key, first),
    ensures
        replaced(replaced(table, workspace_key, first), workspace_key, second) == replaced(
            table,
            workspace_key,
            second,
        ),
{
    let middle = replaced(table, workspace_key, first);
    let a = without_workspace(middle, workspace_key);
    let b = without_workspace(table, workspace_key);
    assert forall|key: RowKey|
        #![trigger a.dom().contains(key)]
        #![trigger b.dom().contains(key)]
        a.dom().contains(key) == b.dom().contains(key) && (a.dom().contains(key) ==> a[key]
            == b[key]) by {
        if key.0 == workspace_key {
            if middle.contains_key(key) {
                assert(workspace_keys(middle, workspace_key).contains(key));
            }
            if table.contains_key(key) {
                assert(workspace_keys(table, workspace_key).contains(key));
            }
        } else {
            other_workspaces_are_untouched(table, workspace_key, first, key);
            assert(!workspace_keys(middle, workspace_key).contains(key));
            assert(!workspace_keys(table, workspace_key).contains(key));
        }
    }
    assert(a =~= b);
}

/// Replacements of two workspaces do not meet: either order leaves the same table.
pub proof fn workspaces_are_isolated(
    table: Table,
    one: Seq<char>,
    rows_of_one: Seq<Binding>,
    other: Seq<char>,
    rows_of_other: Seq<Binding>,
)
    requires
        one != other,
        is_snapshot(one, rows_of_one),
        is_snapshot(other, rows_of_other),
    ensures
        replaced(replaced(table, one, rows_of_one), other, rows_of_other) == replaced(
            replaced(table, other, rows_of_other),
            one,
            rows_of_one,
        ),
{
    let after_one = replaced(table, one, rows_of_one);
    let after_other = replaced(table, other, rows_of_other);
    let a = replaced(after_one, other, rows_of_other);
    let b = replaced(after_other, one, rows_of_one);
    assert forall|key: RowKey|
        #![trigger a.dom().contains(key)]
        #![trigger b.dom().contains(key)]
        a.dom().contains(key) == b.dom().contains(key) && (a.dom().contains(key) ==> a[key]
            == b[key]) by {
        if key.0 != other {
            other_workspaces_are_untouched(after_one, other, rows_of_other, key);
        }
        if key.0 != one {
            other_workspaces_are_untouched(after_other, one, rows_of_one, key);
        }
        if key.0 != one && key.0 != other {
            other_workspaces_are_untouched(table, one, rows_of_one, key);
            other_workspaces_are_untouched(table, other, rows_of_other, key);
        } else if key.0 == one {
            the_rows_alone_decide(table, after_other, one, rows_of_one, key);
        } else {
            the_rows_alone_decide(table, after_one, other, rows_of_other, key);
        }
    }
    assert(a =~= b);
}

/// What a replacement leaves under a key of the workspace is decided by the rows alone.
proof fn the_rows_alone_decide(
    a: Table,
    b: Table,
    workspace_key: Seq<char>,
    rows: Seq<Binding>,
    key: RowKey,
)
    requires
        is_snapshot(workspace_key, rows),
        key.0 == workspace_key,
    ensures
        replaced(a, workspace_key, rows).contains_key(key) == replaced(
            b,
            workspace_key,
            rows,
        ).contains_key(key),
        replaced(a, workspace_key, rows).contains_key(key) ==> replaced(
            a,
            workspace_key,
            rows,
        )[key] == replaced(b, workspace_key, rows)[key],
{
    if replaced(a, workspace_key, rows).contains_key(key) {
        old_rows_are_gone(a, workspace_key, rows, key.1);
        let i = choose|i: int| 0 <= i < rows.len() && #[trigger] rows[i].canonical_node_id == key.1;
        what_is_written_is_read(a, workspace_key, rows, i);
        what_is_written_is_read(b, workspace_key, rows, i);
    }
    if replaced(b, workspace_key, rows).contains_key(key) {
        old_rows_are_gone(b, workspace_key, rows, key.1);
        let i = choose|i: int| 0 <= i < rows.len() && #[trigger] rows[i].canonical_node_id == key.1;
        what_is_written_is_read(a, workspace_key, rows, i);
    }
}

/// After a replacement the workspace has as many rows, and as many blindspots, as were
/// written.
pub proof fn rows_are_counted(table: Table, workspace_key: Seq<char>, rows: Seq<Binding>)
    requires
        is_snapshot(workspace_key, rows),
    ensures
        workspace_keys(replaced(table, workspace_key, rows), workspace_key).finite(),
        workspace_keys(replaced(table, workspace_key, rows), workspace_key).len() == rows.len(),
        blindspot_keys(replaced(table, workspace_key, rows), workspace_key).len() == rows.filter(
            |b: Binding| b.is_blindspot,
        ).len(),
    decreases rows.len(),
{
    reveal(Seq::filter);
    let all = replaced(table, workspace_key, rows);
    let keys = workspace_keys(all, workspace_key);
    let spots = blindspot_keys(all, workspace_key);
    if rows.len() == 0 {
        assert(keys =~= Set::empty());
        assert(spots =~= Set::empty());
    } else {
        let init = rows.drop_last();
        let last = rows.last();
        let before = replaced(table, workspace_key, init);
        prefixes_are_snapshots(workspace_key, rows);
        rows_are_counted(table, workspace_key, init);
        assert(rows[rows.len() - 1].workspace_key == workspace_key);
        let key = key_of(last);
        let old_keys = workspace_keys(before, workspace_key);
        let old_spots = blindspot_keys(before, workspace_key);
        assert(!before.contains_key(key)) by {
            if before.contains_key(key) {
                old_rows_are_gone(table, workspace_key, init, last.canonical_node_id);
                let i = choose|i: int|
                    0 <= i < init.len() && #[trigger] init[i].canonical_node_id
                        == last.canonical_node_id;
                assert(rows[i].canonical_node_id != rows[rows.len() - 1].canonical_node_id);
            }
        }
        assert(all == before.insert(key, last));
        assert(keys =~= old_keys.insert(key));
        assert(old_spots.finite());
        if last.is_blindspot {
            assert(spots =~= old_spots.insert(key));
        } else {
            assert(spots =~= old_spots);
        }
    }
}

// ---------------------------------------------------------------------------
// Transactions
// ---------------------------------------------------------------------------

/// The table as others see it, and as the open transaction sees it.
pub struct Database {
    pub committed: Table,
    pub pending: Option<Table>,
}

/// How a statement went.
pub enum Outcome {
    Success,
    /// It failed and changed nothing.
    Failure,
    /// It failed, and the database gave the open transaction up.
    Abort,
}

/// A replacement under way: the database, what is due, and whether a statement has failed.
pub struct Run {
    pub database: Database,
    pub due: SnapshotAction,
    pub failed: bool,
}

/// What an action does when it succeeds.
pub open spec fn performed(
    database: Database,
    workspace_key: Seq<char>,
    rows: Seq<Binding>,
    action: SnapshotAction,
) -> Database {
    match (action, database.pending) {
        (SnapshotAction::Begin, _) => Database { pending: Some(database.committed), ..database },
        (SnapshotAction::Delete, Some(table)) => Database {
            pending: Some(without_workspace(table, workspace_key)),
            ..database
        },
        (SnapshotAction::Insert(i), Some(table)) => Database {
            pending: Some(table.insert(key_of(rows[i as int]), rows[i as int])),
            ..database
        },
        (SnapshotAction::Commit, Some(table)) => Database { committed: table, pending: None },
        (SnapshotAction::Rollback, _) => Database { pending: None, ..database },
        _ => database,
    }
}

/// One action further.
pub open spec fn step(
    run: Run,
    workspace_key: Seq<char>,
    rows: Seq<Binding>,
    outcome: Outcome,
) -> Run {
    Run {
        database: match outcome {
            Outcome::Success => performed(run.database, workspace_key, rows, run.due),
            Outcome::Failure => run.database,
            Outcome::Abort => Database { pending: None, ..run.database },
        },
        due: crate::registry::next_action(rows.len(), run.due, outcome is Success),
        failed: run.failed || (run.due !is Done && outcome !is Success),
    }
}

/// A replacement on `table` after actions with the given outcomes.
pub open spec fn run_of(
    table: Table,
    workspace_key: Seq<char>,
    rows: Seq<Binding>,
    outcomes: Seq<Outcome>,
) -> Run
    decreases outcomes.len(),
{
    if outcomes.len() == 0 {
        Run {
            database: Database { committed: table, pending: None },
            due: SnapshotAction::Begin,
            failed: false,
        }
    } else {
        step(
            run_of(table, workspace_key, rows, outcomes.drop_last()),
            workspace_key,
            rows,
            outcomes.last(),
        )
    }
}

/// What holds of a replacement at every point.
spec fn on_course(run: Run, table: Table, workspace_key: Seq<char>, rows: Seq<Binding>) -> bool {
    let cleared = without_workspace(table, workspace_key);
    let old = run.database.committed == table;
    let pending = run.database.pending;
    match run.due {
        SnapshotAction::Begin => old && !run.failed,
        SnapshotAction::Delete => old && !run.failed && pending == Some(table),
        SnapshotAction::Insert(i) => old && !run.failed && i < rows.len() && pending == Some(
            with_rows(cleared, rows.take(i as int)),
        ),
        SnapshotAction::Commit => old && !run.failed && pending == Some(with_rows(cleared, rows)),
        SnapshotAction::Rollback => old && run.failed,
        SnapshotAction::Done => if run.failed {
            old
        } else {
            run.database.committed == with_rows(cleared, rows)
        },
    }
}

/// A replacement stays on course.
proof fn runs_stay_on_course(
    table: Table,
    workspace_key: Seq<char>,
    rows: Seq<Binding>,
    outcomes: Seq<Outcome>,
)
    requires
        rows.len() <= usize::MAX,
    ensures
        on_course(run_of(table, workspace_key, rows, outcomes), table, workspace_key, rows),
    decreases outcomes.len(),
{
    if outcomes.len() > 0 {
        runs_stay_on_course(table, workspace_key, rows, outcomes.drop_last());
        let before = run_of(table, workspace_key, rows, outcomes.drop_last());
        assert(rows.take(0) =~= Seq::<Binding>::empty());
        assert(rows.take(rows.len() as int) =~= rows);
        if let SnapshotAction::Insert(i) = before.due {
            assert(rows.take(i + 1).drop_last() =~= rows.take(i as int));
            assert(rows.take(i + 1).last() == rows[i as int]);
        }
    }
}

/// A replacement is atomic: whatever fails on the way, others see either the table as it was
/// or, once all is done without a failure, the table with the rows replaced.
pub proof fn replacement_is_atomic(
    table: Table,
    workspace_key: Seq<char>,
    rows: Seq<Binding>,
    outcomes: Seq<Outcome>,
)
    requires
        rows.len() <= usize::MAX,
    ensures
        ({
            let run = run_of(table, workspace_key, rows, outcomes);
            run.database.committed == if run.due is Done && !run.failed {
                replaced(table, workspace_key, rows)
            } else {
                table
            }
        }),
{
    runs_stay_on_course(table, workspace_key, rows, outcomes);
}

/// How many actions can still become due.
spec fn actions_left(n: int, action: SnapshotAction) -> int {
    match action {
        SnapshotAction::Begin => n + 4,
        SnapshotAction::Delete => n + 3,
        SnapshotAction::Insert(i) => n - i + 2,
        SnapshotAction::Commit => 2,
        SnapshotAction::Rollback => 1,
        SnapshotAction::Done => 0,
    }
}

/// A replacement comes nearer to its end with every action.
proof fn actions_get_fewer(
    table: Table,
    workspace_key: Seq<char>,
    rows: Seq<Binding>,
    outcomes: Seq<Outcome>,
)
    requires
        rows.len() <= usize::MAX,
    ensures
        ({
            let left = actions_left(
                rows.len() as int,
                run_of(table, workspace_key, rows, outcomes).due,
            );
            0 <= left && (left == 0 || left + outcomes.len() <= rows.len() + 4)
        }),
    decreases outcomes.len(),
{
    runs_stay_on_course(table, workspace_key, rows, outcomes);
    if outcomes.len() > 0 {
        actions_get_fewer(table, workspace_key, rows, outcomes.drop_last());
        runs_stay_on_course(table, workspace_key, rows, outcomes.drop_last());
    }
}

/// A replacement ends: after four actions more than there are rows, nothing is due.
pub proof fn replacement_ends(
    table: Table,
    workspace_key: Seq<char>,
    rows: Seq<Binding>,
    outcomes: Seq<Outcome>,
)
    requires
        rows.len() <= usize::MAX,
        outcomes.len() >= rows.len() + 4,
    ensures
        run_of(table, workspace_key, rows, outcomes).due is Done,
{
    actions_get_fewer(table, workspace_key, rows, outcomes);
}

/// What is due after `m` actions without a failure.
spec fn due_after(n: nat, m: nat) -> SnapshotAction {
    if m == 0 {
        SnapshotAction::Begin
    } else if m == 1 {
        SnapshotAction::Delete
    } else if m < n + 2 {
        SnapshotAction::Insert((m - 2) as usize)
    } else if m == n + 2 {
        SnapshotAction::Commit
    } else {
        SnapshotAction::Done
    }
}

/// Without a failure the actions come in order.
proof fn successes_come_in_order(
    table: Table,
    workspace_key: Seq<char>,
    rows: Seq<Binding>,
    outcomes: Seq<Outcome>,
)
    requires
        rows.len() <= usize::MAX,
        forall|i: int| 0 <= i < outcomes.len() ==> #[trigger] outcomes[i] is Success,
    ensures
        !run_of(table, workspace_key, rows, outcomes).failed,
        run_of(table, workspace_key, rows, outcomes).due == due_after(
            rows.len(),
            outcomes.len(),
        ),
    decreases outcomes.len(),
{
    if outcomes.len() > 0 {
        let init = outcomes.drop_last();
        assert forall|i: int| 0 <= i < init.len() implies #[trigger] init[i] is Success by {
            assert(outcomes[i] is Success);
        }
        successes_come_in_order(table, workspace_key, rows, init);
        assert(outcomes[outcomes.len() - 1] is Success);
    }
}

/// A replacement in which nothing fails takes three actions more than there are rows and
/// leaves the table with the rows replaced.
pub proof fn success_replaces_the_rows(
    table: Table,
    workspace_key: Seq<char>,
    rows: Seq<Binding>,
    outcomes: Seq<Outcome>,
)
    requires
        rows.len() <= usize::MAX,
        outcomes.len() == rows.len() + 3,
        forall|i: int| 0 <= i < outcomes.len() ==> #[trigger] outcomes[i] is Success,
    ensures
        run_of(table, workspace_key, rows, outcomes).due is Done,
        !run_of(table, workspace_key, rows, outcomes).failed,
        run_of(table, workspace_key, rows, outcomes).database.committed == replaced(
            table,
            workspace_key,
            rows,
        ),
{
    successes_come_in_order(table, workspace_key, rows, outcomes);
    replacement_is_atomic(table, workspace_key, rows, outcomes);
}

/// No row of a snapshot meets one with its key: when its insertion is due, the key is free.
pub proof fn insertions_do_not_conflict(
    table: Table,
    workspace_key: Seq<char>,
    rows: Seq<Binding>,
    outcomes: Seq<Outcome>,
)
    requires
        rows.len() <= usize::MAX,
        is_snapshot(workspace_key, rows),
    ensures
        run_of(table, workspace_key, rows, outcomes).due matches SnapshotAction::Insert(i) ==> {
            &&& i < rows.len()
            &&& run_of(table, workspace_key, rows, outcomes).database.pending matches Some(pending)
            &&& !pending.contains_key(key_of(rows[i as int]))
        },
{
    runs_stay_on_course(table, workspace_key, rows, outcomes);
    if let SnapshotAction::Insert(i) = run_of(table, workspace_key, rows, outcomes).due {
        let done = rows.take(i as int);
        let key = key_of(rows[i as int]);
        assert(rows[i as int].workspace_key == workspace_key);
        if replaced(table, workspace_key, done).contains_key(key) {
            old_rows_are_gone(table, workspace_key, done, rows[i as int].canonical_node_id);
            let j = choose|j: int|
                0 <= j < done.len() && #[trigger] done[j].canonical_node_id
                    == rows[i as int].canonical_node_id;
            assert(rows[j].canonical_node_id != rows[i as int].canonical_node_id);
        }
    }
}

/// Without a failure the actions due are, in this order: the start of the transaction, the
/// deletion, the insertion of each row, the commit; then nothing more. `m` actions have been
/// performed.
pub proof fn without_a_failure_the_actions_come_in_order(
    table: Table,
    workspace_key: Seq<char>,
    rows: Seq<Binding>,
    outcomes: Seq<Outcome>,
)
    requires
        rows.len() <= usize::MAX,
        forall|i: int| 0 <= i < outcomes.len() ==> #[trigger] outcomes[i] is Success,
    ensures
        ({
            let due = run_of(table, workspace_key, rows, outcomes).due;
            let m = outcomes.len();
            &&& m == 0 ==> due == SnapshotAction::Begin
            &&& m == 1 ==> due == SnapshotAction::Delete
            &&& 2 <= m < rows.len() + 2 ==> due == SnapshotAction::Insert((m - 2) as usize)
            &&& m == rows.len() + 2 ==> due == SnapshotAction::Commit
            &&& m > rows.len() + 2 ==> due == SnapshotAction::Done
        }),
{
    successes_come_in_order(table, workspace_key, rows, outcomes);
}

/// After a failure nothing more is written: a transaction that could not start is over, any
/// other one is rolled back and then over, however the rollback goes.
pub proof fn a_failure_ends_in_a_rollback(n: nat, action: SnapshotAction, ok: bool)
    ensures
        action is Begin ==> crate::registry::next_action(n, action, false) == SnapshotAction::Done,
        action is Delete || action is Insert || action is Commit ==> crate::registry::next_action(
            n,
            action,
            false,
        ) == SnapshotAction::Rollback,
        action is Rollback || action is Done ==> crate::registry::next_action(n, action, ok)
            == SnapshotAction::Done,
{
}

/// A replacement that is through without a failure leaves under the workspace exactly the new
/// rows, each under its id, and the rows of other workspaces as they were; one that is not
/// leaves the table as it was.
pub proof fn a_run_leaves_exactly_the_new_rows(
    table: Table,
    workspace_key: Seq<char>,
    rows: Seq<Binding>,
    outcomes: Seq<Outcome>,
    key: (Seq<char>, Seq<char>),
)
    requires
        rows.len() <= usize::MAX,
        forall|i: int|
            0 <= i < rows.len() ==> (#[trigger] rows[i]).workspace_key == workspace_key,
        forall|i: int, j: int|
            0 <= i < j < rows.len() ==> #[trigger] rows[i].canonical_node_id
                != #[trigger] rows[j].canonical_node_id,
    ensures
        ({
            let run = run_of(table, workspace_key, rows, outcomes);
            let after = run.database.committed;
            if run.due is Done && !run.failed {
                &&& key.0 != workspace_key ==> after.contains_key(key) == table.contains_key(key)
                &&& key.0 != workspace_key && table.contains_key(key) ==> after[key] == table[key]
                &&& key.0 == workspace_key ==> (after.contains_key(key) <==> exists|i: int|
                    0 <= i < rows.len() && #[trigger] rows[i].canonical_node_id == key.1)
                &&& forall|i: int|
                    0 <= i < rows.len() ==> after[(
                        workspace_key,
                        (#[trigger] rows[i]).canonical_node_id,
                    )] == rows[i]
            } else {
                after == table
            }
        }),
{
    replacement_is_atomic(table, workspace_key, rows, outcomes);
    assert(is_snapshot(workspace_key, rows));
    let after = replaced(table, workspace_key, rows);
    if key.0 != workspace_key {
        other_workspaces_are_untouched(table, workspace_key, rows, key);
    } else {
        if after.contains_key(key) {
            old_rows_are_gone(table, workspace_key, rows, key.1);
        }
        if exists|i: int| 0 <= i < rows.len() && #[trigger] rows[i].canonical_node_id == key.1 {
            let i = choose|i: int|
                0 <= i < rows.len() && #[trigger] rows[i].canonical_node_id == key.1;
            what_is_written_is_read(table, workspace_key, rows, i);
        }
    }
    assert forall|i: int| 0 <= i < rows.len() implies after[(
        workspace_key,
        (#[trigger] rows[i]).canonical_node_id,
    )] == rows[i] by {
        what_is_written_is_read(table, workspace_key, rows, i);
    }
}

} // verus!
