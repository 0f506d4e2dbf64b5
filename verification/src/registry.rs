//! The table `coverage_bindings`: its rows, and how a workspace's rows are replaced.
//!
//! A snapshot replaces all rows of a workspace in one transaction. [`SnapshotReplace`] decides
//! which statement is due; whoever holds the connection performs it and reports the outcome.
use vstd::prelude::*;

verus! {

/// Creates the table and its indices.
pub const CREATE_SQL: &'static str = "CREATE TABLE IF NOT EXISTS coverage_bindings (
    workspace_key     TEXT NOT NULL,
    canonical_node_id TEXT NOT NULL,
    file_path         TEXT NOT NULL,
    total_lines       INTEGER NOT NULL,
    covered_lines     INTEGER NOT NULL,
    line_rate         REAL NOT NULL,
    is_blindspot      INTEGER NOT NULL,
    updated_at        TEXT NOT NULL,
    PRIMARY KEY (workspace_key, canonical_node_id)
);

CREATE INDEX IF NOT EXISTS idx_coverage_node
    ON coverage_bindings (workspace_key, canonical_node_id);

CREATE INDEX IF NOT EXISTS idx_coverage_blindspot
    ON coverage_bindings (workspace_key, is_blindspot);";

/// Deletes the rows of workspace `?1`.
pub const DELETE_SQL: &'static str = "DELETE FROM coverage_bindings WHERE workspace_key = ?1";

/// Inserts one row, its columns in the order of the table.
pub const INSERT_SQL: &'static str = "INSERT INTO coverage_bindings
    (workspace_key, canonical_node_id, file_path,
     total_lines, covered_lines, line_rate, is_blindspot, updated_at)
 VALUES (?1, ?2, ?3, ?4, ?5, ?6, ?7, ?8)";

/// The row of node `?2` of workspace `?1`, its rate last.
pub const SELECT_NODE_SQL: &'static str = "SELECT workspace_key, canonical_node_id, file_path,
        total_lines, covered_lines, is_blindspot, updated_at, line_rate
 FROM coverage_bindings
 WHERE workspace_key = ?1 AND canonical_node_id = ?2";

/// The blindspots of workspace `?1`, least covered first, their rates last.
pub const SELECT_BLINDSPOTS_SQL: &'static str = "SELECT workspace_key, canonical_node_id, file_path,
        total_lines, covered_lines, is_blindspot, updated_at, line_rate
 FROM coverage_bindings
 WHERE workspace_key = ?1 AND is_blindspot = 1
 ORDER BY line_rate ASC";

/// The number of rows of workspace `?1`.
pub const COUNT_SQL: &'static str =
    "SELECT COUNT(*) FROM coverage_bindings WHERE workspace_key = ?1";

/// The number of blindspots of workspace `?1`.
pub const COUNT_BLINDSPOTS_SQL: &'static str = "SELECT COUNT(*) FROM coverage_bindings
 WHERE workspace_key = ?1 AND is_blindspot = 1";

/// The average rate of the nodes of workspace `?1`, rows for files apart. A row for a file is
/// told by its id, so a node that bears the id of its own file is left out, too.
pub const AVG_SQL: &'static str = "SELECT COALESCE(AVG(line_rate), 0.0) FROM coverage_bindings
 WHERE workspace_key = ?1 AND canonical_node_id != ''
   AND canonical_node_id != 'file:' || file_path";

/// One row of the table: the coverage of a symbol, or of the lines of a file that no symbol
/// spans.
#[derive(Debug, Clone, PartialEq)]
pub struct CoverageBinding {
    pub workspace_key: String,
    /// The node id as the graph has it, or `file:` and the path for the lines outside all nodes.
    pub canonical_node_id: String,
    pub file_path: String,
    /// Lines with coverage data.
    pub total_lines: i64,
    /// Lines with coverage data and at least one hit.
    pub covered_lines: i64,
    /// Less than half of the lines are covered.
    pub is_blindspot: bool,
    /// RFC 3339.
    pub updated_at: String,
}

/// What a [`CoverageBinding`] says.
pub struct Binding {
    pub workspace_key: Seq<char>,
    pub canonical_node_id: Seq<char>,
    pub file_path: Seq<char>,
    pub total_lines: int,
    pub covered_lines: int,
    pub is_blindspot: bool,
    pub updated_at: Seq<char>,
}

impl View for CoverageBinding {
    type V = Binding;

    open spec fn view(&self) -> Binding {
        Binding {
            workspace_key: self.workspace_key@,
            canonical_node_id: self.canonical_node_id@,
            file_path: self.file_path@,
            total_lines: self.total_lines as int,
            covered_lines: self.covered_lines as int,
            is_blindspot: self.is_blindspot,
            updated_at: self.updated_at@,
        }
    }
}

/// A binding says what its fields say.
pub proof fn a_binding_says_what_its_fields_say(b: CoverageBinding)
    ensures
        b@.workspace_key == b.workspace_key@,
        b@.canonical_node_id == b.canonical_node_id@,
        b@.file_path == b.file_path@,
        b@.total_lines == b.total_lines,
        b@.covered_lines == b.covered_lines,
        b@.is_blindspot == b.is_blindspot,
        b@.updated_at == b.updated_at@,
{
}

/// What the rows say.
pub open spec fn bindings(rows: Seq<CoverageBinding>) -> Seq<Binding> {
    rows.map_values(|b: CoverageBinding| b@)
}

/// The rows with the time `updated_at`.
pub open spec fn stamped(rows: Seq<Binding>, updated_at: Seq<char>) -> Seq<Binding> {
    rows.map_values(|b: Binding| Binding { updated_at, ..b })
}

// ---------------------------------------------------------------------------
// Rows in the database
// ---------------------------------------------------------------------------

/// A row as the database stores it, the rate apart: there are no booleans.
#[derive(Debug, Clone, PartialEq)]
pub struct StoredRow {
    pub workspace_key: String,
    pub canonical_node_id: String,
    pub file_path: String,
    pub total_lines: i64,
    pub covered_lines: i64,
    pub is_blindspot: i64,
    pub updated_at: String,
}

impl StoredRow {
    /// What the stored row says: any number but 0 marks a blindspot.
    pub open spec fn binding(self) -> Binding {
        Binding {
            workspace_key: self.workspace_key@,
            canonical_node_id: self.canonical_node_id@,
            file_path: self.file_path@,
            total_lines: self.total_lines as int,
            covered_lines: self.covered_lines as int,
            is_blindspot: self.is_blindspot != 0,
            updated_at: self.updated_at@,
        }
    }
}

/// Reads a stored row.
pub fn row_from_sql(row: StoredRow) -> (out: CoverageBinding)
    ensures
        out@ == row.binding(),
        out.workspace_key@ == row.workspace_key@,
        out.canonical_node_id@ == row.canonical_node_id@,
        out.file_path@ == row.file_path@,
        out.total_lines == row.total_lines,
        out.covered_lines == row.covered_lines,
        out.is_blindspot == (row.is_blindspot != 0),
        out.updated_at@ == row.updated_at@,
{
    CoverageBinding {
        workspace_key: row.workspace_key,
        canonical_node_id: row.canonical_node_id,
        file_path: row.file_path,
        total_lines: row.total_lines,
        covered_lines: row.covered_lines,
        is_blindspot: row.is_blindspot != 0,
        updated_at: row.updated_at,
    }
}

/// The row to store for a binding. Reading it back gives the binding.
pub fn row_to_sql(b: &CoverageBinding) -> (out: StoredRow)
    ensures
        out.binding() == b@,
        out.workspace_key@ == b.workspace_key@,
        out.canonical_node_id@ == b.canonical_node_id@,
        out.file_path@ == b.file_path@,
        out.total_lines == b.total_lines,
        out.covered_lines == b.covered_lines,
        out.updated_at@ == b.updated_at@,
        out.is_blindspot == if b.is_blindspot {
            1i64
        } else {
            0
        },
{
    StoredRow {
        workspace_key: b.workspace_key.clone(),
        canonical_node_id: b.canonical_node_id.clone(),
        file_path: b.file_path.clone(),
        total_lines: b.total_lines,
        covered_lines: b.covered_lines,
        is_blindspot: if b.is_blindspot {
            1
        } else {
            0
        },
        updated_at: b.updated_at.clone(),
    }
}

// ---------------------------------------------------------------------------
// Replacing a snapshot
// ---------------------------------------------------------------------------

/// What is due in a snapshot replacement.
#[derive(Debug, Clone, Copy, PartialEq, Eq, Structural)]
pub enum SnapshotAction {
    /// Start a transaction.
    Begin,
    /// Delete the workspace's rows.
    Delete,
    /// Insert the row with this number.
    Insert(usize),
    /// Commit the transaction.
    Commit,
    /// Roll the transaction back.
    Rollback,
    /// Nothing more.
    Done,
}

/// What is due after `action`, with `n` rows to insert: the rows in order once the old ones are
/// gone, then the commit; after a failure inside the transaction, the rollback.
pub open spec fn next_action(n: nat, action: SnapshotAction, ok: bool) -> SnapshotAction {
    match action {
        SnapshotAction::Begin => if ok {
            SnapshotAction::Delete
        } else {
            SnapshotAction::Done
        },
        SnapshotAction::Delete => if !ok {
            SnapshotAction::Rollback
        } else if n > 0 {
            SnapshotAction::Insert(0)
        } else {
            SnapshotAction::Commit
        },
        SnapshotAction::Insert(i) => if !ok {
            SnapshotAction::Rollback
        } else if i + 1 < n {
            SnapshotAction::Insert((i + 1) as usize)
        } else {
            SnapshotAction::Commit
        },
        SnapshotAction::Commit => if ok {
            SnapshotAction::Done
        } else {
            SnapshotAction::Rollback
        },
        SnapshotAction::Rollback => SnapshotAction::Done,
        SnapshotAction::Done => SnapshotAction::Done,
    }
}

/// The replacement of a workspace's rows, under way.
#[derive(Debug)]
pub struct SnapshotReplace {
    workspace_key: String,
    rows: Vec<CoverageBinding>,
    action: SnapshotAction,
    failure: Option<String>,
}

impl SnapshotReplace {
    #[verifier::type_invariant]
    spec fn in_range(self) -> bool {
        self.action matches SnapshotAction::Insert(i) ==> i < self.rows@.len()
    }

    /// The workspace whose rows are replaced.
    pub closed spec fn workspace(self) -> Seq<char> {
        self.workspace_key@
    }

    /// The rows that replace them.
    pub closed spec fn new_rows(self) -> Seq<Binding> {
        bindings(self.rows@)
    }

    /// What is due.
    pub closed spec fn due(self) -> SnapshotAction {
        self.action
    }

    /// What the first failed action reported.
    pub closed spec fn fault(self) -> Option<Seq<char>> {
        match self.failure {
            Some(message) => Some(message@),
            None => None,
        }
    }

    /// The workspace whose rows are replaced.
    pub fn workspace_key(&self) -> (key: &str)
        ensures
            key@ == self.workspace(),
    {
        self.workspace_key.as_str()
    }

    /// What is due; a row to insert is always one of the rows.
    pub fn action(&self) -> (action: SnapshotAction)
        ensures
            action == self.due(),
            action matches SnapshotAction::Insert(i) ==> i < self.new_rows().len(),
    {
        proof {
            use_type_invariant(self);
        }
        self.action
    }

    /// The row with the number `i`.
    pub fn row(&self, i: usize) -> (row: &CoverageBinding)
        requires
            i < self.new_rows().len(),
        ensures
            row@ == self.new_rows()[i as int],
    {
        &self.rows[i]
    }

    /// Reports how the action that was due went. The first failure is kept; once nothing is
    /// due, nothing changes.
    pub fn advance(&mut self, outcome: Result<(), String>)
        ensures
            final(self).workspace() == old(self).workspace(),
            final(self).new_rows() == old(self).new_rows(),
            final(self).due() == next_action(
                old(self).new_rows().len(),
                old(self).due(),
                outcome is Ok,
            ),
            final(self).fault() == match (old(self).fault(), outcome) {
                (None, Err(message)) => if old(self).due() is Done {
                    None
                } else {
                    Some(message@)
                },
                (fault, _) => fault,
            },
    {
        proof {
            use_type_invariant(&*self);
        }
        let ok = outcome.is_ok();
        let n = self.rows.len();
        let next = match self.action {
            SnapshotAction::Begin => if ok {
                SnapshotAction::Delete
            } else {
                SnapshotAction::Done
            },
            SnapshotAction::Delete => if !ok {
                SnapshotAction::Rollback
            } else if n > 0 {
                SnapshotAction::Insert(0)
            } else {
                SnapshotAction::Commit
            },
            SnapshotAction::Insert(i) => if !ok {
                SnapshotAction::Rollback
            } else if i + 1 < n {
                SnapshotAction::Insert(i + 1)
            } else {
                SnapshotAction::Commit
            },
            SnapshotAction::Commit => if ok {
                SnapshotAction::Done
            } else {
                SnapshotAction::Rollback
            },
            SnapshotAction::Rollback => SnapshotAction::Done,
            SnapshotAction::Done => SnapshotAction::Done,
        };
        let over = match self.action {
            SnapshotAction::Done => true,
            _ => false,
        };
        self.action = next;
        if !over && self.failure.is_none() {
            if let Err(message) = outcome {
                self.failure = Some(message);
            }
        }
    }

    /// How the replacement went, once nothing more is due.
    pub fn outcome(&self) -> (out: Option<Result<(), String>>)
        ensures
            match out {
                None => self.due() !is Done,
                Some(Ok(())) => self.due() is Done && self.fault() is None,
                Some(Err(message)) => self.due() is Done && self.fault() == Some(message@),
            },
    {
        match self.action {
            SnapshotAction::Done => match &self.failure {
                None => Some(Ok(())),
                Some(message) => Some(Err(message.clone())),
            },
            _ => None,
        }
    }
}

/// Starts the replacement of the rows of `workspace_key` by `rows`, all with the time
/// `updated_at`.
pub fn snapshot_replace(workspace_key: &str, rows: &[CoverageBinding], updated_at: &str) -> (out:
    SnapshotReplace)
    ensures
        out.workspace() == workspace_key@,
        out.new_rows() == stamped(bindings(rows@), updated_at@),
        out.new_rows().len() == rows@.len(),
        forall|i: int|
            0 <= i < rows@.len() ==> #[trigger] out.new_rows()[i] == (Binding {
                updated_at: updated_at@,
                ..rows@[i]@
            }),
        out.due() == SnapshotAction::Begin,
        out.fault() is None,
{
    let mut copies: Vec<CoverageBinding> = Vec::new();
    for i in 0..rows.len()
        invariant
            bindings(copies@) == stamped(bindings(rows@), updated_at@).take(i as int),
    {
        let b = &rows[i];
        let ghost before = copies@;
        copies.push(
            CoverageBinding {
                workspace_key: b.workspace_key.clone(),
                canonical_node_id: b.canonical_node_id.clone(),
                file_path: b.file_path.clone(),
                total_lines: b.total_lines,
                covered_lines: b.covered_lines,
                is_blindspot: b.is_blindspot,
                updated_at: updated_at.to_owned(),
            },
        );
        assert(bindings(copies@) =~= bindings(before).push(copies@.last()@));
        assert(stamped(bindings(rows@), updated_at@).take(i + 1) =~= stamped(
            bindings(rows@),
            updated_at@,
        ).take(i as int).push(copies@.last()@));
    }
    assert(bindings(copies@) =~= stamped(bindings(rows@), updated_at@));
    SnapshotReplace {
        workspace_key: workspace_key.to_owned(),
        rows: copies,
        action: SnapshotAction::Begin,
        failure: None,
    }
}

} // verus!
