//! Snapshots in a real database.
use graphify_plugin_test_coverage::registry::{
    row_from_sql, row_to_sql, snapshot_replace, CoverageBinding, SnapshotAction, SnapshotReplace,
    StoredRow, AVG_SQL, COUNT_BLINDSPOTS_SQL, COUNT_SQL, CREATE_SQL, DELETE_SQL, INSERT_SQL,
    SELECT_BLINDSPOTS_SQL, SELECT_NODE_SQL,
};
use rusqlite::{Connection, OptionalExtension, Row};

fn binding(ws: &str, node: &str, rate: f64) -> CoverageBinding {
    CoverageBinding {
        workspace_key: ws.to_string(),
        canonical_node_id: node.to_string(),
        file_path: "src/auth.rs".to_string(),
        total_lines: 10,
        covered_lines: (rate * 10.0) as i64,
        is_blindspot: rate < 0.5,
        updated_at: "2026-08-17T00:00:00Z".to_string(),
    }
}

struct Db {
    conn: Connection,
}

fn open_tmp() -> (tempfile::TempDir, Db) {
    let dir = tempfile::tempdir().unwrap();
    let conn = Connection::open(dir.path().join("graphify.db")).unwrap();
    conn.execute_batch(CREATE_SQL).unwrap();
    (dir, Db { conn })
}

fn stored(row: &Row<'_>) -> rusqlite::Result<CoverageBinding> {
    Ok(row_from_sql(StoredRow {
        workspace_key: row.get(0)?,
        canonical_node_id: row.get(1)?,
        file_path: row.get(2)?,
        total_lines: row.get(3)?,
        covered_lines: row.get(4)?,
        is_blindspot: row.get(5)?,
        updated_at: row.get(6)?,
    }))
}

impl Db {
    fn perform(&self, snapshot: &SnapshotReplace) -> rusqlite::Result<()> {
        match snapshot.action() {
            SnapshotAction::Begin => self.conn.execute_batch("BEGIN"),
            SnapshotAction::Delete => {
                self.conn.execute(DELETE_SQL, (snapshot.workspace_key(),)).map(|_| ())
            }
            SnapshotAction::Insert(i) => {
                let b = snapshot.row(i);
                let row = row_to_sql(b);
                let rate = b.covered_lines as f64 / b.total_lines as f64;
                let values = (
                    row.workspace_key,
                    row.canonical_node_id,
                    row.file_path,
                    row.total_lines,
                    row.covered_lines,
                    rate,
                    row.is_blindspot,
                    row.updated_at,
                );
                self.conn.execute(INSERT_SQL, values).map(|_| ())
            }
            SnapshotAction::Commit => self.conn.execute_batch("COMMIT"),
            SnapshotAction::Rollback => self.conn.execute_batch("ROLLBACK"),
            SnapshotAction::Done => Ok(()),
        }
    }

    fn snapshot_replace(&self, ws: &str, rows: &[CoverageBinding], now: &str) -> Result<(), String> {
        let mut snapshot = snapshot_replace(ws, rows, now);
        loop {
            if let Some(outcome) = snapshot.outcome() {
                return outcome;
            }
            let outcome = self.perform(&snapshot).map_err(|e| e.to_string());
            snapshot.advance(outcome);
        }
    }

    fn query_by_node(&self, ws: &str, node: &str) -> Option<CoverageBinding> {
        self.conn.query_row(SELECT_NODE_SQL, (ws, node), stored).optional().unwrap()
    }

    fn query_blindspots(&self, ws: &str) -> Vec<CoverageBinding> {
        let mut stmt = self.conn.prepare(SELECT_BLINDSPOTS_SQL).unwrap();
        let rows = stmt.query_map((ws,), stored).unwrap();
        rows.map(|r| r.unwrap()).collect()
    }

    fn count(&self, ws: &str) -> usize {
        self.conn.query_row(COUNT_SQL, (ws,), |r| r.get::<_, i64>(0)).unwrap() as usize
    }

    fn count_blindspots(&self, ws: &str) -> usize {
        self.conn.query_row(COUNT_BLINDSPOTS_SQL, (ws,), |r| r.get::<_, i64>(0)).unwrap() as usize
    }

    fn avg_line_rate(&self, ws: &str) -> f64 {
        self.conn.query_row(AVG_SQL, (ws,), |r| r.get(0)).unwrap()
    }
}

#[test]
fn snapshot_replace_atomic() {
    let (_d, db) = open_tmp();
    let ws = "w-1";
    let bindings = vec![
        binding(ws, "src/a.rs:function:f1", 0.8),
        binding(ws, "src/a.rs:function:f2", 0.0),
    ];
    db.snapshot_replace(ws, &bindings, "now").unwrap();
    assert_eq!(db.count(ws), 2);
    assert_eq!(db.count_blindspots(ws), 1);
}

#[test]
fn snapshot_replace_clears_old_data() {
    let (_d, db) = open_tmp();
    let ws = "w-1";
    db.snapshot_replace(ws, &[binding(ws, "n1", 0.9)], "now").unwrap();
    assert_eq!(db.count(ws), 1);
    db.snapshot_replace(ws, &[binding(ws, "n2", 0.0)], "now").unwrap();
    assert_eq!(db.count(ws), 1, "old data cleared");
    assert!(db.query_by_node(ws, "n1").is_none(), "n1 gone");
    assert!(db.query_by_node(ws, "n2").is_some());
}

#[test]
fn workspace_isolation() {
    let (_d, db) = open_tmp();
    db.snapshot_replace("w1", &[binding("w1", "n", 0.0)], "now").unwrap();
    db.snapshot_replace("w2", &[binding("w2", "n", 0.0)], "now").unwrap();
    assert_eq!(db.count("w1"), 1);
    assert_eq!(db.count("w2"), 1);
}

#[test]
fn query_blindspots_returns_only_under_50() {
    let (_d, db) = open_tmp();
    let ws = "w-1";
    db.snapshot_replace(ws, &[
        binding(ws, "n1", 0.0),
        binding(ws, "n2", 0.3),
        binding(ws, "n3", 0.5), // half is no blindspot
        binding(ws, "n4", 0.8),
    ], "now").unwrap();
    let spots = db.query_blindspots(ws);
    assert_eq!(spots.len(), 2, "n1 + n2 are blindspots");
    assert!(spots.iter().all(|b| b.is_blindspot));
}

#[test]
fn avg_line_rate_computation() {
    let (_d, db) = open_tmp();
    let ws = "w-1";
    db.snapshot_replace(ws, &[
        binding(ws, "n1", 1.0),
        binding(ws, "n2", 0.5),
        binding(ws, "n3", 0.0),
    ], "now").unwrap();
    let avg = db.avg_line_rate(ws);
    assert!((avg - 0.5).abs() < 0.001);
}

#[test]
fn empty_workspace_returns_zero() {
    let (_d, db) = open_tmp();
    assert_eq!(db.count("nonexistent"), 0);
    assert_eq!(db.count_blindspots("nonexistent"), 0);
    assert!((db.avg_line_rate("nonexistent") - 0.0).abs() < 0.001);
}

#[test]
fn what_is_written_is_read() {
    let (_d, db) = open_tmp();
    db.snapshot_replace("w", &[binding("w", "a", 0.2), binding("w", "b", 0.7)], "later").unwrap();
    let mut expected = binding("w", "a", 0.2);
    expected.updated_at = "later".to_string();
    assert_eq!(db.query_by_node("w", "a").unwrap(), expected);
    assert!(!db.query_by_node("w", "b").unwrap().is_blindspot);
    assert!(db.query_by_node("v", "a").is_none());
}

#[test]
fn blindspots_come_least_covered_first() {
    let (_d, db) = open_tmp();
    let rows = [binding("w", "x", 0.3), binding("w", "y", 0.1), binding("w", "z", 0.2)];
    db.snapshot_replace("w", &rows, "now").unwrap();
    let ids: Vec<String> =
        db.query_blindspots("w").into_iter().map(|b| b.canonical_node_id).collect();
    assert_eq!(ids, vec!["y", "z", "x"]);
}

#[test]
fn rows_for_files_stay_out_of_the_average() {
    let (_d, db) = open_tmp();
    let rows = [
        binding("w", "n", 1.0),
        binding("w", "file:src/auth.rs", 0.0),
        binding("w", "", 0.0),
        binding("w", "file:other.rs", 0.0),
    ];
    db.snapshot_replace("w", &rows, "now").unwrap();
    assert!((db.avg_line_rate("w") - 0.5).abs() < 0.001);
}

#[test]
fn a_failed_replacement_leaves_the_old_rows() {
    let (_d, db) = open_tmp();
    db.snapshot_replace("w", &[binding("w", "old", 0.9)], "now").unwrap();
    let twice = [binding("w", "n", 0.1), binding("w", "n", 0.2)];
    let error = db.snapshot_replace("w", &twice, "now").unwrap_err();
    assert!(error.contains("UNIQUE"), "{error}");
    assert_eq!(db.count("w"), 1);
    assert!(db.query_by_node("w", "old").is_some());
    // The connection is as good as before.
    db.snapshot_replace("w", &[binding("w", "new", 0.9)], "now").unwrap();
    assert!(db.query_by_node("w", "old").is_none());
}

#[test]
fn an_empty_snapshot_clears_the_workspace() {
    let (_d, db) = open_tmp();
    db.snapshot_replace("w", &[binding("w", "n", 0.9)], "now").unwrap();
    db.snapshot_replace("v", &[binding("v", "n", 0.9)], "now").unwrap();
    db.snapshot_replace("w", &[], "now").unwrap();
    assert_eq!((db.count("w"), db.count("v")), (0, 1));
}

/// Reports the outcomes one after the other and notes what was due each time.
fn actions(rows: usize, outcomes: &[bool]) -> (Vec<SnapshotAction>, SnapshotReplace) {
    let rows: Vec<CoverageBinding> = (0..rows).map(|i| binding("w", &i.to_string(), 0.5)).collect();
    let mut snapshot = snapshot_replace("w", &rows, "now");
    let mut due = vec![snapshot.action()];
    for (i, ok) in outcomes.iter().enumerate() {
        snapshot.advance(if *ok { Ok(()) } else { Err(format!("failure {i}")) });
        due.push(snapshot.action());
    }
    (due, snapshot)
}

#[test]
fn success_takes_three_actions_more_than_rows() {
    let (due, snapshot) = actions(2, &[true; 5]);
    assert_eq!(
        due,
        vec![
            SnapshotAction::Begin,
            SnapshotAction::Delete,
            SnapshotAction::Insert(0),
            SnapshotAction::Insert(1),
            SnapshotAction::Commit,
            SnapshotAction::Done,
        ]
    );
    assert_eq!(snapshot.outcome(), Some(Ok(())));
    assert_eq!(snapshot.workspace_key(), "w");
    assert_eq!(snapshot.row(1).updated_at, "now");
}

#[test]
fn every_failure_ends_in_its_message() {
    for k in 0..5 {
        let mut outcomes = vec![true; k];
        outcomes.push(false);
        let (due, snapshot) = actions(2, &outcomes);
        if k == 0 {
            assert_eq!(*due.last().unwrap(), SnapshotAction::Done);
        } else {
            assert_eq!(*due.last().unwrap(), SnapshotAction::Rollback);
            assert_eq!(snapshot.outcome(), None);
            outcomes.push(false);
        }
        let (due, snapshot) = actions(2, &outcomes);
        assert_eq!(*due.last().unwrap(), SnapshotAction::Done);
        assert_eq!(snapshot.outcome(), Some(Err(format!("failure {k}"))));
    }
}

#[test]
fn nothing_changes_once_all_is_done() {
    let (_, mut snapshot) = actions(0, &[true; 3]);
    assert_eq!(snapshot.outcome(), Some(Ok(())));
    snapshot.advance(Err("too late".to_string()));
    assert_eq!(snapshot.action(), SnapshotAction::Done);
    assert_eq!(snapshot.outcome(), Some(Ok(())));
}

#[test]
fn stored_rows_are_read_back() {
    let b = binding("w", "n", 0.3);
    assert_eq!(row_to_sql(&b).is_blindspot, 1);
    assert_eq!(row_from_sql(row_to_sql(&b)), b);
    let mut row = row_to_sql(&binding("w", "n", 0.9));
    assert_eq!(row.is_blindspot, 0);
    row.is_blindspot = -7;
    assert!(row_from_sql(row).is_blindspot);
}
