//! The coverage plugin: what it knows, and what it makes of coverage sources and graphs.
use std::path::PathBuf;

use vstd::prelude::*;
use vstd::string::StringExecFns;

use crate::clock::now_rfc3339;
use crate::graph::GraphOutput;
use crate::ingest::{
    parse_json, parse_lcov, CoverageData, CoverageIngestPayload, CoverageParseError,
};
use crate::registry::{snapshot_replace, Binding, CoverageBinding, SnapshotReplace};
use crate::resolver::resolve;
use crate::sync::{build_coverage_plugin_data, emit_packet, parse_graph, CoveragePluginData};

verus! {

/// The id under which the plugin is known.
pub const PLUGIN_ID: &'static str = "graphify-plugin-test-coverage";

/// `std::path::PathBuf`, carried as it is.
#[verifier::external_type_specification]
#[verifier::external_body]
pub struct ExPathBuf(PathBuf);

/// Where the plugin works.
#[derive(Debug, Clone, PartialEq)]
pub struct WorkspaceContext {
    pub workspace_key: String,
    pub name: String,
    pub root_path: String,
}

impl WorkspaceContext {
    /// A context with the given key, name and root directory.
    pub fn new(workspace_key: &str, name: &str, root_path: &str) -> (ctx: Self)
        ensures
            ctx.workspace_key@ == workspace_key@,
            ctx.name@ == name@,
            ctx.root_path@ == root_path@,
    {
        WorkspaceContext {
            workspace_key: workspace_key.to_owned(),
            name: name.to_owned(),
            root_path: root_path.to_owned(),
        }
    }
}

/// What an ingest amounts to.
#[derive(Debug, Clone, Copy, PartialEq, Eq, Structural)]
pub struct CoverageSummary {
    /// Bindings to symbols, those of files apart.
    pub bound_nodes: usize,
    /// Measured lines over all bindings.
    pub total_lines: i64,
    /// Covered lines over all bindings.
    pub covered_lines: i64,
    /// Bindings with less than half of their lines covered.
    pub blindspots: usize,
}

/// Why the plugin could not do what it was asked for.
#[derive(Debug)]
pub enum CoverageError {
    /// The coverage source could not be read.
    Parse(CoverageParseError),
    /// The database reported this.
    Db(String),
    /// No graph has come in yet.
    NoGraphCache,
    /// The plugin has no workspace yet.
    NotBound,
    Internal(String),
}

impl CoverageError {
    /// The error as a sentence.
    pub open spec fn text(self) -> Seq<char> {
        match self {
            CoverageError::Parse(e) => "parse error: coverage parse error: "@ + e.message@,
            CoverageError::Db(message) => "db error: "@ + message@,
            CoverageError::NoGraphCache => "no graph cache \u{2014} call sync_toon first"@,
            CoverageError::NotBound => "plugin not bound \u{2014} call bind first"@,
            CoverageError::Internal(message) => "internal error: "@ + message@,
        }
    }

    /// The error as a sentence for people.
    pub fn to_text(&self) -> (out: String)
        ensures
            out@ == self.text(),
    {
        let mut out = String::new();
        match self {
            CoverageError::Parse(e) => {
                out.append("parse error: coverage parse error: ");
                out.append(e.message.as_str());
            },
            CoverageError::Db(message) => {
                out.append("db error: ");
                out.append(message.as_str());
            },
            CoverageError::NoGraphCache => {
                out.append("no graph cache \u{2014} call sync_toon first");
            },
            CoverageError::NotBound => {
                out.append("plugin not bound \u{2014} call bind first");
            },
            CoverageError::Internal(message) => {
                out.append("internal error: ");
                out.append(message.as_str());
            },
        }
        assert(out@ =~= self.text());
        out
    }
}

/// An error says what happened: a source that cannot be read and a failure of the database with
/// their whole message, the others by their name.
pub proof fn errors_say_what_happened(e: CoverageParseError, message: String)
    ensures
        CoverageError::Parse(e).text() == "parse error: coverage parse error: "@ + e.message@,
        CoverageError::Db(message).text() == "db error: "@ + message@,
        CoverageError::Internal(message).text() == "internal error: "@ + message@,
        CoverageError::NoGraphCache.text() == "no graph cache \u{2014} call sync_toon first"@,
        CoverageError::NotBound.text() == "plugin not bound \u{2014} call bind first"@,
{
}

// ---------------------------------------------------------------------------
// Summing up
// ---------------------------------------------------------------------------

/// The sum of the measured lines.
pub open spec fn sum_total(rows: Seq<Binding>) -> int
    decreases rows.len(),
{
    if rows.len() == 0 {
        0
    } else {
        sum_total(rows.drop_last()) + rows.last().total_lines
    }
}

/// The sum of the covered lines.
pub open spec fn sum_covered(rows: Seq<Binding>) -> int
    decreases rows.len(),
{
    if rows.len() == 0 {
        0
    } else {
        sum_covered(rows.drop_last()) + rows.last().covered_lines
    }
}

/// The summary says what the bindings amount to, `bound_nodes` of them being those of nodes.
pub open spec fn sums_up(summary: CoverageSummary, rows: Seq<Binding>, bound_nodes: nat) -> bool {
    &&& summary.bound_nodes == bound_nodes
    &&& summary.total_lines == sum_total(rows)
    &&& summary.covered_lines == sum_covered(rows)
    &&& summary.blindspots == rows.filter(|b: Binding| b.is_blindspot).len()
}

/// One binding more adds its lines to the sums, and no bindings have none.
pub proof fn each_binding_adds_its_lines(rows: Seq<Binding>, b: Binding)
    ensures
        sum_total(Seq::empty()) == 0,
        sum_covered(Seq::empty()) == 0,
        sum_total(rows.push(b)) == sum_total(rows) + b.total_lines,
        sum_covered(rows.push(b)) == sum_covered(rows) + b.covered_lines,
{
    assert(rows.push(b).drop_last() =~= rows);
}

/// Sums of sound counts are sound and grow with the rows.
pub proof fn sums_are_sound(rows: Seq<Binding>, n: int)
    requires
        0 <= n <= rows.len(),
        forall|i: int| 0 <= i < rows.len() ==> crate::resolver::sound_counts(#[trigger] rows[i]),
    ensures
        0 <= sum_covered(rows.take(n)) <= sum_total(rows.take(n)) <= sum_total(rows),
        sum_covered(rows) <= sum_total(rows),
    decreases rows.len() - n, rows.len(),
{
    if n < rows.len() {
        sums_are_sound(rows, n + 1);
        assert(rows.take(n + 1).drop_last() =~= rows.take(n));
        assert(crate::resolver::sound_counts(rows[n]));
        assert(0 <= sum_covered(rows.take(n)) <= sum_total(rows.take(n))) by {
            sums_are_sound(rows.take(n), n);
            assert(rows.take(n).take(n) =~= rows.take(n));
        }
    } else {
        assert(rows.take(n) =~= rows);
        if rows.len() > 0 {
            let init = rows.drop_last();
            assert forall|i: int| 0 <= i < init.len() implies crate::resolver::sound_counts(
                #[trigger] init[i],
            ) by {
                assert(crate::resolver::sound_counts(rows[i]));
            }
            assert(crate::resolver::sound_counts(rows[rows.len() - 1]));
            sums_are_sound(init, init.len() as int);
            assert(init.take(init.len() as int) =~= init);
        }
    }
}

/// Sums up bindings, `bound_nodes` of them being those of nodes, unless the line counts do not
/// fit.
pub fn summarize(rows: &[CoverageBinding], bound_nodes: usize) -> (out: Option<CoverageSummary>)
    requires
        forall|i: int| 0 <= i < rows@.len() ==> crate::resolver::sound_counts(#[trigger] rows@[i]@),
    ensures
        match out {
            Some(summary) => sums_up(
                summary,
                crate::registry::bindings(rows@),
                bound_nodes as nat,
            ),
            None => sum_total(crate::registry::bindings(rows@)) > i64::MAX,
        },
{
    let ghost all = crate::registry::bindings(rows@);
    assert forall|i: int| 0 <= i < all.len() implies crate::resolver::sound_counts(
        #[trigger] all[i],
    ) by {
        assert(crate::resolver::sound_counts(rows@[i]@));
    }
    let mut total_lines: i64 = 0;
    let mut covered_lines: i64 = 0;
    let mut blindspots: usize = 0;
    assert(all.take(0) =~= Seq::<Binding>::empty());
    reveal(Seq::filter);
    for i in 0..rows.len()
        invariant
            all == crate::registry::bindings(rows@),
            forall|i: int| 0 <= i < all.len() ==> crate::resolver::sound_counts(#[trigger] all[i]),
            blindspots <= i,
            0 <= covered_lines <= total_lines,
            total_lines == sum_total(all.take(i as int)),
            covered_lines == sum_covered(all.take(i as int)),
            blindspots == all.take(i as int).filter(|b: Binding| b.is_blindspot).len(),
    {
        reveal(Seq::filter);
        let b = &rows[i];
        assert(all[i as int] == b@);
        assert(all.take(i + 1).drop_last() =~= all.take(i as int));
        assert(all.take(i + 1).last() == b@);
        proof {
            sums_are_sound(all, i + 1);
        }
        if b.total_lines > i64::MAX - total_lines {
            return None;
        }
        total_lines += b.total_lines;
        covered_lines += b.covered_lines;
        if b.is_blindspot {
            blindspots += 1;
        }
    }
    assert(all.take(rows@.len() as int) =~= all);
    Some(CoverageSummary { bound_nodes, total_lines, covered_lines, blindspots })
}

// ---------------------------------------------------------------------------
// The plugin
// ---------------------------------------------------------------------------

/// What the plugin knows: its workspace, where its database is, and the last graph.
#[derive(Debug)]
pub struct CoveragePlugin {
    workspace_key: String,
    root_path: String,
    registry_path: Option<PathBuf>,
    graph_cache: Option<GraphOutput>,
}

/// A resolved coverage source: what it amounts to, and the replacement of the workspace's rows
/// that is to be performed.
#[derive(Debug)]
pub struct Ingest {
    pub summary: CoverageSummary,
    pub snapshot: SnapshotReplace,
}

impl Ingest {
    /// The result of the ingest once the replacement is over: the summary, or what the database
    /// reported.
    pub fn finish(self) -> (out: Result<CoverageSummary, CoverageError>)
        requires
            self.snapshot.due() is Done,
        ensures
            match (out, self.snapshot.fault()) {
                (Ok(summary), None) => summary == self.summary,
                (Err(CoverageError::Db(message)), Some(fault)) => message@ == fault,
                _ => false,
            },
    {
        match self.snapshot.outcome() {
            Some(Err(message)) => Err(CoverageError::Db(message)),
            _ => Ok(self.summary),
        }
    }
}

/// What the database says of a workspace; a number is missing if its query failed.
#[derive(Debug, Clone, Copy)]
pub struct TableStats {
    pub total: Option<usize>,
    pub blindspots: Option<usize>,
    /// The average coverage in tenths of a percent.
    pub avg_tenths: Option<u32>,
}

/// The number, or 0 if it is missing.
pub open spec fn or_zero(n: Option<usize>) -> nat {
    match n {
        Some(n) => n as nat,
        None => 0,
    }
}

/// The JSON summary of a workspace from what the database says; zeros for what is missing.
pub open spec fn stats_json(workspace_key: Seq<char>, stats: Option<TableStats>) -> Seq<char> {
    match stats {
        Some(stats) => crate::sync::summary_json(
            workspace_key,
            or_zero(stats.total),
            or_zero(stats.blindspots),
            match stats.avg_tenths {
                Some(tenths) => tenths as nat,
                None => 0,
            },
        ),
        None => crate::sync::summary_json(workspace_key, 0, 0, 0),
    }
}

/// What the database says is what the summary says; what is missing counts as zero.
pub proof fn missing_numbers_count_as_zero(
    workspace_key: Seq<char>,
    total: Option<usize>,
    blindspots: Option<usize>,
    avg_tenths: Option<u32>,
)
    ensures
        stats_json(workspace_key, None) == crate::sync::summary_json(workspace_key, 0, 0, 0),
        stats_json(workspace_key, Some(TableStats { total, blindspots, avg_tenths }))
            == crate::sync::summary_json(
            workspace_key,
            if total is Some {
                total->Some_0 as nat
            } else {
                0
            },
            if blindspots is Some {
                blindspots->Some_0 as nat
            } else {
                0
            },
            if avg_tenths is Some {
                avg_tenths->Some_0 as nat
            } else {
                0
            },
        ),
{
}

/// Composes the summary of a workspace from what the database says; zeros for what is missing.
pub fn coverage_summary_json(workspace_key: &str, stats: Option<TableStats>) -> (data:
    CoveragePluginData)
    ensures
        data.json() == stats_json(workspace_key@, stats),
        data.workspace_key@ == workspace_key@,
        data.total_nodes == if stats is Some && stats->Some_0.total is Some {
            stats->Some_0.total->Some_0
        } else {
            0
        },
        data.blindspots == if stats is Some && stats->Some_0.blindspots is Some {
            stats->Some_0.blindspots->Some_0
        } else {
            0
        },
        data.avg_tenths == if stats is Some && stats->Some_0.avg_tenths is Some {
            stats->Some_0.avg_tenths->Some_0
        } else {
            0
        },
{
    match stats {
        Some(stats) => {
            let total: usize = match stats.total {
                Some(n) => n,
                None => 0,
            };
            let blindspots: usize = match stats.blindspots {
                Some(n) => n,
                None => 0,
            };
            let avg_tenths: u32 = match stats.avg_tenths {
                Some(n) => n,
                None => 0,
            };
            build_coverage_plugin_data(workspace_key, total, blindspots, avg_tenths)
        },
        None => build_coverage_plugin_data(workspace_key, 0, 0, 0),
    }
}

impl Default for CoveragePlugin {
    fn default() -> (plugin: Self)
        ensures
            plugin.workspace().len() == 0,
            plugin.root().len() == 0,
            plugin.registry() is None,
            plugin.cached() is None,
    {
        CoveragePlugin::new()
    }
}

impl CoveragePlugin {
    /// The key of the workspace, empty while there is none.
    pub closed spec fn workspace(self) -> Seq<char> {
        self.workspace_key@
    }

    /// The root directory of the workspace.
    pub closed spec fn root(self) -> Seq<char> {
        self.root_path@
    }

    /// Where the database is, if not at the usual place.
    pub closed spec fn registry(self) -> Option<PathBuf> {
        self.registry_path
    }

    /// The last graph that came in.
    pub closed spec fn cached(self) -> Option<GraphOutput> {
        self.graph_cache
    }

    /// A plugin without workspace and graph, its database at the usual place.
    #[must_use]
    pub fn new() -> (plugin: Self)
        ensures
            plugin.workspace().len() == 0,
            plugin.root().len() == 0,
            plugin.registry() is None,
            plugin.cached() is None,
    {
        CoveragePlugin {
            workspace_key: String::new(),
            root_path: String::new(),
            registry_path: None,
            graph_cache: None,
        }
    }

    /// The plugin with its database at `path`.
    #[must_use]
    pub fn with_registry_path(self, path: PathBuf) -> (plugin: Self)
        ensures
            plugin.registry() == Some(path),
            plugin.workspace() == self.workspace(),
            plugin.root() == self.root(),
            plugin.cached() == self.cached(),
    {
        let mut plugin = self;
        plugin.registry_path = Some(path);
        plugin
    }

    /// Where the database is, if not at the usual place.
    pub fn registry_path(&self) -> (path: Option<&PathBuf>)
        ensures
            match path {
                Some(path) => self.registry() == Some(*path),
                None => self.registry() is None,
            },
    {
        self.registry_path.as_ref()
    }

    /// The id under which the plugin is known.
    pub fn get_id(&self) -> (id: &'static str)
        ensures
            id@ == PLUGIN_ID@,
    {
        PLUGIN_ID
    }

    /// Gives the plugin a workspace.
    pub fn bind(&mut self, ctx: WorkspaceContext)
        ensures
            final(self).workspace() == ctx.workspace_key@,
            final(self).root() == ctx.root_path@,
            final(self).registry() == old(self).registry(),
            final(self).cached() == old(self).cached(),
    {
        self.workspace_key = ctx.workspace_key;
        self.root_path = ctx.root_path;
    }

    /// The plugin bound to a directory: the key derived for it, its name if it has one, its path.
    #[must_use]
    pub fn bind_for_cli(self, workspace_key: &str, file_name: Option<String>, root_path: &str) -> (
        plugin: Self)
        ensures
            plugin.workspace() == workspace_key@,
            plugin.root() == root_path@,
            plugin.registry() == self.registry(),
            plugin.cached() == self.cached(),
    {
        let name = match file_name {
            Some(name) => name,
            None => "workspace".to_owned(),
        };
        let mut plugin = self;
        plugin.bind(WorkspaceContext::new(workspace_key, name.as_str(), root_path));
        plugin
    }

    /// The key of the workspace, empty while there is none.
    pub fn get_workspace_key(&self) -> (key: &str)
        ensures
            key@ == self.workspace(),
    {
        self.workspace_key.as_str()
    }

    /// The last graph that came in.
    #[must_use]
    pub fn graph(&self) -> (graph: Option<GraphOutput>)
        ensures
            match (graph, self.cached()) {
                (Some(graph), Some(cached)) => graph@ == cached@,
                (None, None) => true,
                _ => false,
            },
    {
        match &self.graph_cache {
            Some(graph) => Some(graph.clone()),
            None => None,
        }
    }

    /// What an ingest of the coverage rows `rows` at the time `now` comes to: an error without
    /// a workspace, then without a graph, then if the line counts are too large to sum up; else
    /// the bindings of the rows to the graph, stamped, as the workspace's new rows, and their
    /// summary.
    pub open spec fn ingests(
        self,
        rows: Seq<crate::file_table::FileRow>,
        now: Seq<char>,
        out: Result<Ingest, CoverageError>,
    ) -> bool {
        if self.workspace().len() == 0 {
            out matches Err(CoverageError::NotBound)
        } else {
            match self.cached() {
                None => out matches Err(CoverageError::NoGraphCache),
                Some(graph) => {
                    let bound = crate::resolver::resolved(
                        graph@.nodes,
                        rows,
                        self.workspace(),
                    );
                    let of_nodes = crate::resolver::node_bindings(
                        crate::resolver::candidates(graph@.nodes, rows, rows.len()),
                        rows,
                        self.workspace(),
                    );
                    if sum_total(bound) > i64::MAX {
                        out matches Err(CoverageError::Internal(message)) && message@
                            == "line counts exceed the summary"@
                    } else {
                        &&& out matches Ok(ingest)
                        &&& sums_up(ingest.summary, bound, of_nodes.len())
                        &&& ingest.snapshot.workspace() == self.workspace()
                        &&& ingest.snapshot.new_rows() == crate::registry::stamped(bound, now)
                        &&& ingest.snapshot.due() == crate::registry::SnapshotAction::Begin
                        &&& ingest.snapshot.fault() is None
                    }
                },
            }
        }
    }

    /// Binds coverage to the cached graph, at the time `now`.
    pub fn ingest_at(&self, data: &CoverageData, now: &str) -> (out: Result<Ingest, CoverageError>)
        ensures
            self.ingests(data.files@, now@, out),
            self.workspace().len() == 0 ==> out matches Err(CoverageError::NotBound),
            self.workspace().len() > 0 && self.cached() is None ==> out matches Err(
                CoverageError::NoGraphCache,
            ),
            out matches Err(e) ==> e is NotBound || e is NoGraphCache || e is Internal,
            out matches Err(CoverageError::Internal(_)) ==> self.cached() is Some && sum_total(
                crate::resolver::resolved(
                    self.cached()->Some_0@.nodes,
                    data.files@,
                    self.workspace(),
                ),
            ) > i64::MAX,
            out matches Ok(ingest) ==> {
                let bound = crate::resolver::resolved(
                    self.cached()->Some_0@.nodes,
                    data.files@,
                    self.workspace(),
                );
                &&& self.workspace().len() > 0 && self.cached() is Some
                &&& ingest.snapshot.workspace() == self.workspace()
                &&& ingest.snapshot.due() == crate::registry::SnapshotAction::Begin
                &&& ingest.snapshot.fault() is None
                &&& ingest.snapshot.new_rows().len() == bound.len()
                &&& forall|i: int|
                    0 <= i < bound.len() ==> (#[trigger] ingest.snapshot.new_rows()[i]) == (
                    Binding { updated_at: now@, ..bound[i] })
                        && ingest.snapshot.new_rows()[i].workspace_key == self.workspace()
            },
    {
        if self.workspace_key.as_str().is_empty() {
            return Err(CoverageError::NotBound);
        }
        match &self.graph_cache {
            None => Err(CoverageError::NoGraphCache),
            Some(graph) => {
                let resolution = resolve(graph, data, self.workspace_key.as_str());
                let rows = resolution.bindings;
                match summarize(rows.as_slice(), resolution.bound_nodes) {
                    None => Err(
                        CoverageError::Internal("line counts exceed the summary".to_owned()),
                    ),
                    Some(summary) => {
                        let snapshot = snapshot_replace(
                            self.workspace_key.as_str(),
                            rows.as_slice(),
                            now,
                        );
                        proof {
                            let bound = crate::resolver::resolved(
                                graph@.nodes,
                                data.files@,
                                self.workspace(),
                            );
                            assert forall|i: int| 0 <= i < bound.len() implies (
                            #[trigger] snapshot.new_rows()[i]) == (Binding {
                                updated_at: now@,
                                ..bound[i]
                            }) && snapshot.new_rows()[i].workspace_key == self.workspace() by {
                                let w =
                                    crate::binding_laws::every_binding_is_of_a_node_or_of_a_file(
                                    graph@.nodes,
                                    data.files@,
                                    self.workspace(),
                                    i,
                                );
                            }
                        }
                        Ok(Ingest { summary, snapshot })
                    },
                }
            },
        }
    }

    /// Binds the coverage of an LCOV tracefile to the cached graph, at the present time.
    pub fn coverage_ingest_lcov(&self, lcov_text: &str) -> (out: Result<Ingest, CoverageError>)
        ensures
            match crate::ingest::lcov_files(crate::ingest::text_lines(lcov_text@)) {
                Err(message) => out matches Err(CoverageError::Parse(e)) && e.message@ == message,
                Ok(files) => exists|secs: u64|
                    self.ingests(
                        crate::file_table::ordered_rows(files),
                        #[trigger] crate::clock::timestamp(secs as nat),
                        out,
                    ),
            },
            out matches Ok(ingest) ==> {
                &&& self.workspace().len() > 0 && self.cached() is Some
                &&& ingest.snapshot.workspace() == self.workspace()
                &&& ingest.snapshot.due() == crate::registry::SnapshotAction::Begin
                &&& ingest.snapshot.fault() is None
                &&& forall|i: int|
                    0 <= i < ingest.snapshot.new_rows().len() ==> (
                    #[trigger] ingest.snapshot.new_rows()[i]).workspace_key == self.workspace()
            },
    {
        match parse_lcov(lcov_text) {
            Err(e) => Err(CoverageError::Parse(e)),
            Ok(data) => {
                proof {
                    crate::file_table::ordered_rows_are_unique(data.files@);
                }
                let now = now_rfc3339();
                self.ingest_at(&data, now.as_str())
            },
        }
    }

    /// Binds the coverage of a JSON payload to the cached graph, at the present time: `decoded`
    /// is the payload that the JSON text holds, or what the decoder has against the text.
    pub fn coverage_ingest_json(&self, decoded: Result<CoverageIngestPayload, String>) -> (out:
        Result<Ingest, CoverageError>)
        ensures
            match decoded {
                Err(complaint) => out matches Err(CoverageError::Parse(e)) && e.message@
                    == "invalid JSON: "@ + complaint@,
                Ok(payload) => exists|secs: u64|
                    self.ingests(
                        crate::file_table::ordered_rows(
                            crate::ingest::entry_files(payload.files@),
                        ),
                        #[trigger] crate::clock::timestamp(secs as nat),
                        out,
                    ),
            },
            out matches Ok(ingest) ==> {
                &&& self.workspace().len() > 0 && self.cached() is Some
                &&& ingest.snapshot.workspace() == self.workspace()
                &&& ingest.snapshot.due() == crate::registry::SnapshotAction::Begin
                &&& ingest.snapshot.fault() is None
                &&& forall|i: int|
                    0 <= i < ingest.snapshot.new_rows().len() ==> (
                    #[trigger] ingest.snapshot.new_rows()[i]).workspace_key == self.workspace()
            },
    {
        match parse_json(decoded) {
            Err(e) => Err(CoverageError::Parse(e)),
            Ok(data) => {
                proof {
                    crate::file_table::ordered_rows_are_unique(data.files@);
                }
                let now = now_rfc3339();
                self.ingest_at(&data, now.as_str())
            },
        }
    }

    /// Takes a graph in, if one came that is not empty, and answers with the packet of the
    /// workspace's summary.
    pub fn sync_toon(&mut self, decoded: Option<GraphOutput>, stats: Option<TableStats>) -> (out:
        String)
        ensures
            match decoded {
                Some(graph) => if graph@.nodes.len() == 0 && graph@.edges == 0 {
                    final(self).cached() == old(self).cached()
                } else {
                    final(self).cached() == Some(graph)
                },
                None => final(self).cached() == old(self).cached(),
            },
            final(self).workspace() == old(self).workspace(),
            final(self).root() == old(self).root(),
            final(self).registry() == old(self).registry(),
            out@ == crate::sync::packet(
                old(self).workspace(),
                stats_json(old(self).workspace(), stats),
            ),
    {
        if let Some(graph) = parse_graph(decoded) {
            self.graph_cache = Some(graph);
        }
        let summary = coverage_summary_json(self.workspace_key.as_str(), stats);
        emit_packet(self.workspace_key.as_str(), &summary)
    }
}

} // verus!
