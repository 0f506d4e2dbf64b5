//! The table from file path to line hits, kept in path order.
use std::collections::HashMap;

use vstd::prelude::*;

use crate::text::{chars_eq, to_chars};

verus! {

broadcast use vstd::std_specs::hash::group_hash_axioms;

/// One row of a file table: a path and the hit count of each measured line.
pub type FileRow = (Seq<char>, Map<u32, u64>);

/// Whether the path `a` comes before the path `b`, character by character.
pub open spec fn path_before(a: Seq<char>, b: Seq<char>) -> bool
    decreases a.len(),
{
    if b.len() == 0 {
        false
    } else if a.len() == 0 {
        true
    } else if a.first() != b.first() {
        a.first() < b.first()
    } else {
        path_before(a.drop_first(), b.drop_first())
    }
}

/// No path comes before itself.
pub proof fn path_order_is_irreflexive(a: Seq<char>)
    ensures
        !path_before(a, a),
    decreases a.len(),
{
    if a.len() > 0 {
        path_order_is_irreflexive(a.drop_first());
    }
}

/// A path does not come before itself, nor before one that comes before it, and of two
/// different paths one comes first.
pub proof fn path_order_is_total(a: Seq<char>, b: Seq<char>)
    ensures
        !path_before(a, a),
        path_before(a, b) ==> !path_before(b, a),
        a != b ==> path_before(a, b) || path_before(b, a),
    decreases a.len() + b.len(),
{
    path_order_is_irreflexive(a);
    if a.len() > 0 && b.len() > 0 {
        path_order_is_total(a.drop_first(), b.drop_first());
        if a.first() == b.first() && a.drop_first() == b.drop_first() {
            assert(a =~= seq![a.first()] + a.drop_first());
            assert(b =~= seq![b.first()] + b.drop_first());
        }
    } else if a.len() == 0 && b.len() == 0 {
        assert(a =~= b);
    }
}

/// The path order is transitive.
pub proof fn path_order_is_transitive(a: Seq<char>, b: Seq<char>, c: Seq<char>)
    requires
        path_before(a, b),
        path_before(b, c),
    ensures
        path_before(a, c),
    decreases a.len(),
{
    if a.len() > 0 && b.len() > 0 && c.len() > 0 && a.first() == b.first() && b.first()
        == c.first() {
        path_order_is_transitive(a.drop_first(), b.drop_first(), c.drop_first());
    }
}

/// The first difference decides: of two paths that go on differently behind what they share,
/// the one with the lower character comes first, and a path comes before all that go on behind
/// it.
pub proof fn the_first_difference_decides(
    shared: Seq<char>,
    a: char,
    x: Seq<char>,
    b: char,
    y: Seq<char>,
)
    ensures
        a != b ==> path_before(shared + seq![a] + x, shared + seq![b] + y) == (a < b),
        path_before(shared, shared + seq![a] + x),
        !path_before(shared + seq![a] + x, shared),
    decreases shared.len(),
{
    let longer = shared + seq![a] + x;
    let other = shared + seq![b] + y;
    if shared.len() == 0 {
        assert(longer.first() == a && other.first() == b);
    } else {
        let rest = shared.drop_first();
        assert(longer.drop_first() =~= rest + seq![a] + x);
        assert(other.drop_first() =~= rest + seq![b] + y);
        assert(longer.first() == shared.first() && other.first() == shared.first());
        the_first_difference_decides(rest, a, x, b, y);
    }
}

/// Whether the path `a` comes before the path `b`.
pub fn comes_before(a: &[char], b: &[char]) -> (yes: bool)
    ensures
        yes == path_before(a@, b@),
{
    let mut i: usize = 0;
    assert(a@.skip(0) =~= a@);
    assert(b@.skip(0) =~= b@);
    while i < a.len() && i < b.len() && a[i] == b[i]
        invariant
            i <= a@.len(),
            i <= b@.len(),
            path_before(a@, b@) == path_before(a@.skip(i as int), b@.skip(i as int)),
        decreases a@.len() - i,
    {
        assert(a@.skip(i as int).drop_first() =~= a@.skip(i + 1));
        assert(b@.skip(i as int).drop_first() =~= b@.skip(i + 1));
        i += 1;
    }
    if i == b.len() {
        false
    } else if i == a.len() {
        true
    } else {
        a[i] < b[i]
    }
}

/// Each row's path comes before the paths of all rows behind it.
pub open spec fn in_path_order(rows: Seq<FileRow>) -> bool {
    forall|i: int, j: int|
        0 <= i < j < rows.len() ==> path_before(#[trigger] rows[i].0, #[trigger] rows[j].0)
}

/// What the rows say of each path, a later row overriding an earlier one.
pub open spec fn rows_map(rows: Seq<FileRow>) -> Map<Seq<char>, Map<u32, u64>>
    decreases rows.len(),
{
    if rows.len() == 0 {
        Map::empty()
    } else {
        rows_map(rows.drop_last()).insert(rows.last().0, rows.last().1)
    }
}

/// A path is in the map exactly if some row has it.
pub proof fn rows_map_domain(rows: Seq<FileRow>, path: Seq<char>)
    ensures
        rows_map(rows).contains_key(path) <==> exists|i: int|
            0 <= i < rows.len() && #[trigger] rows[i].0 == path,
    decreases rows.len(),
{
    if rows.len() > 0 {
        let init = rows.drop_last();
        rows_map_domain(init, path);
        if rows_map(init).contains_key(path) {
            let i = choose|i: int| 0 <= i < init.len() && #[trigger] init[i].0 == path;
            assert(rows[i].0 == path);
        }
        if exists|i: int| 0 <= i < rows.len() && #[trigger] rows[i].0 == path {
            let i = choose|i: int| 0 <= i < rows.len() && #[trigger] rows[i].0 == path;
            if i < init.len() {
                assert(init[i].0 == path);
            }
        }
    }
}

/// With the rows in path order, a row's path maps to that row's lines.
pub proof fn rows_map_value(rows: Seq<FileRow>, i: int)
    requires
        in_path_order(rows),
        0 <= i < rows.len(),
    ensures
        rows_map(rows).contains_key(rows[i].0),
        rows_map(rows)[rows[i].0] == rows[i].1,
    decreases rows.len(),
{
    let init = rows.drop_last();
    if i < init.len() {
        assert forall|a: int, b: int| 0 <= a < b < init.len() implies path_before(
            #[trigger] init[a].0,
            #[trigger] init[b].0,
        ) by {
            assert(path_before(rows[a].0, rows[b].0));
        }
        rows_map_value(init, i);
        assert(init[i] == rows[i]);
        assert(path_before(rows[i].0, rows[rows.len() - 1].0));
        path_order_is_total(rows[i].0, rows.last().0);
    }
}

/// Rows in path order are determined by the map that they spell: the order in which paths
/// were put in leaves no trace.
pub proof fn rows_are_canonical(a: Seq<FileRow>, b: Seq<FileRow>)
    requires
        in_path_order(a),
        in_path_order(b),
        rows_map(a) == rows_map(b),
    ensures
        a == b,
    decreases a.len(),
{
    if a.len() == 0 {
        if b.len() > 0 {
            rows_map_value(b, 0);
            assert(!rows_map(a).contains_key(b[0].0));
        }
        assert(a =~= b);
    } else {
        rows_map_value(a, a.len() - 1);
        rows_map_domain(b, a.last().0);
        assert(b.len() > 0);
        rows_map_value(b, b.len() - 1);
        rows_map_domain(a, b.last().0);
        let i = choose|i: int| 0 <= i < a.len() && #[trigger] a[i].0 == b.last().0;
        let j = choose|j: int| 0 <= j < b.len() && #[trigger] b[j].0 == a.last().0;
        path_order_is_total(a.last().0, b.last().0);
        if i < a.len() - 1 {
            assert(path_before(a[i].0, a[a.len() - 1].0));
            if j < b.len() - 1 {
                assert(path_before(b[j].0, b[b.len() - 1].0));
            }
        }
        assert(a.last().0 == b.last().0);
        assert(a.last() == b.last());
        let ia = a.drop_last();
        let ib = b.drop_last();
        let last = a.last().0;
        assert(in_path_order(ia)) by {
            assert forall|x: int, y: int| 0 <= x < y < ia.len() implies path_before(
                #[trigger] ia[x].0,
                #[trigger] ia[y].0,
            ) by {
                assert(path_before(a[x].0, a[y].0));
            }
        }
        assert(in_path_order(ib)) by {
            assert forall|x: int, y: int| 0 <= x < y < ib.len() implies path_before(
                #[trigger] ib[x].0,
                #[trigger] ib[y].0,
            ) by {
                assert(path_before(b[x].0, b[y].0));
            }
        }
        assert(!rows_map(ia).contains_key(last)) by {
            rows_map_domain(ia, last);
            if rows_map(ia).contains_key(last) {
                let k = choose|k: int| 0 <= k < ia.len() && #[trigger] ia[k].0 == last;
                assert(path_before(a[k].0, a[a.len() - 1].0));
                path_order_is_irreflexive(last);
            }
        }
        assert(!rows_map(ib).contains_key(last)) by {
            rows_map_domain(ib, last);
            if rows_map(ib).contains_key(last) {
                let k = choose|k: int| 0 <= k < ib.len() && #[trigger] ib[k].0 == last;
                assert(path_before(b[k].0, b[b.len() - 1].0));
                path_order_is_irreflexive(last);
            }
        }
        assert(rows_map(ia) =~= rows_map(a).remove(last));
        assert(rows_map(ib) =~= rows_map(b).remove(last));
        rows_are_canonical(ia, ib);
        assert(a =~= ia.push(a.last()));
        assert(b =~= ib.push(b.last()));
    }
}

/// The rows in path order that spell `map`.
pub open spec fn ordered_rows(map: Map<Seq<char>, Map<u32, u64>>) -> Seq<FileRow> {
    choose|rows: Seq<FileRow>| in_path_order(rows) && #[trigger] rows_map(rows) == map
}

/// Rows in path order are the ordered rows of the map that they spell.
pub proof fn ordered_rows_are_unique(rows: Seq<FileRow>)
    requires
        in_path_order(rows),
    ensures
        ordered_rows(rows_map(rows)) == rows,
{
    rows_are_canonical(ordered_rows(rows_map(rows)), rows);
}

/// One file's line hits.
#[derive(Debug, PartialEq)]
pub struct FileEntry {
    /// The path as the coverage source gave it.
    pub path: String,
    /// Line number to hit count.
    pub lines: HashMap<u32, u64>,
}

impl View for FileEntry {
    type V = FileRow;

    open spec fn view(&self) -> FileRow {
        (self.path@, self.lines@)
    }
}

/// The rows that the entries stand for.
pub open spec fn entry_rows(entries: Seq<FileEntry>) -> Seq<FileRow> {
    entries.map_values(|e: FileEntry| e@)
}

/// File paths with their line hits; no path occurs twice, and the paths are in order.
#[derive(Debug, PartialEq)]
pub struct FileTable {
    entries: Vec<FileEntry>,
}

impl View for FileTable {
    type V = Seq<FileRow>;

    closed spec fn view(&self) -> Seq<FileRow> {
        entry_rows(self.entries@)
    }
}

impl FileTable {
    #[verifier::type_invariant]
    spec fn ordered(self) -> bool {
        in_path_order(self@)
    }

    /// What the table says of each path.
    pub open spec fn map(self) -> Map<Seq<char>, Map<u32, u64>> {
        rows_map(self@)
    }

    /// A table without files.
    pub fn new() -> (table: Self)
        ensures
            table@ == Seq::<FileRow>::empty(),
            table.map() == Map::<Seq<char>, Map<u32, u64>>::empty(),
            in_path_order(table@),
    {
        let table = FileTable { entries: Vec::new() };
        assert(table@ =~= Seq::<FileRow>::empty());
        table
    }

    /// The number of files.
    pub fn len(&self) -> (n: usize)
        ensures
            n == self@.len(),
    {
        self.entries.len()
    }

    /// Whether there is no file.
    pub fn is_empty(&self) -> (yes: bool)
        ensures
            yes == (self@.len() == 0),
    {
        self.entries.len() == 0
    }

    /// The entry at position `i`.
    pub fn entry(&self, i: usize) -> (e: &FileEntry)
        requires
            i < self@.len(),
        ensures
            e@ == self@[i as int],
            in_path_order(self@),
    {
        proof {
            use_type_invariant(self);
        }
        &self.entries[i]
    }
}

/// Where `key` is, or would be put: in front of that position all paths come before `key`, and
/// from there on none does.
fn lower_bound(entries: &Vec<FileEntry>, key: &[char]) -> (pos: usize)
    requires
        in_path_order(entry_rows(entries@)),
    ensures
        pos <= entries@.len(),
        forall|i: int| 0 <= i < pos ==> path_before(#[trigger] entries@[i].path@, key@),
        forall|i: int|
            pos <= i < entries@.len() ==> !path_before(#[trigger] entries@[i].path@, key@),
{
    let ghost rows = entry_rows(entries@);
    let mut lo: usize = 0;
    let mut hi: usize = entries.len();
    while lo < hi
        invariant
            lo <= hi <= entries@.len(),
            rows == entry_rows(entries@),
            in_path_order(rows),
            forall|i: int| 0 <= i < lo ==> path_before(#[trigger] entries@[i].path@, key@),
            forall|i: int|
                hi <= i < entries@.len() ==> !path_before(#[trigger] entries@[i].path@, key@),
        decreases hi - lo,
    {
        let mid = lo + (hi - lo) / 2;
        let probe = to_chars(entries[mid].path.as_str());
        if comes_before(probe.as_slice(), key) {
            assert forall|i: int| 0 <= i < mid + 1 implies path_before(
                #[trigger] entries@[i].path@,
                key@,
            ) by {
                if i < mid {
                    assert(path_before(rows[i].0, rows[mid as int].0));
                    path_order_is_transitive(rows[i].0, rows[mid as int].0, key@);
                }
            }
            lo = mid + 1;
        } else {
            assert forall|i: int| mid <= i < entries@.len() implies !path_before(
                #[trigger] entries@[i].path@,
                key@,
            ) by {
                if i > mid && path_before(entries@[i].path@, key@) {
                    assert(path_before(rows[mid as int].0, rows[i].0));
                    path_order_is_transitive(rows[mid as int].0, rows[i].0, key@);
                }
            }
            hi = mid;
        }
    }
    lo
}

/// Putting a row where its path belongs keeps the order and overrides nothing else.
proof fn insert_row(rows: Seq<FileRow>, pos: int, row: FileRow)
    requires
        in_path_order(rows),
        0 <= pos <= rows.len(),
        forall|i: int| 0 <= i < pos ==> path_before(#[trigger] rows[i].0, row.0),
        forall|i: int| pos <= i < rows.len() ==> path_before(row.0, #[trigger] rows[i].0),
    ensures
        in_path_order(rows.insert(pos, row)),
        rows_map(rows.insert(pos, row)) == rows_map(rows).insert(row.0, row.1),
    decreases rows.len(),
{
    let out = rows.insert(pos, row);
    assert forall|i: int, j: int| 0 <= i < j < out.len() implies path_before(
        #[trigger] out[i].0,
        #[trigger] out[j].0,
    ) by {
        let a = if i < pos {
            i
        } else {
            i - 1
        };
        let b = if j < pos {
            j
        } else {
            j - 1
        };
        if i != pos && j != pos {
            assert(path_before(rows[a].0, rows[b].0));
        }
    }
    let init = rows.drop_last();
    if pos == rows.len() {
        assert(out.drop_last() =~= rows);
    } else {
        assert(in_path_order(init)) by {
            assert forall|i: int, j: int| 0 <= i < j < init.len() implies path_before(
                #[trigger] init[i].0,
                #[trigger] init[j].0,
            ) by {
                assert(path_before(rows[i].0, rows[j].0));
            }
        }
        assert forall|i: int| 0 <= i < pos implies path_before(#[trigger] init[i].0, row.0) by {
            assert(path_before(rows[i].0, row.0));
        }
        assert forall|i: int| pos <= i < init.len() implies path_before(
            row.0,
            #[trigger] init[i].0,
        ) by {
            assert(path_before(row.0, rows[i].0));
        }
        insert_row(init, pos, row);
        assert(out.drop_last() =~= init.insert(pos, row));
        assert(out.last() == rows.last());
        assert(path_before(row.0, rows[rows.len() - 1].0));
        path_order_is_total(row.0, rows.last().0);
        assert(rows_map(init).insert(row.0, row.1).insert(rows.last().0, rows.last().1)
            =~= rows_map(init).insert(rows.last().0, rows.last().1).insert(row.0, row.1));
    }
}

/// Replacing a row's lines keeps the order and overrides nothing else.
proof fn update_row(rows: Seq<FileRow>, pos: int, row: FileRow)
    requires
        in_path_order(rows),
        0 <= pos < rows.len(),
        rows[pos].0 == row.0,
    ensures
        in_path_order(rows.update(pos, row)),
        rows_map(rows.update(pos, row)) == rows_map(rows).insert(row.0, row.1),
    decreases rows.len(),
{
    let out = rows.update(pos, row);
    assert forall|i: int, j: int| 0 <= i < j < out.len() implies path_before(
        #[trigger] out[i].0,
        #[trigger] out[j].0,
    ) by {
        assert(path_before(rows[i].0, rows[j].0));
    }
    let init = rows.drop_last();
    if pos == rows.len() - 1 {
        assert(out.drop_last() =~= init);
        assert(rows_map(out) =~= rows_map(rows).insert(row.0, row.1));
    } else {
        assert(in_path_order(init)) by {
            assert forall|i: int, j: int| 0 <= i < j < init.len() implies path_before(
                #[trigger] init[i].0,
                #[trigger] init[j].0,
            ) by {
                assert(path_before(rows[i].0, rows[j].0));
            }
        }
        update_row(init, pos, row);
        assert(out.drop_last() =~= init.update(pos, row));
        assert(out.last() == rows.last());
        assert(path_before(rows[pos].0, rows[rows.len() - 1].0));
        path_order_is_total(row.0, rows.last().0);
        assert(rows_map(init).insert(row.0, row.1).insert(rows.last().0, rows.last().1)
            =~= rows_map(init).insert(rows.last().0, rows.last().1).insert(row.0, row.1));
    }
}

impl FileTable {
    /// Makes `lines` the line hits of `path`; what the table held for that path is dropped.
    pub fn insert(&mut self, path: String, lines: HashMap<u32, u64>)
        ensures
            final(self).map() == old(self).map().insert(path@, lines@),
            in_path_order(final(self)@),
    {
        proof {
            use_type_invariant(&*self);
        }
        let ghost rows = self@;
        let ghost row: FileRow = (path@, lines@);
        let mut entries: Vec<FileEntry> = Vec::new();
        std::mem::swap(&mut entries, &mut self.entries);
        let key = to_chars(path.as_str());
        let pos = lower_bound(&entries, key.as_slice());
        let ghost before = entries@;
        assert(rows == entry_rows(before));
        let present = pos < entries.len() && chars_eq(
            to_chars(entries[pos].path.as_str()).as_slice(),
            key.as_slice(),
        );
        let entry = FileEntry { path, lines };
        if present {
            entries.set(pos, entry);
            assert(entry_rows(entries@) =~= rows.update(pos as int, row));
            proof {
                update_row(rows, pos as int, row);
            }
        } else {
            entries.insert(pos, entry);
            assert(entry_rows(entries@) =~= rows.insert(pos as int, row));
            proof {
                assert forall|i: int| 0 <= i < pos implies path_before(
                    #[trigger] rows[i].0,
                    row.0,
                ) by {
                    assert(path_before(before[i].path@, row.0));
                }
                assert forall|i: int| pos <= i < rows.len() implies path_before(
                    row.0,
                    #[trigger] rows[i].0,
                ) by {
                    assert(!path_before(before[i].path@, row.0));
                    path_order_is_total(rows[i].0, row.0);
                    if rows[i].0 == row.0 && i > pos {
                        assert(path_before(rows[pos as int].0, rows[i].0));
                        assert(!path_before(before[pos as int].path@, row.0));
                    }
                }
                insert_row(rows, pos as int, row);
            }
        }
        self.entries = entries;
    }

    /// The line hits of `path`, if the table has that path.
    pub fn get(&self, path: &str) -> (lines: Option<&HashMap<u32, u64>>)
        ensures
            match lines {
                Some(lines) => self.map().contains_key(path@) && lines@ == self.map()[path@],
                None => !self.map().contains_key(path@),
            },
    {
        proof {
            use_type_invariant(self);
        }
        let ghost rows = self@;
        let key = to_chars(path);
        let pos = lower_bound(&self.entries, key.as_slice());
        if pos < self.entries.len() && chars_eq(
            to_chars(self.entries[pos].path.as_str()).as_slice(),
            key.as_slice(),
        ) {
            proof {
                rows_map_value(rows, pos as int);
            }
            Some(&self.entries[pos].lines)
        } else {
            proof {
                rows_map_domain(rows, path@);
                if self.map().contains_key(path@) {
                    let i = choose|i: int| 0 <= i < rows.len() && #[trigger] rows[i].0 == path@;
                    path_order_is_irreflexive(path@);
                    if i < pos {
                        assert(path_before(self.entries@[i].path@, path@));
                    } else if i > pos {
                        assert(path_before(rows[pos as int].0, rows[i].0));
                        assert(!path_before(self.entries@[pos as int].path@, path@));
                    }
                }
            }
            None
        }
    }
}

impl Clone for FileEntry {
    fn clone(&self) -> (entry: Self)
        ensures
            entry@ == self@,
    {
        FileEntry { path: self.path.clone(), lines: self.lines.clone() }
    }
}

impl Clone for FileTable {
    fn clone(&self) -> (table: Self)
        ensures
            table@ == self@,
    {
        proof {
            use_type_invariant(self);
        }
        let mut entries: Vec<FileEntry> = Vec::new();
        for i in 0..self.entries.len()
            invariant
                entry_rows(entries@) == entry_rows(self.entries@).take(i as int),
        {
            let ghost before = entries@;
            entries.push(self.entries[i].clone());
            assert(entry_rows(entries@) =~= entry_rows(before).push(entries@.last()@));
            assert(entry_rows(self.entries@).take(i + 1) =~= entry_rows(self.entries@).take(
                i as int,
            ).push(self.entries@[i as int]@));
        }
        assert(entry_rows(entries@) =~= self@);
        FileTable { entries }
    }
}

} // verus!
