//! The tree: the active memtable, the list of tables, the page cache and
//! the write-ahead log position, with the decisions of every operation.
//!
//! The tree does no input or output. Each operation returns what must be
//! written (log records, table files, intent records), and lookups name the
//! page they need when the cache lacks it.

use vstd::prelude::*;

use crate::codec::{entry_size, Entry, EntryValue, PAGE_SIZE};
use crate::compaction::{apply_items, compacted, compaction_action, is_sorted, merge_tables, paths_view, select, table_files, tables_view, CompactionAction};
use crate::error::{Error, Result};
use crate::memtable::{items_of, lemma_sorted_unique, map_of, sorted, sorted_items, Item, MemTable, TREE_CAPACITY};
use crate::names::append;
use crate::page_cache::{FileFamily, PageCache, PageKey};
use crate::sstable::{cached_sorted, cached_well_formed, max_table_size, search_table, table_holds, Lookup, SSTable};
use crate::wal::{memtable_from_wal, wal_log, wal_record, wal_record_bytes};
use crate::writer::{coherent, data_of, fits, index_of, lemma_layout_prefix, law_cache_matches_files, mirrored, pages_for, EntryWriter};
use crate::codec::{encoded, lemma_entry_bytes_len};

verus! {

/// Whether table indices ascend strictly.
pub open spec fn tables_sorted(t: Seq<SSTable>) -> bool {
    forall|i: int, j: int| 0 <= i < j < t.len() ==> (#[trigger] t[i]).index < (#[trigger] t[j]).index
}

/// The index of the first table a flush writes after tables up to index
/// `max`: the next even number above it.
pub open spec fn index_after(max: int) -> int {
    if max % 2 == 0 {
        max + 2
    } else {
        max + 1
    }
}

/// A write to hand to the log.
#[derive(Debug)]
pub struct WalAppend {
    /// The value the key held in the memtable before.
    pub previous: Option<EntryValue>,
    /// The time the write was stamped with.
    pub timestamp: i64,
    /// Where the record goes in the log file.
    pub offset: u64,
    /// The record, padded to whole pages.
    pub record: Vec<u8>,
    /// Whether the memtable is now full and must be flushed.
    pub flush_needed: bool,
}

/// What a flush leaves to write: the new log to create, the table's two
/// files, and the log to delete once they are written.
#[derive(Debug)]
pub struct FlushOutput {
    pub flushed_wal: usize,
    pub new_wal: usize,
    pub table: SSTable,
    pub data: Vec<u8>,
    pub index: Vec<u8>,
}

/// What a compaction leaves to write: the output table's two files under
/// their compaction names, and the intent record that installs them.
#[derive(Debug)]
pub struct CompactOutput {
    pub table: SSTable,
    /// The table list to install once the intent record is durable.
    pub tables: Vec<SSTable>,
    pub data: Vec<u8>,
    pub index: Vec<u8>,
    pub action: CompactionAction,
    pub action_bytes: Vec<u8>,
}

pub struct LsmTree {
    dir: Vec<u8>,
    cache: PageCache,
    active: MemTable,
    write_sstable_index: usize,
    sstables: Vec<SSTable>,
    memtable_index: usize,
    wal_offset: u64,
}

/// Writes the table `idx` holding `entries`, in ascending order of key,
/// through the cache: first drops what the cache held of that table, then
/// mirrors both files into it. Returns the bytes of the data and index
/// files.
fn write_table(cache: &mut PageCache, idx: usize, entries: &Vec<Entry>) -> (r: Result<(Vec<u8>, Vec<u8>)>)
    requires
        old(cache).wf(),
    ensures
        final(cache).wf(),
        final(cache).max_pages() == old(cache).max_pages(),
        r matches Ok(t) ==> {
            &&& t.0@ == data_of(items_of(entries@))
            &&& t.1@ == index_of(items_of(entries@))
            &&& coherent(final(cache)@, FileFamily::Data, idx, t.0@, true)
            &&& coherent(final(cache)@, FileFamily::Index, idx, t.1@, true)
            &&& old(cache)@.len() + pages_for(t.0@.len() as int) + pages_for(t.1@.len() as int) <= old(cache).max_pages()
                ==> mirrored(final(cache)@, FileFamily::Data, idx, t.0@, true) && mirrored(
                final(cache)@,
                FileFamily::Index,
                idx,
                t.1@,
                true,
            )
        },
        fits(items_of(entries@)) ==> r is Ok,
        r matches Err(e) ==> e == Error::Corruption,
{
    cache.invalidate_table(idx);
    let mut writer = EntryWriter::new(idx, cache);
    let mut data: Vec<u8> = Vec::new();
    let mut index: Vec<u8> = Vec::new();
    let ghost items = items_of(entries@);
    let mut i: usize = 0;
    assert(items.subrange(0, 0) =~= Seq::<Item>::empty());
    assert(data_of(Seq::<Item>::empty()) =~= Seq::<u8>::empty());
    assert(index_of(Seq::<Item>::empty()) =~= Seq::<u8>::empty());
    while i < entries.len()
        invariant
            cache.wf(),
            cache.max_pages() == old(cache).max_pages(),
            items == items_of(entries@),
            i <= entries@.len(),
            writer.inv(cache),
            !writer.is_closed(),
            writer.table() == idx,
            writer.items() == items.subrange(0, i as int),
            data@ == data_of(writer.items()),
            index@ == index_of(writer.items()),
            writer.start_len() <= old(cache)@.len(),
        decreases entries@.len() - i,
    {
        let e = &entries[i];
        proof {
            writer.lemma_inv(cache);
            lemma_layout_prefix(items, i + 1);
            lemma_layout_prefix(items, i as int);
            let s1 = items.take(i + 1);
            assert(s1.drop_last() =~= items.take(i as int));
            assert(items.take(i as int) =~= items.subrange(0, i as int));
            lemma_entry_bytes_len(e.key@, e.value.data@, e.value.timestamp);
            assert(s1.last() == (e.key@, e.value@));
            assert(data_of(s1).len() == data_of(items.take(i as int)).len() + encoded(e.key@, e.value@).len());
        }
        let dw = writer.data_written();
        let iw = writer.index_written();
        if dw > u64::MAX - 3 * PAGE_SIZE as u64 || iw > u64::MAX - 3 * PAGE_SIZE as u64 {
            return Err(Error::Corruption);
        }
        let room = u64::MAX - 3 * PAGE_SIZE as u64 - dw;
        let kl = e.key.len() as u64;
        let vl = e.value.data.len() as u64;
        if kl > room || vl > room - kl || 24 > room - kl - vl {
            return Err(Error::Corruption);
        }
        let (d, x) = match writer.write(cache, e) {
            Ok(t) => t,
            Err(err) => {
                proof { writer.lemma_inv(cache); }
                return Err(err);
            },
        };
        proof { writer.lemma_inv(cache); }
        append(&mut data, d.as_slice());
        append(&mut index, x.as_slice());
        proof {
            let s1 = items.subrange(0, i + 1);
            assert(s1.drop_last() =~= items.subrange(0, i as int));
            assert(s1 =~= items.subrange(0, i as int).push(s1.last()));
        }
        i = i + 1;
    }
    writer.close(cache);
    proof {
        assert(items.subrange(0, i as int) =~= items);
        writer.lemma_inv(cache);
        law_cache_matches_files(&writer, cache);
    }
    Ok((data, index))
}

/// Whether `x` is among `v`.
fn contains_index(v: &Vec<usize>, x: usize) -> (r: bool)
    ensures
        r == v@.contains(x),
{
    let mut i: usize = 0;
    while i < v.len()
        invariant
            i <= v@.len(),
            forall|j: int| 0 <= j < i ==> v@[j] != x,
        decreases v@.len() - i,
    {
        if v[i] == x {
            assert(v@[i as int] == x);
            return true;
        }
        i = i + 1;
    }
    false
}

/// The first position of `x` in `v`, or -1 when `v` lacks it.
pub open spec fn first_position(v: Seq<usize>, x: usize) -> int
    decreases v.len(),
{
    if v.len() == 0 {
        -1
    } else if v[0] == x {
        0
    } else {
        let p = first_position(v.drop_first(), x);
        if p < 0 {
            -1
        } else {
            p + 1
        }
    }
}

proof fn lemma_first_position(v: Seq<usize>, x: usize, p: int)
    requires
        0 <= p <= v.len(),
        forall|q: int| 0 <= q < p ==> v[q] != x,
    ensures
        p < v.len() && v[p] == x ==> first_position(v, x) == p,
        p == v.len() ==> first_position(v, x) == -1,
    decreases v.len(),
{
    if v.len() > 0 && p > 0 {
        assert forall|q: int| 0 <= q < p - 1 implies v.drop_first()[q] != x by {
            assert(v.drop_first()[q] == v[q + 1]);
        }
        lemma_first_position(v.drop_first(), x, p - 1);
    }
}

/// For the tables of `tables` (oldest first) that `indices` names, the
/// position in `indices` where each is first named.
pub open spec fn table_order(tables: Seq<SSTable>, indices: Seq<usize>) -> Seq<usize>
    decreases tables.len(),
{
    if tables.len() == 0 {
        Seq::empty()
    } else {
        let rest = table_order(tables.drop_last(), indices);
        let p = first_position(indices, tables.last().index);
        if p >= 0 {
            rest.push(p as usize)
        } else {
            rest
        }
    }
}

/// The positions in `indices` of the tables it names, ordered as the tables
/// are: oldest first.
fn source_order(tables: &Vec<SSTable>, indices: &Vec<usize>) -> (r: Vec<usize>)
    ensures
        r@ == table_order(tables@, indices@),
        forall|i: int| 0 <= i < r@.len() ==> #[trigger] r@[i] < indices@.len(),
{
    let mut r: Vec<usize> = Vec::new();
    let mut t: usize = 0;
    assert(tables@.subrange(0, 0) =~= Seq::<SSTable>::empty());
    while t < tables.len()
        invariant
            t <= tables@.len(),
            r@ == table_order(tables@.subrange(0, t as int), indices@),
            forall|i: int| 0 <= i < r@.len() ==> #[trigger] r@[i] < indices@.len(),
        decreases tables@.len() - t,
    {
        let x = tables[t].index;
        let mut p: usize = 0;
        while p < indices.len() && indices[p] != x
            invariant
                p <= indices@.len(),
                forall|q: int| 0 <= q < p ==> indices@[q] != x,
            decreases indices@.len() - p,
        {
            p = p + 1;
        }
        proof {
            lemma_first_position(indices@, x, p as int);
            let sub = tables@.subrange(0, t + 1);
            assert(sub.drop_last() =~= tables@.subrange(0, t as int));
            assert(sub.last() == tables@[t as int]);
        }
        if p < indices.len() {
            r.push(p);
        }
        t = t + 1;
    }
    assert(tables@.subrange(0, t as int) =~= tables@);
    r
}

/// Whether some table of `tables` has index `x`.
fn has_table(tables: &Vec<SSTable>, x: usize) -> (r: bool)
    ensures
        r == exists|j: int| 0 <= j < tables@.len() && (#[trigger] tables@[j]).index == x,
{
    let mut j: usize = 0;
    while j < tables.len()
        invariant
            j <= tables@.len(),
            forall|q: int| 0 <= q < j ==> (#[trigger] tables@[q]).index != x,
        decreases tables@.len() - j,
    {
        if tables[j].index == x {
            return true;
        }
        j = j + 1;
    }
    false
}

/// Whether every index of `indices` is the index of one of `tables`.
pub open spec fn all_present(tables: Seq<SSTable>, indices: Seq<usize>) -> bool {
    forall|i: int| 0 <= i < indices.len() ==> exists|j: int| 0 <= j < tables.len() && (#[trigger] tables[j]).index == #[trigger] indices[i]
}

/// The tables after a compaction of the tables `indices` into `output`:
/// those left out, with the output in its place in the order of index. Two
/// tables under one index are refused.
fn tables_after_compaction(tables: &Vec<SSTable>, indices: &Vec<usize>, output: SSTable) -> (r: Result<Vec<SSTable>>)
    requires
        tables_sorted(tables@),
    ensures
        r matches Ok(t) ==> tables_sorted(t@) && forall|x: SSTable| t@.contains(x) <==> (
            (tables@.contains(x) && !indices@.contains(x.index)) || x == output),
        r matches Err(e) ==> e == Error::Corruption,
        (forall|x: SSTable| tables@.contains(x) && !indices@.contains(x.index) ==> x.index != output.index) ==> r is Ok,
{
    let mut out: Vec<SSTable> = Vec::new();
    let mut placed = false;
    let mut i: usize = 0;
    while i < tables.len()
        invariant
            tables_sorted(tables@),
            i <= tables@.len(),
            tables_sorted(out@),
            placed ==> out@.contains(output),
            !placed ==> forall|j: int| 0 <= j < out@.len() ==> (#[trigger] out@[j]).index < output.index,
            forall|j: int| 0 <= j < out@.len() ==> (#[trigger] out@[j]) == output || (exists|k: int| 0 <= k < i && tables@[k] == out@[j] && !indices@.contains(out@[j].index)),
            forall|k: int| 0 <= k < i && !indices@.contains((#[trigger] tables@[k]).index) ==> out@.contains(tables@[k]),
            out@.len() > 0 ==> forall|k: int| i <= k < tables@.len() ==> out@.last().index < (#[trigger] tables@[k]).index,
        decreases tables@.len() - i,
    {
        let t = tables[i];
        if !contains_index(indices, t.index) {
            if t.index == output.index {
                assert(tables@.contains(tables@[i as int]));
                return Err(Error::Corruption);
            }
            if !placed && output.index < t.index {
                let ghost before = out@;
                out.push(output);
                placed = true;
                proof {
                    assert(out@.last() == output);
                    assert(out@[before.len() as int] == output);
                    assert forall|a: int, b: int| 0 <= a < b < out@.len() implies (#[trigger] out@[a]).index < (#[trigger] out@[b]).index by {
                        if b < before.len() {
                            assert(out@[a] == before[a] && out@[b] == before[b]);
                        } else {
                            assert(out@[a] == before[a]);
                        }
                    }
                    assert forall|j: int| 0 <= j < out@.len() implies (#[trigger] out@[j]) == output || (exists|k: int| 0 <= k < i && tables@[k] == out@[j] && !indices@.contains(out@[j].index)) by {
                        if j < before.len() {
                            assert(out@[j] == before[j]);
                        }
                    }
                    assert forall|k: int| 0 <= k < i && !indices@.contains((#[trigger] tables@[k]).index) implies out@.contains(tables@[k]) by {
                        assert(before.contains(tables@[k]));
                        let j = choose|j: int| 0 <= j < before.len() && before[j] == tables@[k];
                        assert(out@[j] == tables@[k]);
                    }
                    assert forall|k: int| i <= k < tables@.len() implies out@.last().index < (#[trigger] tables@[k]).index by {
                        if k > i {
                            assert(tables@[i as int].index < tables@[k].index);
                        }
                    }
                }
            }
            let ghost before = out@;
            out.push(t);
            proof {
                assert(out@[before.len() as int] == t);
                assert(out@.last() == t);
                assert forall|a: int, b: int| 0 <= a < b < out@.len() implies (#[trigger] out@[a]).index < (#[trigger] out@[b]).index by {
                    if b < before.len() {
                        assert(out@[a] == before[a] && out@[b] == before[b]);
                    } else {
                        assert(out@[a] == before[a]);
                        if !placed {
                            assert(before[a].index < output.index);
                        }
                    }
                }
                if placed {
                    let j = choose|j: int| 0 <= j < before.len() && before[j] == output;
                    assert(out@[j] == output);
                }
                assert forall|j: int| 0 <= j < out@.len() implies (#[trigger] out@[j]) == output || (exists|k: int| 0 <= k < i + 1 && tables@[k] == out@[j] && !indices@.contains(out@[j].index)) by {
                    if j < before.len() {
                        assert(out@[j] == before[j]);
                        if before[j] != output {
                            let k = choose|k: int| 0 <= k < i && tables@[k] == before[j] && !indices@.contains(before[j].index);
                        }
                    } else {
                        assert(tables@[i as int] == out@[j]);
                    }
                }
                assert forall|k: int| 0 <= k < i + 1 && !indices@.contains((#[trigger] tables@[k]).index) implies out@.contains(tables@[k]) by {
                    if k < i {
                        let j = choose|j: int| 0 <= j < before.len() && before[j] == tables@[k];
                        assert(out@[j] == tables@[k]);
                    } else {
                        assert(out@[before.len() as int] == tables@[k]);
                    }
                }
                assert forall|k: int| i + 1 <= k < tables@.len() implies out@.last().index < (#[trigger] tables@[k]).index by {
                    assert(tables@[i as int].index < tables@[k].index);
                }
                assert forall|j: int| 0 <= j < out@.len() implies !placed ==> (#[trigger] out@[j]).index < output.index by {
                    if j < before.len() {
                        assert(out@[j] == before[j]);
                    }
                }
            }
        }
        i = i + 1;
    }
    if !placed {
        let ghost before = out@;
        out.push(output);
        proof {
            assert(out@[before.len() as int] == output);
            assert forall|a: int, b: int| 0 <= a < b < out@.len() implies (#[trigger] out@[a]).index < (#[trigger] out@[b]).index by {
                if b < before.len() {
                    assert(out@[a] == before[a] && out@[b] == before[b]);
                } else {
                    assert(out@[a] == before[a]);
                }
            }
            assert forall|k: int| 0 <= k < i && !indices@.contains((#[trigger] tables@[k]).index) implies out@.contains(tables@[k]) by {
                let j = choose|j: int| 0 <= j < before.len() && before[j] == tables@[k];
                assert(out@[j] == tables@[k]);
            }
            assert forall|j: int| 0 <= j < out@.len() implies (#[trigger] out@[j]) == output || (exists|k: int| 0 <= k < i && tables@[k] == out@[j] && !indices@.contains(out@[j].index)) by {
                if j < before.len() {
                    assert(out@[j] == before[j]);
                }
            }
        }
    }
    proof {
        assert forall|x: SSTable| out@.contains(x) <==> ((tables@.contains(x) && !indices@.contains(x.index)) || x == output) by {
            if out@.contains(x) {
                let j = choose|j: int| 0 <= j < out@.len() && out@[j] == x;
                assert(out@[j] == x);
            }
            if tables@.contains(x) && !indices@.contains(x.index) {
                let k = choose|k: int| 0 <= k < tables@.len() && tables@[k] == x;
                assert(tables@[k] == x);
            }
            if x == output {
                let j = choose|j: int| 0 <= j < out@.len() && out@[j] == output;
                assert(out@[j] == x);
            }
        }
    }
    Ok(out)
}

/// The tables with `table` added in its place in the order of index,
/// replacing a table of the same index.
pub fn insert_table(tables: &Vec<SSTable>, table: SSTable) -> (r: Result<Vec<SSTable>>)
    requires
        tables_sorted(tables@),
    ensures
        r matches Ok(t) ==> tables_sorted(t@) && forall|x: SSTable| t@.contains(x) <==> (
            (tables@.contains(x) && x.index != table.index) || x == table),
        r matches Err(e) ==> e == Error::Corruption,
{
    let mut replaced: Vec<usize> = Vec::new();
    replaced.push(table.index);
    assert(forall|i: usize| replaced@.contains(i) <==> i == table.index) by {
        assert(replaced@[0] == table.index);
    }
    tables_after_compaction(tables, &replaced, table)
}

/// The index of the next table a flush writes, given the tables present.
pub fn next_write_index(tables: &Vec<SSTable>) -> (r: Result<usize>)
    requires
        tables_sorted(tables@),
    ensures
        tables@.len() == 0 ==> r == Ok::<usize, Error>(0),
        tables@.len() > 0 ==> (r is Ok <==> index_after(tables@.last().index as int) <= usize::MAX),
        tables@.len() > 0 ==> (r matches Ok(n) ==> n == index_after(tables@.last().index as int)),
        r matches Err(e) ==> e == Error::Corruption,
{
    if tables.len() == 0 {
        return Ok(0);
    }
    let max = tables[tables.len() - 1].index;
    if max > usize::MAX - 2 {
        return Err(Error::Corruption);
    }
    Ok(max + 2 - (max % 2))
}

impl LsmTree {
    /// Whether no table newer than position `i` holds `key`, among those
    /// whose cached entries ascend by key.
    pub open spec fn absent_after(&self, i: int, key: Seq<u8>) -> bool {
        forall|j: int, w: (Seq<u8>, i64)|
            i < j < self.tables().len() && cached_sorted(self.cache_view(), self.tables()[j]) ==> !#[trigger] table_holds(
                self.cache_view(),
                self.tables()[j],
                key,
                w,
            )
    }

    /// Whether every table is small enough to search, and every record of
    /// it that the cache holds is well formed.
    pub open spec fn tables_readable(&self) -> bool {
        forall|i: int| 0 <= i < self.tables().len() ==> (#[trigger] self.tables()[i]).size <= max_table_size()
            && cached_well_formed(self.cache_view(), self.tables()[i])
    }

    /// What the active memtable answers for `key`: `Some(Some(v))` for a
    /// value, `Some(None)` for a delete, `None` when the tables decide.
    pub open spec fn answer_in_memory(&self, key: Seq<u8>) -> Option<Option<Seq<u8>>> {
        if self.active_map().contains_key(key) {
            if self.active_map()[key].0.len() == 0 {
                Some(None)
            } else {
                Some(Some(self.active_map()[key].0))
            }
        } else {
            None
        }
    }

    pub closed spec fn wf(&self) -> bool {
        &&& self.cache.wf()
        &&& self.active.wf()
        &&& self.active.max_len() == TREE_CAPACITY
        &&& tables_sorted(self.sstables@)
    }

    /// The key-value map of the active memtable.
    pub closed spec fn active_map(&self) -> Map<Seq<u8>, (Seq<u8>, i64)> {
        self.active.map()
    }

    /// The entries of the active memtable, in ascending order of key.
    pub closed spec fn active_items(&self) -> Seq<Item> {
        self.active.items()
    }

    /// The tables, oldest first.
    pub closed spec fn tables(&self) -> Seq<SSTable> {
        self.sstables@
    }

    pub closed spec fn write_index(&self) -> usize {
        self.write_sstable_index
    }

    pub closed spec fn wal_index(&self) -> usize {
        self.memtable_index
    }

    pub closed spec fn wal_len(&self) -> u64 {
        self.wal_offset
    }

    pub closed spec fn cache_view(&self) -> Map<PageKey, Seq<u8>> {
        self.cache@
    }

    /// The most pages the cache holds.
    pub closed spec fn cache_pages(&self) -> nat {
        self.cache.max_pages()
    }

    /// The tables ascend by index, and the active memtable's entries by key.
    pub proof fn lemma_wf(&self)
        requires
            self.wf(),
        ensures
            tables_sorted(self.tables()),
            sorted(self.active_items()),
            self.active_map() == map_of(self.active_items()),
    {
        self.active.lemma_wf();
    }

    pub closed spec fn dir_view(&self) -> Seq<u8> {
        self.dir@
    }

    /// A tree over tables `sstables`, oldest first, whose active memtable is
    /// rebuilt from the log `wal` of index `wal_index`.
    pub fn recover(dir: Vec<u8>, cache: PageCache, sstables: Vec<SSTable>, wal_index: usize, wal: &[u8]) -> (r: Result<LsmTree>)
        requires
            cache.wf(),
        ensures
            r matches Ok(t) ==> {
                &&& t.wf()
                &&& t.tables() == sstables@
                &&& t.wal_index() == wal_index
                &&& t.wal_len() == wal@.len()
                &&& t.dir_view() == dir@
                &&& t.cache_view() == cache@
                &&& sstables@.len() == 0 ==> t.write_index() == 0
                &&& sstables@.len() > 0 ==> t.write_index() == index_after(sstables@.last().index as int)
            },
            !tables_sorted(sstables@) ==> r is Err,
            tables_sorted(sstables@) && (sstables@.len() == 0 || index_after(sstables@.last().index as int) <= usize::MAX)
                && (exists|ws: Seq<Item>| #[trigger] wal_log(ws) == wal@ && apply_items(Map::empty(), ws).len() <= TREE_CAPACITY) ==> r is Ok,
            r matches Err(e) ==> e == Error::Corruption || e == Error::CapacityExceeded,
            forall|ws: Seq<Item>| #[trigger] wal_log(ws) == wal@ ==> (r matches Ok(t) ==> t.active_map() == apply_items(
                Map::empty(),
                ws,
            )),
    {
        let mut i: usize = 1;
        while i < sstables.len()
            invariant
                1 <= i,
                forall|a: int, b: int| 0 <= a < b < i && b < sstables@.len() ==> (#[trigger] sstables@[a]).index < (#[trigger] sstables@[b]).index,
            decreases sstables@.len() - i,
        {
            if sstables[i - 1].index >= sstables[i].index {
                return Err(Error::Corruption);
            }
            proof {
                assert forall|a: int, b: int| 0 <= a < b < i + 1 && b < sstables@.len() implies (#[trigger] sstables@[a]).index < (#[trigger] sstables@[b]).index by {
                    if b == i && a < i - 1 {
                        assert(sstables@[a].index < sstables@[i - 1].index);
                    }
                }
            }
            i = i + 1;
        }
        let write_sstable_index = next_write_index(&sstables)?;
        let active = memtable_from_wal(wal, TREE_CAPACITY)?;
        Ok(LsmTree {
            dir,
            cache,
            active,
            write_sstable_index,
            sstables,
            memtable_index: wal_index,
            wal_offset: wal.len() as u64,
        })
    }

    /// The indices of the tables, oldest first.
    pub fn sstable_indices(&self) -> (r: Vec<usize>)
        requires
            self.wf(),
        ensures
            r@ == self.tables().map_values(|t: SSTable| t.index),
            forall|i: int, j: int| 0 <= i < j < r@.len() ==> r@[i] < r@[j],
    {
        let mut r: Vec<usize> = Vec::new();
        let mut i: usize = 0;
        while i < self.sstables.len()
            invariant
                i <= self.sstables@.len(),
                r@ == self.sstables@.subrange(0, i as int).map_values(|t: SSTable| t.index),
            decreases self.sstables@.len() - i,
        {
            r.push(self.sstables[i].index);
            i = i + 1;
            assert(r@ =~= self.sstables@.subrange(0, i as int).map_values(|t: SSTable| t.index));
        }
        assert(self.sstables@.subrange(0, i as int) =~= self.sstables@);
        assert forall|a: int, b: int| 0 <= a < b < r@.len() implies r@[a] < r@[b] by {
            assert(r@[a] == self.sstables@[a].index && r@[b] == self.sstables@[b].index);
        }
        r
    }

    /// The tables, oldest first.
    pub fn sstables(&self) -> (r: &Vec<SSTable>)
        ensures
            r@ == self.tables(),
    {
        &self.sstables
    }

    /// The index the next flush writes its table under.
    pub fn write_sstable_index(&self) -> (r: usize)
        ensures
            r == self.write_index(),
    {
        self.write_sstable_index
    }

    /// The index of the log of the active memtable.
    pub fn memtable_index(&self) -> (r: usize)
        ensures
            r == self.wal_index(),
    {
        self.memtable_index
    }

    /// The length of the log of the active memtable.
    pub fn wal_offset(&self) -> (r: u64)
        ensures
            r == self.wal_len(),
    {
        self.wal_offset
    }

    /// The number of entries in the active memtable.
    pub fn active_len(&self) -> (r: usize)
        ensures
            r == self.active_items().len(),
    {
        self.active.len()
    }

    /// The directory of the tree.
    pub fn dir(&self) -> (r: &Vec<u8>)
        ensures
            r@ == self.dir_view(),
    {
        &self.dir
    }

    /// The page cache.
    pub fn cache(&self) -> (r: &PageCache)
        requires
            self.wf(),
        ensures
            r@ == self.cache_view(),
            r.wf(),
    {
        &self.cache
    }

    /// Caches a page read from disk.
    pub fn cache_page(&mut self, key: PageKey, page: Vec<u8>)
        requires
            old(self).wf(),
            page@.len() == PAGE_SIZE,
        ensures
            final(self).wf(),
            final(self).active_map() == old(self).active_map(),
            final(self).active_items() == old(self).active_items(),
            final(self).tables() == old(self).tables(),
            final(self).write_index() == old(self).write_index(),
            final(self).wal_index() == old(self).wal_index(),
            final(self).wal_len() == old(self).wal_len(),
            final(self).dir_view() == old(self).dir_view(),
            final(self).cache_view().contains_key(key),
            final(self).cache_view()[key] == page@,
    {
        proof { self.cache.lemma_len(); }
        self.cache.set(key, page);
    }

    /// The newest entry of `key`: from the active memtable if it holds the
    /// key, else from the tables, newest first. A delete is returned as an
    /// entry with an empty value.
    pub fn get_entry(&self, key: &[u8]) -> (r: Result<Lookup>)
        requires
            self.wf(),
        ensures
            self.active_map().contains_key(key@) ==> (r matches Ok(Lookup::Found(v)) && v@ == self.active_map()[key@]),
            !self.active_map().contains_key(key@) ==> (r matches Ok(Lookup::Found(v)) ==> exists|i: int|
                0 <= i < self.tables().len() && table_holds(self.cache_view(), #[trigger] self.tables()[i], key@, v@)
                    && self.absent_after(i, key@)),
            r matches Ok(Lookup::NeedPage(k)) ==> !self.cache_view().contains_key(k),
            r matches Ok(Lookup::Absent) ==> !self.active_map().contains_key(key@) && self.absent_after(-1, key@),
            self.tables_readable() ==> r is Ok,
            !self.active_map().contains_key(key@) && self.tables().len() == 0 ==> r matches Ok(Lookup::Absent),
    {
        if let Some(v) = self.active.get(key) {
            return Ok(Lookup::Found(v));
        }
        let mut i: usize = self.sstables.len();
        while i > 0
            invariant
                self.wf(),
                i <= self.sstables@.len(),
                !self.active_map().contains_key(key@),
                self.absent_after(i - 1, key@),
                self.tables().len() == 0 ==> i == 0,
            decreases i,
        {
            i = i - 1;
            assert(self.tables_readable() ==> cached_well_formed(self.cache_view(), self.tables()[i as int])
                && self.tables()[i as int].size <= max_table_size());
            let found = search_table(&self.cache, &self.sstables[i], key)?;
            proof {
                if found is Absent {
                    assert forall|j: int, w: (Seq<u8>, i64)|
                        i - 1 < j < self.tables().len() && cached_sorted(self.cache_view(), self.tables()[j])
                            implies !#[trigger] table_holds(self.cache_view(), self.tables()[j], key@, w) by {
                        if j == i {
                        }
                    }
                }
            }
            match found {
                Lookup::Found(v) => {
                    assert(table_holds(self.cache_view(), self.tables()[i as int], key@, v@));
                    return Ok(Lookup::Found(v));
                },
                Lookup::NeedPage(k) => {
                    return Ok(Lookup::NeedPage(k));
                },
                Lookup::Absent => {},
            }
        }
        Ok(Lookup::Absent)
    }

    /// The value of `key`, where a delete reads as absent.
    pub fn get(&self, key: &[u8]) -> (r: Result<Lookup>)
        requires
            self.wf(),
        ensures
            self.answer_in_memory(key@) == Some(None::<Seq<u8>>) ==> r matches Ok(Lookup::Absent),
            self.answer_in_memory(key@) matches Some(Some(d)) ==> (r matches Ok(Lookup::Found(v)) && v.data@ == d),
            self.active_map().contains_key(key@) ==> (r matches Ok(Lookup::Found(v)) ==> v@ == self.active_map()[key@]),
            r matches Ok(Lookup::Found(v)) ==> v.data@.len() > 0,
            !self.active_map().contains_key(key@) ==> (r matches Ok(Lookup::Found(v)) ==> exists|i: int|
                0 <= i < self.tables().len() && table_holds(self.cache_view(), #[trigger] self.tables()[i], key@, v@)
                    && self.absent_after(i, key@)),
            r matches Ok(Lookup::NeedPage(k)) ==> !self.cache_view().contains_key(k),
            r matches Ok(Lookup::Absent) ==> self.answer_in_memory(key@) == Some(None::<Seq<u8>>) || (
            !self.active_map().contains_key(key@) && (self.absent_after(-1, key@) || exists|i: int, v: (Seq<u8>, i64)|
                0 <= i < self.tables().len() && v.0.len() == 0 && #[trigger] table_holds(
                    self.cache_view(),
                    self.tables()[i],
                    key@,
                    v,
                ) && self.absent_after(i, key@))),
            self.tables_readable() ==> r is Ok,
            !self.active_map().contains_key(key@) && self.tables().len() == 0 ==> r matches Ok(Lookup::Absent),
    {
        match self.get_entry(key)? {
            Lookup::Found(v) => {
                if v.data.len() == 0 {
                    Ok(Lookup::Absent)
                } else {
                    Ok(Lookup::Found(v))
                }
            },
            other => Ok(other),
        }
    }

    /// Stores `value` under `key`, stamped with the current time, in the
    /// active memtable, and returns the log record to append. A new key in
    /// a full memtable is refused: flush first.
    pub fn set(&mut self, key: Vec<u8>, value: Vec<u8>) -> (r: Result<WalAppend>)
        requires
            old(self).wf(),
            entry_size(key@, value@) + PAGE_SIZE <= usize::MAX,
            old(self).wal_len() + entry_size(key@, value@) + 2 * PAGE_SIZE <= u64::MAX,
        ensures
            final(self).wf(),
            final(self).tables() == old(self).tables(),
            final(self).write_index() == old(self).write_index(),
            final(self).wal_index() == old(self).wal_index(),
            final(self).dir_view() == old(self).dir_view(),
            final(self).cache_view() == old(self).cache_view(),
            !old(self).active_map().contains_key(key@) && old(self).active_items().len() >= TREE_CAPACITY ==> r
                == Err::<WalAppend, Error>(Error::CapacityExceeded),
            r == Err::<WalAppend, Error>(Error::CapacityExceeded) ==> !old(self).active_map().contains_key(key@)
                && old(self).active_items().len() >= TREE_CAPACITY,
            !(!old(self).active_map().contains_key(key@) && old(self).active_items().len() >= TREE_CAPACITY) ==> r is Ok,
            r matches Err(e) ==> e == Error::CapacityExceeded
                && final(self).active_items() == old(self).active_items() && final(self).wal_len() == old(self).wal_len(),
            r matches Ok(w) ==> {
                &&& final(self).active_map() == old(self).active_map().insert(key@, (value@, w.timestamp))
                &&& w.record@ == wal_record_bytes(key@, (value@, w.timestamp))
                &&& w.offset == old(self).wal_len()
                &&& final(self).wal_len() == old(self).wal_len() + w.record@.len()
                &&& w.flush_needed == (final(self).active_items().len() >= TREE_CAPACITY)
                &&& (w.previous matches Some(p) ==> old(self).active_map().contains_key(key@) && p@ == old(self).active_map()[key@])
                &&& (w.previous is None ==> !old(self).active_map().contains_key(key@))
            },
    {
        if self.active.is_full() && self.active.get(key.as_slice()).is_none() {
            return Err(Error::CapacityExceeded);
        }
        let value = EntryValue::new(value);
        let record = wal_record(&key, &value)?;
        let timestamp = value.timestamp;
        let previous = self.active.set(key, value)?;
        let offset = self.wal_offset;
        self.wal_offset = offset + record.len() as u64;
        let flush_needed = self.active.is_full();
        Ok(WalAppend { previous, timestamp, offset, record, flush_needed })
    }

    /// Deletes `key`: stores the empty value, which reads as absent.
    pub fn delete(&mut self, key: Vec<u8>) -> (r: Result<WalAppend>)
        requires
            old(self).wf(),
            entry_size(key@, Seq::<u8>::empty()) + PAGE_SIZE <= usize::MAX,
            old(self).wal_len() + entry_size(key@, Seq::<u8>::empty()) + 2 * PAGE_SIZE <= u64::MAX,
        ensures
            final(self).wf(),
            final(self).tables() == old(self).tables(),
            final(self).write_index() == old(self).write_index(),
            final(self).wal_index() == old(self).wal_index(),
            final(self).dir_view() == old(self).dir_view(),
            final(self).cache_view() == old(self).cache_view(),
            !old(self).active_map().contains_key(key@) && old(self).active_items().len() >= TREE_CAPACITY ==> r
                == Err::<WalAppend, Error>(Error::CapacityExceeded),
            !(!old(self).active_map().contains_key(key@) && old(self).active_items().len() >= TREE_CAPACITY) ==> r is Ok,
            r matches Err(e) ==> e == Error::CapacityExceeded
                && final(self).active_items() == old(self).active_items() && final(self).wal_len() == old(self).wal_len(),
            r matches Ok(w) ==> {
                &&& final(self).active_map() == old(self).active_map().insert(key@, (Seq::<u8>::empty(), w.timestamp))
                &&& w.record@ == wal_record_bytes(key@, (Seq::<u8>::empty(), w.timestamp))
                &&& w.offset == old(self).wal_len()
                &&& final(self).wal_len() == old(self).wal_len() + w.record@.len()
                &&& w.flush_needed == (final(self).active_items().len() >= TREE_CAPACITY)
            },
    {
        let empty: Vec<u8> = Vec::new();
        assert(empty@ =~= Seq::<u8>::empty());
        self.set(key, empty)
    }

    /// Moves the active memtable into a new table, written under the next
    /// table index, and rotates the log. Nothing happens when the memtable
    /// is empty.
    pub fn flush(&mut self) -> (r: Result<Option<FlushOutput>>)
        requires
            old(self).wf(),
        ensures
            final(self).wf(),
            final(self).dir_view() == old(self).dir_view(),
            old(self).active_items().len() == 0 ==> (r matches Ok(None) && *final(self) == *old(self)),
            r matches Ok(None) ==> old(self).active_items().len() == 0,
            r is Err ==> {
                &&& final(self).active_items() == old(self).active_items()
                &&& final(self).tables() == old(self).tables()
                &&& final(self).write_index() == old(self).write_index()
                &&& final(self).wal_index() == old(self).wal_index()
                &&& final(self).wal_len() == old(self).wal_len()
            },
            r matches Ok(Some(o)) ==> {
                &&& o.table == (SSTable { index: old(self).write_index(), size: old(self).active_items().len() as u64 })
                &&& final(self).tables() == old(self).tables().push(o.table)
                &&& final(self).write_index() == old(self).write_index() + 2
                &&& final(self).active_items().len() == 0
                &&& o.flushed_wal == old(self).wal_index()
                &&& final(self).wal_index() == old(self).wal_index() + 2
                &&& o.new_wal == final(self).wal_index()
                &&& final(self).wal_len() == 0
                &&& o.data@ == data_of(old(self).active_items())
                &&& o.index@ == index_of(old(self).active_items())
                &&& coherent(final(self).cache_view(), FileFamily::Data, o.table.index, o.data@, true)
                &&& coherent(final(self).cache_view(), FileFamily::Index, o.table.index, o.index@, true)
                &&& old(self).cache_view().len() + pages_for(o.data@.len() as int) + pages_for(o.index@.len() as int)
                    <= old(self).cache_pages() ==> mirrored(final(self).cache_view(), FileFamily::Data, o.table.index, o.data@, true)
                    && mirrored(final(self).cache_view(), FileFamily::Index, o.table.index, o.index@, true)
            },
            old(self).active_items().len() > 0 && old(self).write_index() <= usize::MAX - 2 && old(self).wal_index()
                <= usize::MAX - 2 && (old(self).tables().len() == 0 || old(self).tables().last().index
                < old(self).write_index()) && fits(old(self).active_items()) ==> r matches Ok(Some(_)),
            r matches Err(e) ==> e == Error::Corruption,
            final(self).cache_pages() == old(self).cache_pages(),
    {
        if self.active.len() == 0 {
            return Ok(None);
        }
        let idx = self.write_sstable_index;
        if idx > usize::MAX - 2 || self.memtable_index > usize::MAX - 2 {
            return Err(Error::Corruption);
        }
        if self.sstables.len() > 0 && self.sstables[self.sstables.len() - 1].index >= idx {
            return Err(Error::Corruption);
        }
        let entries = self.active.entries();
        let (data, index) = write_table(&mut self.cache, idx, entries)?;
        let table = SSTable { index: idx, size: entries.len() as u64 };
        self.sstables.push(table);
        self.write_sstable_index = idx + 2;
        let flushed_wal = self.memtable_index;
        self.memtable_index = flushed_wal + 2;
        self.wal_offset = 0;
        self.active = MemTable::with_capacity(TREE_CAPACITY);
        proof {
            assert forall|a: int, b: int| 0 <= a < b < self.sstables@.len() implies (#[trigger] self.sstables@[a]).index < (#[trigger] self.sstables@[b]).index by {
                if b == self.sstables@.len() - 1 && a < b - 1 {
                    assert(old(self).sstables@[a].index < old(self).sstables@[b - 1].index);
                }
            }
        }
        Ok(Some(FlushOutput { flushed_wal, new_wal: flushed_wal + 2, table, data, index }))
    }

    /// Merges the tables `indices` (with their entries in `sources`, in the
    /// same order) into table `output_index`, keeping for each key the entry
    /// of the newest table, the one of highest index, and, when
    /// `remove_tombstones` holds, dropping deletes. Only the cache changes:
    /// the output files, the intent record, and, once that record is
    /// durable, `install_tables` with the new list, the renames and the
    /// deletes are left to the caller. An index that names no table, a
    /// source out of order, or an output index that a table keeps is
    /// refused.
    pub fn compact(
        &mut self,
        indices: &Vec<usize>,
        output_index: usize,
        remove_tombstones: bool,
        sources: &Vec<Vec<Entry>>,
    ) -> (r: Result<CompactOutput>)
        requires
            old(self).wf(),
            sources@.len() == indices@.len(),
        ensures
            final(self).wf(),
            final(self).active_items() == old(self).active_items(),
            final(self).tables() == old(self).tables(),
            final(self).write_index() == old(self).write_index(),
            final(self).wal_index() == old(self).wal_index(),
            final(self).wal_len() == old(self).wal_len(),
            final(self).dir_view() == old(self).dir_view(),
            final(self).cache_pages() == old(self).cache_pages(),
            r matches Ok(o) ==> {
                &&& exists|items: Seq<Item>| {
                    &&& sorted(items)
                    &&& map_of(items) == compacted(
                        select(tables_view(sources@), table_order(old(self).tables(), indices@)),
                        remove_tombstones,
                    )
                    &&& o.data@ == data_of(items)
                    &&& o.index@ == index_of(items)
                    &&& #[trigger] o.table.size == items.len()
                }
                &&& o.table.index == output_index
                &&& tables_sorted(o.tables@)
                &&& forall|x: SSTable| o.tables@.contains(x) <==> (
                    (old(self).tables().contains(x) && !indices@.contains(x.index)) || x == o.table)
                &&& paths_view(o.action.deletes@) == table_files(old(self).dir_view(), indices@)
                &&& o.action_bytes@ == o.action.bytes()
                &&& coherent(final(self).cache_view(), FileFamily::Data, output_index, o.data@, true)
                &&& coherent(final(self).cache_view(), FileFamily::Index, output_index, o.index@, true)
            },
            all_present(old(self).tables(), indices@) && (forall|i: int|
                0 <= i < table_order(old(self).tables(), indices@).len() ==> sorted(
                    #[trigger] select(tables_view(sources@), table_order(old(self).tables(), indices@))[i],
                )) && (forall|x: SSTable|
                old(self).tables().contains(x) && !indices@.contains(x.index) ==> x.index != output_index) && fits(
                sorted_items(
                    compacted(select(tables_view(sources@), table_order(old(self).tables(), indices@)), remove_tombstones),
                ),
            ) ==> r is Ok,
            r matches Err(e) ==> e == Error::Corruption,
            !all_present(old(self).tables(), indices@) ==> r is Err,
    {
        let mut q: usize = 0;
        while q < indices.len()
            invariant
                self.wf(),
                *self == *old(self),
                q <= indices@.len(),
                forall|i: int| 0 <= i < q ==> exists|j: int| 0 <= j < self.sstables@.len() && (#[trigger] self.sstables@[j]).index == #[trigger] indices@[i],
            decreases indices@.len() - q,
        {
            if !has_table(&self.sstables, indices[q]) {
                assert(!all_present(old(self).tables(), indices@)) by {
                    if all_present(old(self).tables(), indices@) {
                        assert(indices@[q as int] == indices@[q as int]);
                        let j = choose|j: int| 0 <= j < old(self).tables().len() && (#[trigger] old(self).tables()[j]).index == indices@[q as int];
                        assert(self.sstables@[j].index == indices@[q as int]);
                    }
                }
                return Err(Error::Corruption);
            }
            q = q + 1;
        }
        let order = source_order(&self.sstables, indices);
        let mut k: usize = 0;
        while k < order.len()
            invariant
                self.wf(),
                *self == *old(self),
                forall|i: int| 0 <= i < order@.len() ==> #[trigger] order@[i] < indices@.len(),
                order@ == table_order(self.tables(), indices@),
                sources@.len() == indices@.len(),
                k <= order@.len(),
                forall|i: int| 0 <= i < k ==> sorted(#[trigger] select(tables_view(sources@), order@)[i]),
            decreases order@.len() - k,
        {
            assert(select(tables_view(sources@), order@)[k as int] == items_of(sources@[order@[k as int] as int]@));
            if !is_sorted(&sources[order[k]]) {
                assert(!sorted(select(tables_view(sources@), table_order(old(self).tables(), indices@))[k as int]));
                return Err(Error::Corruption);
            }
            k = k + 1;
        }
        let merged = merge_tables(sources, &order, remove_tombstones);
        let table = SSTable { index: output_index, size: merged.len() as u64 };
        let tables = tables_after_compaction(&self.sstables, indices, table)?;
        let action = compaction_action(self.dir.as_slice(), indices, output_index);
        let action_bytes = action.encode()?;
        proof {
            let items = items_of(merged@);
            let m = compacted(select(tables_view(sources@), order@), remove_tombstones);
            if fits(sorted_items(m)) {
                lemma_sorted_unique(items, sorted_items(m));
            }
        }
        let (data, index) = write_table(&mut self.cache, output_index, &merged)?;
        proof {
            let items = items_of(merged@);
            assert(table.size == items.len());
        }
        Ok(CompactOutput { table, tables, data, index, action, action_bytes })
    }

    /// Publishes a new table list, as a compaction does once its intent
    /// record is durable. A list out of order is refused.
    pub fn install_tables(&mut self, tables: Vec<SSTable>) -> (r: Result<()>)
        requires
            old(self).wf(),
        ensures
            final(self).wf(),
            r is Ok <==> tables_sorted(tables@),
            r is Ok ==> final(self).tables() == tables@,
            r is Err ==> final(self).tables() == old(self).tables(),
            r matches Err(e) ==> e == Error::Corruption,
            final(self).active_items() == old(self).active_items(),
            final(self).active_map() == old(self).active_map(),
            final(self).write_index() == old(self).write_index(),
            final(self).wal_index() == old(self).wal_index(),
            final(self).wal_len() == old(self).wal_len(),
            final(self).dir_view() == old(self).dir_view(),
            final(self).cache_view() == old(self).cache_view(),
            final(self).cache_pages() == old(self).cache_pages(),
    {
        let mut i: usize = 1;
        while i < tables.len()
            invariant
                self.wf(),
                *self == *old(self),
                1 <= i,
                forall|a: int, b: int| 0 <= a < b < i && b < tables@.len() ==> (#[trigger] tables@[a]).index < (#[trigger] tables@[b]).index,
            decreases tables@.len() - i,
        {
            if tables[i - 1].index >= tables[i].index {
                return Err(Error::Corruption);
            }
            proof {
                assert forall|a: int, b: int| 0 <= a < b < i + 1 && b < tables@.len() implies (#[trigger] tables@[a]).index < (#[trigger] tables@[b]).index by {
                    if b == i && a < i - 1 {
                        assert(tables@[a].index < tables@[i - 1].index);
                    }
                }
            }
            i = i + 1;
        }
        self.sstables = tables;
        Ok(())
    }

    /// Flushes the memtable held in the log `wal` into table `index`, as
    /// recovery does with a log whose flush did not finish. Returns the
    /// table and the bytes of its two files.
    pub fn flush_wal(cache: &mut PageCache, wal: &[u8], index: usize) -> (r: Result<(SSTable, Vec<u8>, Vec<u8>)>)
        requires
            old(cache).wf(),
        ensures
            final(cache).wf(),
            final(cache).max_pages() == old(cache).max_pages(),
            r matches Ok(t) ==> exists|items: Seq<Item>| {
                &&& sorted(items)
                &&& #[trigger] t.0.size == items.len()
                &&& t.1@ == data_of(items)
                &&& t.2@ == index_of(items)
                &&& t.0.index == index
                &&& coherent(final(cache)@, FileFamily::Data, index, t.1@, true)
                &&& coherent(final(cache)@, FileFamily::Index, index, t.2@, true)
                &&& forall|ws: Seq<Item>| #[trigger] wal_log(ws) == wal@ ==> map_of(items) == apply_items(Map::empty(), ws)
            },
            forall|ws: Seq<Item>|
                #[trigger] wal_log(ws) == wal@ && apply_items(Map::empty(), ws).len() <= TREE_CAPACITY && fits(sorted_items(apply_items(Map::empty(), ws)))
                    ==> r is Ok,
            r matches Err(e) ==> e == Error::Corruption || e == Error::CapacityExceeded,
    {
        let memtable = memtable_from_wal(wal, TREE_CAPACITY)?;
        let entries = memtable.entries();
        proof {
            memtable.lemma_wf();
            let items = items_of(entries@);
            assert forall|ws: Seq<Item>|
                #[trigger] wal_log(ws) == wal@ && apply_items(Map::empty(), ws).len() <= TREE_CAPACITY && fits(sorted_items(apply_items(Map::empty(), ws)))
                    implies fits(items) by {
                let m = apply_items(Map::empty(), ws);
                assert(sorted(items) && map_of(items) == m);
                lemma_sorted_unique(items, sorted_items(m));
            }
        }
        let (data, idx) = write_table(cache, index, entries)?;
        let table = SSTable { index, size: entries.len() as u64 };
        proof {
            let items = items_of(entries@);
            assert(table.size == items.len());
        }
        Ok((table, data, idx))
    }
}

/// Read-your-writes: once `set` of `key` to a non-empty `value` has
/// returned, the active memtable answers a read of `key` with `value`,
/// whatever the tables hold.
pub proof fn law_read_your_writes(before: LsmTree, after: LsmTree, key: Seq<u8>, value: Seq<u8>, timestamp: i64)
    requires
        after.active_map() == before.active_map().insert(key, (value, timestamp)),
        value.len() > 0,
    ensures
        after.answer_in_memory(key) == Some(Some(value)),
{
}

/// Tombstone masking: once `delete` of `key` has returned, a read of `key`
/// finds it absent, whatever older tables hold.
pub proof fn law_tombstone_masking(before: LsmTree, after: LsmTree, key: Seq<u8>, timestamp: i64)
    requires
        after.active_map() == before.active_map().insert(key, (Seq::<u8>::empty(), timestamp)),
    ensures
        after.answer_in_memory(key) == Some(None::<Seq<u8>>),
{
}

} // verus!
