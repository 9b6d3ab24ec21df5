//! Sorted tables on disk: lookup by binary search over the index file, read
//! through the page cache, and whole-table decoding for compaction.

use vstd::prelude::*;

use crate::codec::{decode_entry, decode_offset, encoded, lemma_entry_bytes_injective, lemma_offset_bytes_injective, offset_bytes, Entry, EntryValue, INDEX_ENTRY_SIZE, PAGE_SIZE};
use crate::error::{Error, Result};
use crate::keys::{compare_keys, key_less, lemma_key_less_irreflexive, lemma_key_less_transitive};
use crate::memtable::Item;
use crate::page_cache::{cached_range, CachedRead, FileFamily, PageCache, PageKey};

verus! {

/// A table on disk: its index, and the number of entries it holds.
#[derive(Debug, Clone, Copy, PartialEq, Eq, Structural)]
pub struct SSTable {
    pub index: usize,
    pub size: u64,
}

/// The outcome of a lookup that may need pages the cache lacks.
#[derive(Debug)]
pub enum Lookup {
    /// The key's newest entry.
    Found(EntryValue),
    /// No entry holds the key.
    Absent,
    /// This page is needed: read it from disk, cache it, and look again.
    NeedPage(PageKey),
}

/// Whether entry `i` of table `t`, as the cache holds it, is the entry of
/// `key` with value `v`.
pub open spec fn cached_entry_is(
    m: Map<PageKey, Seq<u8>>,
    t: usize,
    i: int,
    key: Seq<u8>,
    v: (Seq<u8>, i64),
) -> bool {
    exists|off: u64, size: u64|
        cached_range(m, FileFamily::Index, t, i * INDEX_ENTRY_SIZE, INDEX_ENTRY_SIZE as int) == Some(
            #[trigger] offset_bytes(off, size),
        ) && cached_range(m, FileFamily::Data, t, off as int, size as int) == Some(encoded(key, v))
}

/// Whether table `t`, as the cache holds it, has an entry of `key` with
/// value `v`.
pub open spec fn table_holds(m: Map<PageKey, Seq<u8>>, t: SSTable, key: Seq<u8>, v: (Seq<u8>, i64)) -> bool {
    exists|i: int| 0 <= i < t.size && #[trigger] cached_entry_is(m, t.index, i, key, v)
}

/// Index record `i` of table `t`, if the cache holds it.
pub open spec fn index_record(m: Map<PageKey, Seq<u8>>, t: usize, i: int) -> Option<Seq<u8>> {
    cached_range(m, FileFamily::Index, t, i * INDEX_ENTRY_SIZE, INDEX_ENTRY_SIZE as int)
}

/// Whether index record `i` of table `t`, as far as the cache holds it,
/// points at a range of the data file that fits in a `u64` with room to
/// spare, and holds an encoded entry there.
pub open spec fn record_well_formed(m: Map<PageKey, Seq<u8>>, t: usize, i: int) -> bool {
    forall|o: u64, sz: u64|
        index_record(m, t, i) == Some(#[trigger] offset_bytes(o, sz)) ==> {
            &&& o <= u64::MAX - 2 * PAGE_SIZE
            &&& sz <= u64::MAX - 2 * PAGE_SIZE - o
            &&& (cached_range(m, FileFamily::Data, t, o as int, sz as int) matches Some(b) ==> exists|
                k: Seq<u8>,
                d: Seq<u8>,
                ts: i64,
            | b == #[trigger] crate::codec::entry_bytes(k, d, ts))
        }
}

/// Whether every record of table `t` that the cache holds is well formed.
pub open spec fn cached_well_formed(m: Map<PageKey, Seq<u8>>, t: SSTable) -> bool {
    forall|i: int| 0 <= i < t.size ==> #[trigger] record_well_formed(m, t.index, i)
}

/// The largest number of entries a table may have.
pub open spec fn max_table_size() -> int {
    (u64::MAX - 2 * PAGE_SIZE) / INDEX_ENTRY_SIZE as int
}

/// Whether the entries of table `t` that the cache holds ascend by key.
pub open spec fn cached_sorted(m: Map<PageKey, Seq<u8>>, t: SSTable) -> bool {
    forall|i: int, j: int, ki: Seq<u8>, vi: (Seq<u8>, i64), kj: Seq<u8>, vj: (Seq<u8>, i64)|
        0 <= i < j < t.size && #[trigger] cached_entry_is(m, t.index, i, ki, vi) && #[trigger] cached_entry_is(
            m,
            t.index,
            j,
            kj,
            vj,
        ) ==> key_less(ki, kj)
}

/// The cache holds at most one entry at each position of a table.
pub proof fn lemma_cached_entry_unique(
    m: Map<PageKey, Seq<u8>>,
    t: usize,
    i: int,
    k1: Seq<u8>,
    v1: (Seq<u8>, i64),
    k2: Seq<u8>,
    v2: (Seq<u8>, i64),
)
    requires
        cached_entry_is(m, t, i, k1, v1),
        cached_entry_is(m, t, i, k2, v2),
    ensures
        k1 == k2,
        v1 == v2,
{
    let (o1, s1) = choose|off: u64, size: u64|
        cached_range(m, FileFamily::Index, t, i * INDEX_ENTRY_SIZE, INDEX_ENTRY_SIZE as int) == Some(
            #[trigger] offset_bytes(off, size),
        ) && cached_range(m, FileFamily::Data, t, off as int, size as int) == Some(encoded(k1, v1));
    let (o2, s2) = choose|off: u64, size: u64|
        cached_range(m, FileFamily::Index, t, i * INDEX_ENTRY_SIZE, INDEX_ENTRY_SIZE as int) == Some(
            #[trigger] offset_bytes(off, size),
        ) && cached_range(m, FileFamily::Data, t, off as int, size as int) == Some(encoded(k2, v2));
    lemma_offset_bytes_injective(o1, s1, o2, s2);
    assert(encoded(k1, v1) == encoded(k2, v2));
    assert(encoded(k1, v1).len() == s1);
    lemma_entry_bytes_injective(k1, v1.0, v1.1, k2, v2.0, v2.1);
}

/// The number of entries of a table whose index file holds `index_len`
/// bytes; an index file of any other length is corrupt.
pub fn table_size(index_len: u64) -> (r: Result<u64>)
    ensures
        r matches Ok(n) ==> n * INDEX_ENTRY_SIZE == index_len,
        r is Err <==> index_len % INDEX_ENTRY_SIZE != 0,
        r matches Err(e) ==> e == Error::Corruption,
{
    if index_len % INDEX_ENTRY_SIZE != 0 {
        Err(Error::Corruption)
    } else {
        Ok(index_len / INDEX_ENTRY_SIZE)
    }
}

/// Looks `key` up in table `table` by binary search over its index file,
/// reading both files through the cache. The probe moves low past the
/// middle when the middle key is smaller, and high below it when larger;
/// it stops when the range is empty, or when the key is below entry 0.
pub fn search_table(cache: &PageCache, table: &SSTable, key: &[u8]) -> (r: Result<Lookup>)
    requires
        cache.wf(),
    ensures
        r matches Ok(Lookup::Found(v)) ==> table_holds(cache@, *table, key@, v@),
        r matches Ok(Lookup::NeedPage(k)) ==> !cache@.contains_key(k) && k.table == table.index && (k.family
            == FileFamily::Index ==> k.offset < table.size * INDEX_ENTRY_SIZE),
        r matches Ok(Lookup::Absent) ==> (cached_sorted(cache@, *table) ==> forall|v: (Seq<u8>, i64)|
            !table_holds(cache@, *table, key@, v)),
        table.size <= max_table_size() && cached_well_formed(cache@, *table) ==> r is Ok,
        table.size > max_table_size() ==> r is Err,
        r matches Err(e) ==> e == Error::Corruption || e == Error::Serialization,
{
    if table.size == 0 {
        return Ok(Lookup::Absent);
    }
    if table.size > (u64::MAX - 2 * PAGE_SIZE as u64) / INDEX_ENTRY_SIZE {
        return Err(Error::Corruption);
    }
    let ghost sorted_hyp = cached_sorted(cache@, *table);
    proof { lemma_key_less_irreflexive(key@); }
    let mut lo: u64 = 0;
    let mut hi: u64 = table.size - 1;
    while lo <= hi
        invariant
            cache.wf(),
            hi < table.size,
            table.size * 16 + 2 * 4096 <= u64::MAX,
            sorted_hyp == cached_sorted(cache@, *table),
            !key_less(key@, key@),
            lo <= hi + 1,
            sorted_hyp ==> forall|i: int, k: Seq<u8>, v: (Seq<u8>, i64)|
                0 <= i < lo && #[trigger] cached_entry_is(cache@, table.index, i, k, v) ==> key_less(k, key@),
            sorted_hyp ==> forall|i: int, k: Seq<u8>, v: (Seq<u8>, i64)|
                hi < i < table.size && #[trigger] cached_entry_is(cache@, table.index, i, k, v) ==> key_less(key@, k),
        ensures
            sorted_hyp ==> forall|i: int, v: (Seq<u8>, i64)|
                0 <= i < table.size ==> !#[trigger] cached_entry_is(cache@, table.index, i, key@, v),
        decreases hi + 1 - lo,
    {
        let mid = lo + (hi - lo) / 2;
        let record = match cache.read_at(FileFamily::Index, table.index, mid * INDEX_ENTRY_SIZE, INDEX_ENTRY_SIZE) {
            CachedRead::Bytes(b) => b,
            CachedRead::Missing(k) => {
                return Ok(Lookup::NeedPage(k));
            },
        };
        let (off, size) = decode_offset(record.as_slice())?;
        assert(index_record(cache@, table.index, mid as int) == Some(offset_bytes(off, size)));
        assert(cached_well_formed(cache@, *table) ==> record_well_formed(cache@, table.index, mid as int));
        if off > u64::MAX - 2 * PAGE_SIZE as u64 || size > u64::MAX - 2 * PAGE_SIZE as u64 - off {
            return Err(Error::Corruption);
        }
        let bytes = match cache.read_at(FileFamily::Data, table.index, off, size) {
            CachedRead::Bytes(b) => b,
            CachedRead::Missing(k) => {
                return Ok(Lookup::NeedPage(k));
            },
        };
        let entry = decode_entry(bytes.as_slice())?;
        let ghost km = entry.key@;
        let ghost vm = entry.value@;
        assert(cached_entry_is(cache@, table.index, mid as int, km, vm));
        match compare_keys(entry.key.as_slice(), key) {
            core::cmp::Ordering::Equal => {
                let value = entry.value;
                return Ok(Lookup::Found(value));
            },
            core::cmp::Ordering::Less => {
                proof {
                    if sorted_hyp {
                        assert forall|i: int, k: Seq<u8>, v: (Seq<u8>, i64)|
                            0 <= i < mid + 1 && #[trigger] cached_entry_is(cache@, table.index, i, k, v) implies key_less(k, key@) by {
                            if i == mid {
                                lemma_cached_entry_unique(cache@, table.index, i, k, v, km, vm);
                            } else if i >= lo {
                                lemma_key_less_transitive(k, km, key@);
                            }
                        }
                    }
                }
                lo = mid + 1;
            },
            core::cmp::Ordering::Greater => {
                proof {
                    if sorted_hyp {
                        assert forall|i: int, k: Seq<u8>, v: (Seq<u8>, i64)|
                            mid <= i < table.size && #[trigger] cached_entry_is(cache@, table.index, i, k, v) implies key_less(key@, k) by {
                            if i == mid {
                                lemma_cached_entry_unique(cache@, table.index, i, k, v, km, vm);
                            } else if i <= hi {
                                lemma_key_less_transitive(key@, km, k);
                            }
                        }
                    }
                }
                if mid == 0 {
                    proof {
                        if sorted_hyp {
                            assert forall|i: int, v: (Seq<u8>, i64)| 0 <= i < table.size implies !#[trigger] cached_entry_is(cache@, table.index, i, key@, v) by {
                                lemma_key_less_irreflexive(key@);
                            }
                        }
                    }
                    break;
                }
                hi = mid - 1;
            },
        }
    }
    proof {
        if sorted_hyp {
            assert forall|v: (Seq<u8>, i64)| !table_holds(cache@, *table, key@, v) by {
                lemma_key_less_irreflexive(key@);
            }
        }
    }
    Ok(Lookup::Absent)
}

/// Whether record `i` of an index file points at the encoding of `item` in
/// the data file.
pub open spec fn located(data: Seq<u8>, index: Seq<u8>, i: int, item: Item) -> bool {
    exists|off: u64, size: u64|
        index.subrange(i * INDEX_ENTRY_SIZE, (i + 1) * INDEX_ENTRY_SIZE) == #[trigger] offset_bytes(off, size)
            && off + size <= data.len() && data.subrange(off as int, off + size) == encoded(item.0, item.1)
}

/// Decodes every entry of a table from the bytes of its two files.
pub fn decode_table(data: &[u8], index: &[u8]) -> (r: Result<Vec<Entry>>)
    ensures
        r matches Ok(es) ==> index@.len() == es@.len() * INDEX_ENTRY_SIZE && forall|i: int|
            0 <= i < es@.len() ==> located(data@, index@, i, (#[trigger] es@[i].key@, es@[i].value@)),
        r is Err ==> r == Err::<Vec<Entry>, Error>(Error::Serialization) || r == Err::<Vec<Entry>, Error>(Error::Corruption),
{
    if index.len() % 16 != 0 {
        return Err(Error::Corruption);
    }
    let n = index.len() / 16;
    let mut out: Vec<Entry> = Vec::new();
    let mut i: usize = 0;
    while i < n
        invariant
            n * 16 == index@.len(),
            index@.len() == index.len(),
            i <= n,
            out@.len() == i,
            forall|j: int| 0 <= j < i ==> located(data@, index@, j, (#[trigger] out@[j].key@, out@[j].value@)),
        decreases n - i,
    {
        assert(i * 16 + 16 <= n * 16) by (nonlinear_arith)
            requires i < n;
        let record = &index[i * 16..i * 16 + 16];
        let (off, size) = decode_offset(record)?;
        if off > data.len() as u64 || size > data.len() as u64 - off {
            return Err(Error::Corruption);
        }
        let bytes = &data[off as usize..(off + size) as usize];
        let entry = decode_entry(bytes)?;
        assert(record@ == index@.subrange(i * INDEX_ENTRY_SIZE, (i + 1) * INDEX_ENTRY_SIZE));
        assert(located(data@, index@, i as int, (entry.key@, entry.value@)));
        out.push(entry);
        i = i + 1;
    }
    Ok(out)
}

} // verus!
