//! The write-ahead log of the active memtable: one record per write, each
//! padded with zeros to the next page boundary, so that a torn write at the
//! tail only spoils its own pages.

use vstd::prelude::*;

use crate::codec::{decode_entry_prefix, encode_entry, encoded, entry_size, lemma_entry_bytes_len, EntryValue, PAGE_SIZE};
use crate::error::Result;
use crate::compaction::apply_items;
use crate::memtable::{Item, MemTable};

verus! {

/// The length of a record of `s` bytes once padded: up to the next page
/// boundary strictly above `s`.
pub open spec fn padded_len(s: int) -> int {
    s + PAGE_SIZE - s % (PAGE_SIZE as int)
}

/// The log record of a write.
pub open spec fn wal_record_bytes(key: Seq<u8>, v: (Seq<u8>, i64)) -> Seq<u8> {
    let e = encoded(key, v);
    e + Seq::new((padded_len(e.len() as int) - e.len()) as nat, |i: int| 0u8)
}

/// Encodes a write as a log record.
pub fn wal_record(key: &Vec<u8>, value: &EntryValue) -> (r: Result<Vec<u8>>)
    requires
        entry_size(key@, value.data@) + PAGE_SIZE <= usize::MAX,
    ensures
        r is Ok,
        r matches Ok(b) ==> b@ == wal_record_bytes(key@, value@),
        r matches Ok(b) ==> b@.len() % (PAGE_SIZE as nat) == 0,
{
    let mut buf = encode_entry(key, &value.data, value.timestamp)?;
    proof { lemma_entry_bytes_len(key@, value.data@, value.timestamp); }
    let ghost e = buf@;
    let size = buf.len();
    let padded = size + PAGE_SIZE - size % PAGE_SIZE;
    while buf.len() < padded
        invariant
            size == e.len(),
            padded == padded_len(size as int),
            size <= buf@.len() <= padded,
            buf@ == e + Seq::new((buf@.len() - size) as nat, |i: int| 0u8),
        decreases padded - buf@.len(),
    {
        buf.push(0u8);
        assert(buf@ =~= e + Seq::new((buf@.len() - size) as nat, |i: int| 0u8));
    }
    assert(padded % 4096 == 0) by (nonlinear_arith)
        requires padded == size + 4096 - size % 4096;
    Ok(buf)
}

/// The log of a run of writes, oldest first.
pub open spec fn wal_log(ws: Seq<Item>) -> Seq<u8>
    decreases ws.len(),
{
    if ws.len() == 0 {
        Seq::empty()
    } else {
        wal_log(ws.drop_last()) + wal_record_bytes(ws.last().0, ws.last().1)
    }
}

proof fn lemma_record_len(k: Seq<u8>, v: (Seq<u8>, i64))
    ensures
        wal_record_bytes(k, v).len() == padded_len(encoded(k, v).len() as int),
        wal_record_bytes(k, v).len() as int % (PAGE_SIZE as int) == 0,
        wal_record_bytes(k, v).len() >= PAGE_SIZE,
        wal_record_bytes(k, v).subrange(0, encoded(k, v).len() as int) == encoded(k, v),
{
    let e = encoded(k, v).len() as int;
    assert(padded_len(e) % 4096 == 0 && padded_len(e) >= 4096 && padded_len(e) >= e) by (nonlinear_arith)
        requires e >= 0, padded_len(e) == e + 4096 - e % 4096;
    assert(wal_record_bytes(k, v).subrange(0, e) =~= encoded(k, v));
}

/// A log of the first writes of a run is a prefix of the run's log, and
/// every later write takes at least one page.
proof fn lemma_wal_log_take(ws: Seq<Item>, j: int)
    requires
        0 <= j <= ws.len(),
    ensures
        wal_log(ws.take(j)).len() + (ws.len() - j) * PAGE_SIZE <= wal_log(ws).len(),
        wal_log(ws).subrange(0, wal_log(ws.take(j)).len() as int) == wal_log(ws.take(j)),
        wal_log(ws.take(j)).len() as int % (PAGE_SIZE as int) == 0,
    decreases ws.len(),
{
    if j == ws.len() {
        assert(ws.take(j) =~= ws);
        lemma_wal_log_aligned(ws);
        assert(wal_log(ws).subrange(0, wal_log(ws).len() as int) =~= wal_log(ws));
    } else {
        let rest = ws.drop_last();
        assert(rest.take(j) =~= ws.take(j));
        lemma_wal_log_take(rest, j);
        lemma_record_len(ws.last().0, ws.last().1);
        let a = wal_log(rest);
        let b = wal_record_bytes(ws.last().0, ws.last().1);
        assert(wal_log(ws) == a + b);
        assert((a + b).subrange(0, wal_log(ws.take(j)).len() as int) =~= a.subrange(0, wal_log(ws.take(j)).len() as int));
    }
}

proof fn lemma_wal_log_aligned(ws: Seq<Item>)
    ensures
        wal_log(ws).len() as int % (PAGE_SIZE as int) == 0,
    decreases ws.len(),
{
    if ws.len() > 0 {
        lemma_wal_log_aligned(ws.drop_last());
        lemma_record_len(ws.last().0, ws.last().1);
        let a = wal_log(ws.drop_last()).len() as int;
        let b = wal_record_bytes(ws.last().0, ws.last().1).len() as int;
        assert((a + b) % 4096 == 0) by (nonlinear_arith)
            requires a % 4096 == 0, b % 4096 == 0;
    }
}

/// The keys written by the first writes of a run are among those of the
/// whole run.
proof fn lemma_apply_prefix(ws: Seq<Item>, j: int)
    requires
        0 <= j <= ws.len(),
    ensures
        apply_items(Map::empty(), ws).dom().finite(),
        apply_items(Map::empty(), ws.take(j)).dom().finite(),
        apply_items(Map::empty(), ws.take(j)).dom().subset_of(apply_items(Map::empty(), ws).dom()),
    decreases ws.len(),
{
    if ws.len() == 0 {
        assert(ws.take(j) =~= ws);
        assert(apply_items(Map::<Seq<u8>, (Seq<u8>, i64)>::empty(), ws).dom() =~= Set::<Seq<u8>>::empty());
    } else {
        let rest = ws.drop_last();
        lemma_apply_prefix(rest, if j == ws.len() { rest.len() as int } else { j });
        if j == ws.len() {
            assert(ws.take(j) =~= ws);
        } else {
            assert(rest.take(j) =~= ws.take(j));
        }
    }
}

/// Rebuilds a memtable from a log: at each page boundary, decodes one
/// record if it can, and moves to the first page boundary after what it
/// read (after the boundary itself when nothing decodes).
pub fn memtable_from_wal(wal: &[u8], capacity: usize) -> (r: Result<MemTable>)
    ensures
        r matches Ok(m) ==> m.wf() && m.max_len() == capacity,
        r matches Err(e) ==> e == crate::error::Error::CapacityExceeded,
        forall|ws: Seq<Item>| #[trigger] wal_log(ws) == wal@ ==> {
            &&& (r matches Ok(m) ==> m.map() == apply_items(Map::empty(), ws))
            &&& (ws.len() <= capacity ==> r is Ok)
            &&& (apply_items(Map::empty(), ws).len() <= capacity ==> r is Ok)
        },
{
    let mut table = MemTable::with_capacity(capacity);
    let mut pos: usize = 0;
    let ghost mut count: int = 0;
    proof {
        assert forall|ws: Seq<Item>| #[trigger] wal_log(ws) == wal@ implies {
            &&& 0 <= count <= ws.len()
            &&& pos == wal_log(ws.take(count)).len()
            &&& table.map() == apply_items(Map::empty(), ws.take(count))
            &&& table.items().len() <= count
        } by {
            assert(ws.take(0) =~= Seq::<Item>::empty());
            assert(table.map() =~= Map::<Seq<u8>, (Seq<u8>, i64)>::empty());
        }
    }
    while pos < wal.len()
        invariant
            table.wf(),
            table.max_len() == capacity,
            pos % PAGE_SIZE == 0,
            forall|ws: Seq<Item>| #[trigger] wal_log(ws) == wal@ ==> {
                &&& 0 <= count <= ws.len()
                &&& pos == wal_log(ws.take(count)).len()
                &&& table.map() == apply_items(Map::empty(), ws.take(count))
                &&& table.items().len() <= count
            },
        ensures
            forall|ws: Seq<Item>| #[trigger] wal_log(ws) == wal@ ==> pos >= wal@.len(),
        decreases wal@.len() - pos,
    {
        let rest = &wal[pos..wal.len()];
        proof {
            assert forall|ws: Seq<Item>| #[trigger] wal_log(ws) == wal@ implies {
                &&& count < ws.len()
                &&& encoded(ws[count].0, ws[count].1).len() <= rest@.len()
                &&& rest@.subrange(0, encoded(ws[count].0, ws[count].1).len() as int) == encoded(ws[count].0, ws[count].1)
                &&& wal_log(ws.take(count + 1)).len() == pos + padded_len(encoded(ws[count].0, ws[count].1).len() as int)
                &&& wal_log(ws.take(count + 1)).len() <= wal@.len()
            } by {
                lemma_wal_log_take(ws, count);
                if count == ws.len() {
                    assert(ws.take(count) =~= ws);
                }
                let t1 = ws.take(count + 1);
                assert(t1.drop_last() =~= ws.take(count));
                assert(t1.last() == ws[count]);
                lemma_wal_log_take(ws, count + 1);
                lemma_record_len(ws[count].0, ws[count].1);
                let a = wal_log(ws.take(count));
                let rec = wal_record_bytes(ws[count].0, ws[count].1);
                let e = encoded(ws[count].0, ws[count].1);
                assert(wal_log(t1) == a + rec);
                assert(wal@.subrange(0, (a + rec).len() as int) == a + rec);
                assert(rest@.subrange(0, e.len() as int) =~= wal@.subrange(pos as int, pos + e.len()));
                assert(wal@.subrange(pos as int, pos + e.len()) =~= (a + rec).subrange(pos as int, pos + e.len()));
                assert((a + rec).subrange(pos as int, pos + e.len()) =~= rec.subrange(0, e.len() as int));
            }
        }
        let next = match decode_entry_prefix(rest) {
            Ok((entry, used)) => {
                let ghost before = table.map();
                let ghost key = entry.key@;
                let ghost value = entry.value@;
                proof {
                    table.lemma_wf();
                    crate::memtable::lemma_sorted_len(table.items());
                    assert forall|ws: Seq<Item>|
                        #[trigger] wal_log(ws) == wal@ && apply_items(Map::empty(), ws).len() <= capacity implies table.map().contains_key(
                            key,
                        ) || table.items().len() < capacity by {
                        assert(key == ws[count].0);
                        let t1 = ws.take(count + 1);
                        assert(t1.drop_last() =~= ws.take(count));
                        assert(t1.last() == ws[count]);
                        lemma_apply_prefix(ws, count + 1);
                        lemma_apply_prefix(ws, count);
                        let m1 = apply_items(Map::empty(), t1);
                        vstd::set_lib::lemma_len_subset(m1.dom(), apply_items(Map::empty(), ws).dom());
                        if !table.map().contains_key(key) {
                            assert(m1.dom() =~= table.map().dom().insert(key));
                        }
                    }
                }
                table.set(entry.key, entry.value)?;
                proof {
                    assert forall|ws: Seq<Item>| #[trigger] wal_log(ws) == wal@ implies {
                        &&& table.map() == apply_items(Map::empty(), ws.take(count + 1))
                        &&& used == encoded(ws[count].0, ws[count].1).len()
                        &&& table.items().len() <= count + 1
                    } by {
                        assert(key == ws[count].0 && value == ws[count].1);
                        let t1 = ws.take(count + 1);
                        assert(t1.drop_last() =~= ws.take(count));
                        assert(t1.last() == ws[count]);
                    }
                }
                pos + used
            },
            Err(_) => pos,
        };
        let step = PAGE_SIZE - next % PAGE_SIZE;
        if step > wal.len() || next > wal.len() - step {
            proof {
                assert forall|ws: Seq<Item>| #[trigger] wal_log(ws) == wal@ implies false by {
                    let e = encoded(ws[count].0, ws[count].1).len() as int;
                    assert(next == pos + e);
                    assert(next % 4096 == e % 4096) by (nonlinear_arith)
                        requires next == pos + e, pos % 4096 == 0, e >= 0;
                }
            }
            break;
        }
        proof {
            assert forall|ws: Seq<Item>| #[trigger] wal_log(ws) == wal@ implies {
                &&& 0 <= count + 1 <= ws.len()
                &&& next + step == wal_log(ws.take(count + 1)).len()
            } by {
                let e = encoded(ws[count].0, ws[count].1).len() as int;
                assert(next == pos + e);
                assert(next % 4096 == e % 4096) by (nonlinear_arith)
                    requires next == pos + e, pos % 4096 == 0, e >= 0;
            }
            assert((next + step) % 4096 == 0) by (nonlinear_arith)
                requires step == 4096 - next % 4096, next >= 0;
            count = count + 1;
        }
        pos = next + step;
    }
    proof {
        assert forall|ws: Seq<Item>| #[trigger] wal_log(ws) == wal@ implies table.map() == apply_items(Map::empty(), ws) by {
            lemma_wal_log_take(ws, count);
            if count < ws.len() {
                assert(wal_log(ws.take(count)).len() + PAGE_SIZE <= wal@.len()) by (nonlinear_arith)
                    requires wal_log(ws.take(count)).len() + (ws.len() - count) * 4096 <= wal@.len(), count < ws.len();
            }
            assert(ws.take(count) =~= ws);
        }
    }
    Ok(table)
}


} // verus!
