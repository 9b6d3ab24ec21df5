//! The memtable: an ordered map from key to value with a fixed capacity.

use vstd::prelude::*;

use crate::codec::{Entry, EntryValue};
use crate::error::{Error, Result};
use crate::keys::{compare_keys, key_less, lemma_key_less_irreflexive, lemma_key_less_total, lemma_key_less_transitive};

verus! {

/// The number of entries a memtable holds before it must be flushed.
pub const TREE_CAPACITY: usize = 4096;

/// A key with the view of its value.
pub type Item = (Seq<u8>, (Seq<u8>, i64));

/// Whether the keys of `s` ascend strictly.
pub open spec fn sorted(s: Seq<Item>) -> bool {
    forall|i: int, j: int| 0 <= i < j < s.len() ==> key_less(#[trigger] s[i].0, #[trigger] s[j].0)
}

/// The view of a sequence of entries.
pub open spec fn items_of(entries: Seq<Entry>) -> Seq<Item> {
    entries.map_values(|e: Entry| (e.key@, e.value@))
}

/// The map that a sorted sequence of items stands for.
pub open spec fn map_of(s: Seq<Item>) -> Map<Seq<u8>, (Seq<u8>, i64)> {
    Map::new(
        |k: Seq<u8>| exists|i: int| 0 <= i < s.len() && s[i].0 == k,
        |k: Seq<u8>| s[choose|i: int| 0 <= i < s.len() && s[i].0 == k].1,
    )
}

pub proof fn lemma_map_of_index(s: Seq<Item>, i: int)
    requires
        sorted(s),
        0 <= i < s.len(),
    ensures
        map_of(s).contains_key(s[i].0),
        map_of(s)[s[i].0] == s[i].1,
{
    let j = choose|j: int| 0 <= j < s.len() && s[j].0 == s[i].0;
    if j != i {
        lemma_key_less_irreflexive(s[i].0);
        if j < i {
            assert(key_less(s[j].0, s[i].0));
        } else {
            assert(key_less(s[i].0, s[j].0));
        }
    }
}

/// The entries, in ascending order of key, of the map `m`.
pub open spec fn sorted_items(m: Map<Seq<u8>, (Seq<u8>, i64)>) -> Seq<Item> {
    choose|s: Seq<Item>| sorted(s) && map_of(s) == m
}

/// A sorted sequence of entries is fixed by the map it stands for.
pub proof fn lemma_sorted_unique(s: Seq<Item>, t: Seq<Item>)
    requires
        sorted(s),
        sorted(t),
        map_of(s) == map_of(t),
    ensures
        s == t,
    decreases s.len() + t.len(),
{
    if s.len() == 0 || t.len() == 0 {
        if t.len() > 0 {
            lemma_map_of_index(t, t.len() - 1);
        }
        if s.len() > 0 {
            lemma_map_of_index(s, s.len() - 1);
        }
        assert(s =~= t);
    } else {
        let a = s.last();
        let b = t.last();
        lemma_map_of_index(s, s.len() - 1);
        lemma_map_of_index(t, t.len() - 1);
        let j = choose|j: int| 0 <= j < t.len() && t[j].0 == a.0;
        let i = choose|i: int| 0 <= i < s.len() && s[i].0 == b.0;
        lemma_key_less_total(a.0, b.0);
        if j < t.len() - 1 {
            assert(key_less(a.0, b.0));
        }
        if i < s.len() - 1 {
            assert(key_less(b.0, a.0));
        }
        assert(a.0 == b.0);
        let s1 = s.drop_last();
        let t1 = t.drop_last();
        assert(s =~= s1.push(a));
        assert(t =~= t1.push(b));
        assert(sorted(s1)) by {
            assert forall|x: int, y: int| 0 <= x < y < s1.len() implies key_less(#[trigger] s1[x].0, #[trigger] s1[y].0) by {
                assert(s1[x] == s[x] && s1[y] == s[y]);
            }
        }
        assert(sorted(t1)) by {
            assert forall|x: int, y: int| 0 <= x < y < t1.len() implies key_less(#[trigger] t1[x].0, #[trigger] t1[y].0) by {
                assert(t1[x] == t[x] && t1[y] == t[y]);
            }
        }
        lemma_key_less_irreflexive(a.0);
        assert(!map_of(s1).contains_key(a.0)) by {
            if map_of(s1).contains_key(a.0) {
                let x = choose|x: int| 0 <= x < s1.len() && s1[x].0 == a.0;
                assert(key_less(s[x].0, s[s.len() - 1].0));
            }
        }
        assert(!map_of(t1).contains_key(b.0)) by {
            if map_of(t1).contains_key(b.0) {
                let x = choose|x: int| 0 <= x < t1.len() && t1[x].0 == b.0;
                assert(key_less(t[x].0, t[t.len() - 1].0));
            }
        }
        lemma_map_of_push_sorted(s1, a);
        lemma_map_of_push_sorted(t1, b);
        assert(map_of(s1) =~= map_of(s).remove(a.0));
        assert(map_of(t1) =~= map_of(t).remove(b.0));
        lemma_sorted_unique(s1, t1);
    }
}

/// Appending an entry with a greater key adds it to the map.
pub proof fn lemma_map_of_push_sorted(s: Seq<Item>, x: Item)
    requires
        sorted(s.push(x)),
    ensures
        map_of(s.push(x)) == map_of(s).insert(x.0, x.1),
{
    let t = s.push(x);
    assert(sorted(s)) by {
        assert forall|i: int, j: int| 0 <= i < j < s.len() implies key_less(#[trigger] s[i].0, #[trigger] s[j].0) by {
            assert(t[i] == s[i] && t[j] == s[j]);
        }
    }
    assert forall|k: Seq<u8>| #[trigger] map_of(t).contains_key(k) <==> map_of(s).insert(x.0, x.1).contains_key(k) by {
        if map_of(s).contains_key(k) {
            let i = choose|i: int| 0 <= i < s.len() && s[i].0 == k;
            assert(t[i] == s[i]);
        }
        if k == x.0 {
            assert(t[s.len() as int] == x);
        }
        if map_of(t).contains_key(k) && k != x.0 {
            let i = choose|i: int| 0 <= i < t.len() && t[i].0 == k;
            assert(s[i] == t[i]);
        }
    }
    assert forall|k: Seq<u8>| #[trigger] map_of(t).contains_key(k) implies map_of(t)[k] == map_of(s).insert(x.0, x.1)[k] by {
        let i = choose|i: int| 0 <= i < t.len() && t[i].0 == k;
        lemma_map_of_index(t, i);
        if i < s.len() {
            lemma_map_of_index(s, i);
            lemma_key_less_irreflexive(k);
            assert(key_less(t[i].0, t[s.len() as int].0));
        }
    }
    assert(map_of(t) =~= map_of(s).insert(x.0, x.1));
}

/// A sorted sequence of entries stands for a map of as many keys.
pub proof fn lemma_sorted_len(s: Seq<Item>)
    requires
        sorted(s),
    ensures
        map_of(s).dom().finite(),
        map_of(s).len() == s.len(),
    decreases s.len(),
{
    if s.len() == 0 {
        assert(map_of(s).dom() =~= Set::<Seq<u8>>::empty());
    } else {
        let s1 = s.drop_last();
        let a = s.last();
        assert(s =~= s1.push(a));
        assert(sorted(s1)) by {
            assert forall|x: int, y: int| 0 <= x < y < s1.len() implies key_less(#[trigger] s1[x].0, #[trigger] s1[y].0) by {
                assert(s1[x] == s[x] && s1[y] == s[y]);
            }
        }
        lemma_sorted_len(s1);
        lemma_key_less_irreflexive(a.0);
        assert(!map_of(s1).contains_key(a.0)) by {
            if map_of(s1).contains_key(a.0) {
                let x = choose|x: int| 0 <= x < s1.len() && s1[x].0 == a.0;
                assert(key_less(s[x].0, s[s.len() - 1].0));
            }
        }
        lemma_map_of_push_sorted(s1, a);
        assert(map_of(s).dom() =~= map_of(s1).dom().insert(a.0));
    }
}

/// Duplicates an entry value.
pub fn copy_value(v: &EntryValue) -> (r: EntryValue)
    ensures
        r@ == v@,
{
    EntryValue { data: v.data.clone(), timestamp: v.timestamp }
}

pub struct MemTable {
    capacity: usize,
    /// The entries in ascending order of key.
    entries: Vec<Entry>,
}

impl MemTable {
    pub closed spec fn wf(&self) -> bool {
        sorted(items_of(self.entries@))
    }

    /// The entries in ascending order of key.
    pub closed spec fn items(&self) -> Seq<Item> {
        items_of(self.entries@)
    }

    /// The key-value map the memtable holds.
    pub open spec fn map(&self) -> Map<Seq<u8>, (Seq<u8>, i64)> {
        map_of(self.items())
    }

    pub closed spec fn max_len(&self) -> nat {
        self.capacity as nat
    }

    pub proof fn lemma_wf(&self)
        requires
            self.wf(),
        ensures
            sorted(self.items()),
    {
    }

    /// An empty memtable that holds at most `capacity` entries.
    pub fn with_capacity(capacity: usize) -> (r: Self)
        ensures
            r.wf(),
            r.items() == Seq::<Item>::empty(),
            r.max_len() == capacity,
    {
        let r = MemTable { capacity, entries: Vec::new() };
        assert(r.items() =~= Seq::<Item>::empty());
        r
    }

    pub fn len(&self) -> (r: usize)
        ensures
            r == self.items().len(),
    {
        self.entries.len()
    }

    pub fn capacity(&self) -> (r: usize)
        ensures
            r == self.max_len(),
    {
        self.capacity
    }

    /// Whether the memtable holds as many entries as it can.
    pub fn is_full(&self) -> (r: bool)
        ensures
            r == (self.items().len() >= self.max_len()),
    {
        self.entries.len() >= self.capacity
    }

    /// The entries in ascending order of key.
    pub fn entries(&self) -> (r: &Vec<Entry>)
        ensures
            items_of(r@) == self.items(),
    {
        &self.entries
    }

    /// Where `key` stands: its position if present, else the position it
    /// would be inserted at.
    fn find(&self, key: &[u8]) -> (r: (bool, usize))
        requires
            self.wf(),
        ensures
            r.1 <= self.items().len(),
            r.0 ==> r.1 < self.items().len() && self.items()[r.1 as int].0 == key@,
            !r.0 ==> forall|i: int| 0 <= i < r.1 ==> key_less(#[trigger] self.items()[i].0, key@),
            !r.0 ==> forall|i: int| r.1 <= i < self.items().len() ==> key_less(key@, #[trigger] self.items()[i].0),
    {
        let ghost s = self.items();
        let mut lo: usize = 0;
        let mut hi: usize = self.entries.len();
        while lo < hi
            invariant
                self.wf(),
                s == self.items(),
                0 <= lo <= hi <= s.len(),
                forall|i: int| 0 <= i < lo ==> key_less(#[trigger] s[i].0, key@),
                forall|i: int| hi <= i < s.len() ==> key_less(key@, #[trigger] s[i].0),
            decreases hi - lo,
        {
            let mid = lo + (hi - lo) / 2;
            match compare_keys(self.entries[mid].key.as_slice(), key) {
                core::cmp::Ordering::Equal => {
                    return (true, mid);
                },
                core::cmp::Ordering::Less => {
                    assert forall|i: int| 0 <= i < mid + 1 implies key_less(#[trigger] s[i].0, key@) by {
                        if i < mid {
                            lemma_key_less_transitive(s[i].0, s[mid as int].0, key@);
                        }
                    }
                    lo = mid + 1;
                },
                core::cmp::Ordering::Greater => {
                    assert forall|i: int| mid <= i < s.len() implies key_less(key@, #[trigger] s[i].0) by {
                        if i > mid {
                            lemma_key_less_transitive(key@, s[mid as int].0, s[i].0);
                        }
                    }
                    hi = mid;
                },
            }
        }
        (false, lo)
    }

    /// The value stored under `key`.
    pub fn get(&self, key: &[u8]) -> (r: Option<EntryValue>)
        requires
            self.wf(),
        ensures
            r matches Some(v) ==> self.map().contains_key(key@) && v@ == self.map()[key@],
            r is None ==> !self.map().contains_key(key@),
    {
        let (found, pos) = self.find(key);
        if found {
            proof { lemma_map_of_index(self.items(), pos as int); }
            Some(copy_value(&self.entries[pos].value))
        } else {
            proof {
                if self.map().contains_key(key@) {
                    let s = self.items();
                    let i = choose|i: int| 0 <= i < s.len() && s[i].0 == key@;
                    lemma_key_less_irreflexive(key@);
                    if i < pos {
                        assert(key_less(s[i].0, key@));
                    } else {
                        assert(key_less(key@, s[i].0));
                    }
                }
            }
            None
        }
    }

    /// Stores `value` under `key` and returns the value it replaces. A new
    /// key in a full memtable is refused.
    pub fn set(&mut self, key: Vec<u8>, value: EntryValue) -> (r: Result<Option<EntryValue>>)
        requires
            old(self).wf(),
        ensures
            final(self).wf(),
            final(self).max_len() == old(self).max_len(),
            r is Err <==> !old(self).map().contains_key(key@) && old(self).items().len() >= old(self).max_len(),
            r matches Err(e) ==> e == Error::CapacityExceeded && final(self).items() == old(self).items(),
            r is Ok ==> final(self).map() == old(self).map().insert(key@, value@),
            r is Ok ==> final(self).items().len() <= old(self).items().len() + 1,
            r matches Ok(Some(p)) ==> old(self).map().contains_key(key@) && p@ == old(self).map()[key@],
            r matches Ok(None) ==> !old(self).map().contains_key(key@),
    {
        let (found, pos) = self.find(key.as_slice());
        proof {
            let s = self.items();
            if found {
                lemma_map_of_index(s, pos as int);
            } else if self.map().contains_key(key@) {
                let i = choose|i: int| 0 <= i < s.len() && s[i].0 == key@;
                lemma_key_less_irreflexive(key@);
                if i < pos {
                    assert(key_less(s[i].0, key@));
                } else {
                    assert(key_less(key@, s[i].0));
                }
            }
        }
        if !found && self.entries.len() >= self.capacity {
            return Err(Error::CapacityExceeded);
        }
        Ok(self.upsert(key, value))
    }

    /// Stores `value` under `key`, whatever the capacity, and returns the
    /// value it replaces.
    pub fn upsert(&mut self, key: Vec<u8>, value: EntryValue) -> (r: Option<EntryValue>)
        requires
            old(self).wf(),
        ensures
            final(self).wf(),
            final(self).max_len() == old(self).max_len(),
            final(self).map() == old(self).map().insert(key@, value@),
            final(self).items().len() <= old(self).items().len() + 1,
            r matches Some(p) ==> old(self).map().contains_key(key@) && p@ == old(self).map()[key@],
            r is None ==> !old(self).map().contains_key(key@) && final(self).items().len() == old(self).items().len() + 1,
    {
        let ghost s = self.items();
        let (found, pos) = self.find(key.as_slice());
        if found {
            proof { lemma_map_of_index(s, pos as int); }
            let ghost item = (key@, value@);
            let previous = copy_value(&self.entries[pos].value);
            self.entries.set(pos, Entry { key, value });
            proof {
                let t = self.items();
                assert(t =~= s.update(pos as int, item));
                self.lemma_map_update(s, pos as int, item);
            }
            Some(previous)
        } else {
            proof {
                if self.map().contains_key(key@) {
                    let i = choose|i: int| 0 <= i < s.len() && s[i].0 == key@;
                    lemma_key_less_irreflexive(key@);
                    if i < pos {
                        assert(key_less(s[i].0, key@));
                    } else {
                        assert(key_less(key@, s[i].0));
                    }
                }
            }
            let ghost item = (key@, value@);
            self.entries.insert(pos, Entry { key, value });
            proof {
                let t = self.items();
                assert(t =~= s.insert(pos as int, item));
                assert forall|i: int, j: int| 0 <= i < j < t.len() implies key_less(#[trigger] t[i].0, #[trigger] t[j].0) by {
                    if j < pos {
                    } else if j == pos {
                    } else if i < pos {
                        lemma_key_less_transitive(t[i].0, item.0, t[j].0);
                    } else if i == pos {
                    } else {
                        assert(t[i] == s[i - 1] && t[j] == s[j - 1]);
                    }
                }
                self.lemma_map_insert(s, pos as int, item);
            }
            None
        }
    }

    proof fn lemma_map_update(&self, s: Seq<Item>, pos: int, item: Item)
        requires
            sorted(s),
            0 <= pos < s.len(),
            s[pos].0 == item.0,
            self.items() == s.update(pos, item),
        ensures
            sorted(self.items()),
            map_of(self.items()) == map_of(s).insert(item.0, item.1),
    {
        let t = self.items();
        assert(sorted(t)) by {
            assert forall|i: int, j: int| 0 <= i < j < t.len() implies key_less(#[trigger] t[i].0, #[trigger] t[j].0) by {
                assert(key_less(s[i].0, s[j].0));
            }
        }
        assert forall|k: Seq<u8>| #[trigger] map_of(t).contains_key(k) <==> map_of(s).insert(item.0, item.1).contains_key(k) by {
            if map_of(t).contains_key(k) {
                let i = choose|i: int| 0 <= i < t.len() && t[i].0 == k;
                lemma_map_of_index(s, i);
            }
            if map_of(s).contains_key(k) {
                let i = choose|i: int| 0 <= i < s.len() && s[i].0 == k;
                lemma_map_of_index(t, i);
            }
            if k == item.0 {
                lemma_map_of_index(t, pos);
            }
        }
        assert forall|k: Seq<u8>| #[trigger] map_of(t).contains_key(k) implies map_of(t)[k] == map_of(s).insert(item.0, item.1)[k] by {
            let i = choose|i: int| 0 <= i < t.len() && t[i].0 == k;
            lemma_map_of_index(t, i);
            lemma_map_of_index(s, i);
            if i != pos {
                lemma_key_less_irreflexive(k);
                if i < pos {
                    assert(key_less(t[i].0, t[pos].0));
                } else {
                    assert(key_less(t[pos].0, t[i].0));
                }
            }
        }
        assert(map_of(t) =~= map_of(s).insert(item.0, item.1));
    }

    proof fn lemma_map_insert(&self, s: Seq<Item>, pos: int, item: Item)
        requires
            sorted(s),
            sorted(self.items()),
            0 <= pos <= s.len(),
            self.items() == s.insert(pos, item),
        ensures
            map_of(self.items()) == map_of(s).insert(item.0, item.1),
    {
        let t = self.items();
        assert forall|k: Seq<u8>| #[trigger] map_of(t).contains_key(k) <==> map_of(s).insert(item.0, item.1).contains_key(k) by {
            if map_of(t).contains_key(k) {
                let i = choose|i: int| 0 <= i < t.len() && t[i].0 == k;
                if i < pos {
                    lemma_map_of_index(s, i);
                } else if i > pos {
                    lemma_map_of_index(s, i - 1);
                }
            }
            if map_of(s).contains_key(k) {
                let i = choose|i: int| 0 <= i < s.len() && s[i].0 == k;
                if i < pos {
                    lemma_map_of_index(t, i);
                } else {
                    lemma_map_of_index(t, i + 1);
                }
            }
            if k == item.0 {
                lemma_map_of_index(t, pos);
            }
        }
        assert forall|k: Seq<u8>| #[trigger] map_of(t).contains_key(k) implies map_of(t)[k] == map_of(s).insert(item.0, item.1)[k] by {
            let i = choose|i: int| 0 <= i < t.len() && t[i].0 == k;
            lemma_map_of_index(t, i);
            lemma_key_less_irreflexive(k);
            if i < pos {
                lemma_map_of_index(s, i);
                assert(key_less(t[i].0, t[pos].0));
            } else if i > pos {
                lemma_map_of_index(s, i - 1);
                assert(key_less(t[pos].0, t[i].0));
            }
        }
        assert(map_of(t) =~= map_of(s).insert(item.0, item.1));
    }
}

} // verus!
