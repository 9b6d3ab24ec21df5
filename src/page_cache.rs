//! A bounded cache of fixed-size file pages.
//!
//! Pages are keyed by the file family, the table index and the page's byte
//! offset in the file. When the cache is full, inserting a new key evicts
//! the page that was inserted first. A miss is never an error: the caller
//! reads the page from disk and inserts it.

use vstd::prelude::*;

use crate::codec::PAGE_SIZE;

verus! {

/// The two files of a table.
#[derive(Debug, Clone, Copy, PartialEq, Eq, Structural)]
pub enum FileFamily {
    Data,
    Index,
}

/// Where a page lives: which file of which table, and at what offset.
#[derive(Debug, Clone, Copy, PartialEq, Eq, Structural)]
pub struct PageKey {
    pub family: FileFamily,
    pub table: usize,
    pub offset: u64,
}

/// The start of the page that holds byte `pos`.
pub open spec fn page_start(pos: int) -> int {
    pos - pos % (PAGE_SIZE as int)
}

/// Byte `pos` of a file, as the cache holds it, where its page is cached.
pub open spec fn cached_byte(m: Map<PageKey, Seq<u8>>, family: FileFamily, table: usize, pos: int) -> u8 {
    m[PageKey { family, table, offset: page_start(pos) as u64 }][pos % (PAGE_SIZE as int)]
}

/// Whether the page that holds byte `pos` of a file is cached.
pub open spec fn has_byte(m: Map<PageKey, Seq<u8>>, family: FileFamily, table: usize, pos: int) -> bool {
    m.contains_key(PageKey { family, table, offset: page_start(pos) as u64 })
}

/// The `len` bytes of a file at `offset`, if the cache holds every page
/// they touch.
pub open spec fn cached_range(
    m: Map<PageKey, Seq<u8>>,
    family: FileFamily,
    table: usize,
    offset: int,
    len: int,
) -> Option<Seq<u8>> {
    if forall|p: int| offset <= p < offset + len ==> #[trigger] has_byte(m, family, table, p) {
        Some(Seq::new(len as nat, |i: int| cached_byte(m, family, table, offset + i)))
    } else {
        None
    }
}

/// The outcome of a read through the cache.
#[derive(Debug)]
pub enum CachedRead {
    /// Every page the range touches was cached: these are its bytes.
    Bytes(Vec<u8>),
    /// This page is not cached: read it from disk, cache it, and retry.
    Missing(PageKey),
}

pub struct PageCache {
    capacity: usize,
    /// Pages in the order of their insertion, oldest first.
    slots: Vec<(PageKey, Vec<u8>)>,
    pages: Ghost<Map<PageKey, Seq<u8>>>,
}

impl View for PageCache {
    type V = Map<PageKey, Seq<u8>>;

    closed spec fn view(&self) -> Map<PageKey, Seq<u8>> {
        self.pages@
    }
}

impl PageCache {
    pub closed spec fn wf(&self) -> bool {
        &&& 1 <= self.capacity
        &&& self.slots@.len() <= self.capacity
        &&& forall|i: int, j: int|
            0 <= i < j < self.slots@.len() ==> #[trigger] self.slots@[i].0 != #[trigger] self.slots@[j].0
        &&& forall|i: int|
            0 <= i < self.slots@.len() ==> self.pages@.contains_key(#[trigger] self.slots@[i].0)
                && self.pages@[self.slots@[i].0] == self.slots@[i].1@
        &&& forall|k: PageKey|
            #[trigger] self.pages@.contains_key(k) ==> exists|i: int|
                0 <= i < self.slots@.len() && #[trigger] self.slots@[i].0 == k
        &&& forall|k: PageKey| #[trigger] self.pages@.contains_key(k) ==> self.pages@[k].len() == PAGE_SIZE
    }

    /// The most pages the cache holds.
    pub closed spec fn max_pages(&self) -> nat {
        self.capacity as nat
    }

    /// The page that the next eviction removes.
    pub closed spec fn oldest(&self) -> PageKey {
        self.slots@[0].0
    }

    /// An empty cache that holds at most `capacity` pages.
    pub fn new(capacity: usize) -> (r: Self)
        requires
            capacity >= 1,
        ensures
            r.wf(),
            r@ == Map::<PageKey, Seq<u8>>::empty(),
            r.max_pages() == capacity,
    {
        PageCache { capacity, slots: Vec::new(), pages: Ghost(Map::empty()) }
    }

    pub fn len(&self) -> (r: usize)
        requires
            self.wf(),
        ensures
            r == self@.len(),
    {
        proof { self.lemma_slots_len(); }
        self.slots.len()
    }

    proof fn lemma_slots_len(&self)
        requires
            self.wf(),
        ensures
            self@.dom().finite(),
            self@.len() == self.slots@.len(),
            self@.len() <= self.max_pages(),
            self@.len() >= 1 ==> self@.contains_key(self.oldest()),
    {
        let keys = self.slots@.map_values(|s: (PageKey, Vec<u8>)| s.0);
        assert(keys.no_duplicates());
        assert(keys.to_set() =~= self.pages@.dom()) by {
            assert forall|k: PageKey| #[trigger] self.pages@.contains_key(k) implies keys.to_set().contains(k) by {
                let i = choose|i: int| 0 <= i < self.slots@.len() && #[trigger] self.slots@[i].0 == k;
                assert(keys[i] == k);
            }
        }
        keys.unique_seq_to_set();
        vstd::seq_lib::seq_to_set_is_finite(keys);
    }

    fn find(&self, key: &PageKey) -> (r: Option<usize>)
        requires
            self.wf(),
        ensures
            r matches Some(i) ==> i < self.slots@.len() && self.slots@[i as int].0 == *key,
            r is None ==> !self@.contains_key(*key),
    {
        let mut i: usize = 0;
        while i < self.slots.len()
            invariant
                self.wf(),
                i <= self.slots@.len(),
                forall|j: int| 0 <= j < i ==> self.slots@[j].0 != *key,
            decreases self.slots@.len() - i,
        {
            if self.slots[i].0 == *key {
                return Some(i);
            }
            i = i + 1;
        }
        None
    }

    /// The page cached under `key`, if any.
    pub fn get(&self, key: &PageKey) -> (r: Option<Vec<u8>>)
        requires
            self.wf(),
        ensures
            r matches Some(p) ==> self@.contains_key(*key) && p@ == self@[*key],
            r is None ==> !self@.contains_key(*key),
    {
        match self.find(key) {
            Some(i) => Some(self.slots[i].1.clone()),
            None => None,
        }
    }

    /// Caches `page` under `key`, replacing what was cached there. A new key
    /// in a full cache evicts the oldest page.
    pub fn set(&mut self, key: PageKey, page: Vec<u8>)
        requires
            old(self).wf(),
            page@.len() == PAGE_SIZE,
        ensures
            final(self).wf(),
            final(self).max_pages() == old(self).max_pages(),
            old(self)@.contains_key(key) || old(self)@.len() < old(self).max_pages()
                ==> final(self)@ == old(self)@.insert(key, page@),
            !old(self)@.contains_key(key) && old(self)@.len() == old(self).max_pages()
                ==> final(self)@ == old(self)@.remove(old(self).oldest()).insert(key, page@),
    {
        proof { self.lemma_slots_len(); }
        let ghost page_view = page@;
        match self.find(&key) {
            Some(i) => {
                self.slots.set(i, (key, page));
                self.pages = Ghost(self.pages@.insert(key, page_view));
                assert(self.pages@ =~= old(self)@.insert(key, page_view));
                assert forall|k: PageKey| #[trigger] self.pages@.contains_key(k) implies exists|j: int|
                    0 <= j < self.slots@.len() && #[trigger] self.slots@[j].0 == k by {
                    let j = choose|j: int| 0 <= j < old(self).slots@.len() && #[trigger] old(self).slots@[j].0 == k;
                    assert(self.slots@[j].0 == k);
                }
            },
            None => {
                if self.slots.len() == self.capacity {
                    let ghost victim = self.slots@[0].0;
                    self.slots.remove(0);
                    self.pages = Ghost(self.pages@.remove(victim));
                    assert forall|k: PageKey| #[trigger] self.pages@.contains_key(k) implies exists|i: int|
                        0 <= i < self.slots@.len() && #[trigger] self.slots@[i].0 == k by {
                        let i = choose|i: int| 0 <= i < old(self).slots@.len() && #[trigger] old(self).slots@[i].0 == k;
                        assert(self.slots@[i - 1].0 == k);
                    }
                }
                let ghost mid = self.slots@;
                assert forall|j: int| 0 <= j < mid.len() implies #[trigger] mid[j].0 != key by {
                    assert(old(self)@.contains_key(mid[j].0));
                }
                self.slots.push((key, page));
                self.pages = Ghost(self.pages@.insert(key, page_view));
                assert forall|k: PageKey| #[trigger] self.pages@.contains_key(k) implies exists|i: int|
                    0 <= i < self.slots@.len() && #[trigger] self.slots@[i].0 == k by {
                    if k == key {
                        assert(self.slots@[mid.len() as int].0 == k);
                    } else {
                        let i = choose|i: int| 0 <= i < mid.len() && #[trigger] mid[i].0 == k;
                        assert(self.slots@[i].0 == k);
                    }
                }
            },
        }
    }

    /// Drops every cached page of table `table`.
    pub fn invalidate_table(&mut self, table: usize)
        requires
            old(self).wf(),
        ensures
            final(self).wf(),
            final(self).max_pages() == old(self).max_pages(),
            final(self)@ == old(self)@.restrict(old(self)@.dom().filter(|k: PageKey| k.table != table)),
            final(self)@.len() <= old(self)@.len(),
    {
        proof { self.lemma_slots_len(); }
        let ghost keep = self.pages@.dom().filter(|k: PageKey| k.table != table);
        let mut kept: Vec<(PageKey, Vec<u8>)> = Vec::new();
        let mut i: usize = 0;
        while i < self.slots.len()
            invariant
                self.wf(),
                self == old(self),
                i <= self.slots@.len(),
                kept@.len() <= i,
                forall|a: int, b: int| 0 <= a < b < kept@.len() ==> #[trigger] kept@[a].0 != #[trigger] kept@[b].0,
                forall|a: int| 0 <= a < kept@.len() ==> exists|j: int| 0 <= j < i && #[trigger] kept@[a].0 == self.slots@[j].0 && kept@[a].1@ == self.slots@[j].1@,
                forall|a: int| 0 <= a < kept@.len() ==> (#[trigger] kept@[a]).0.table != table,
                forall|j: int| 0 <= j < i && (#[trigger] self.slots@[j]).0.table != table ==> exists|a: int| 0 <= a < kept@.len() && kept@[a].0 == self.slots@[j].0,
            decreases self.slots@.len() - i,
        {
            if self.slots[i].0.table != table {
                let ghost before = kept@;
                let key = self.slots[i].0;
                let page = self.slots[i].1.clone();
                kept.push((key, page));
                proof {
                    assert forall|a: int, b: int| 0 <= a < b < kept@.len() implies #[trigger] kept@[a].0 != #[trigger] kept@[b].0 by {
                        if b == before.len() {
                            let j = choose|j: int| 0 <= j < i && #[trigger] before[a].0 == self.slots@[j].0 && before[a].1@ == self.slots@[j].1@;
                        } else {
                            assert(kept@[a] == before[a] && kept@[b] == before[b]);
                        }
                    }
                    assert forall|a: int| 0 <= a < kept@.len() implies exists|j: int| 0 <= j < i + 1 && #[trigger] kept@[a].0 == self.slots@[j].0 && kept@[a].1@ == self.slots@[j].1@ by {
                        if a < before.len() {
                            assert(kept@[a] == before[a]);
                        } else {
                            assert(kept@[a].0 == self.slots@[i as int].0);
                        }
                    }
                    assert forall|j: int| 0 <= j < i + 1 && (#[trigger] self.slots@[j]).0.table != table implies exists|a: int| 0 <= a < kept@.len() && kept@[a].0 == self.slots@[j].0 by {
                        if j < i {
                            let a = choose|a: int| 0 <= a < before.len() && before[a].0 == self.slots@[j].0;
                            assert(kept@[a] == before[a]);
                        } else {
                            assert(kept@[before.len() as int].0 == self.slots@[j].0);
                        }
                    }
                }
            }
            i = i + 1;
        }
        let ghost new_pages = self.pages@.restrict(keep);
        self.slots = kept;
        self.pages = Ghost(new_pages);
        proof {
            assert forall|a: int| 0 <= a < self.slots@.len() implies self.pages@.contains_key(#[trigger] self.slots@[a].0)
                && self.pages@[self.slots@[a].0] == self.slots@[a].1@ by {
                let j = choose|j: int| 0 <= j < old(self).slots@.len() && #[trigger] self.slots@[a].0 == old(self).slots@[j].0 && self.slots@[a].1@ == old(self).slots@[j].1@;
            }
            assert forall|k: PageKey| #[trigger] self.pages@.contains_key(k) implies exists|a: int|
                0 <= a < self.slots@.len() && #[trigger] self.slots@[a].0 == k by {
                let j = choose|j: int| 0 <= j < old(self).slots@.len() && #[trigger] old(self).slots@[j].0 == k;
                let a = choose|a: int| 0 <= a < self.slots@.len() && self.slots@[a].0 == old(self).slots@[j].0;
            }
            self.lemma_slots_len();
        }
    }

    /// The cache never holds more than its capacity, and a non-empty cache
    /// holds the page that the next eviction removes.
    pub proof fn lemma_len(&self)
        requires
            self.wf(),
        ensures
            self@.dom().finite(),
            self@.len() <= self.max_pages(),
            self@.len() >= 1 ==> self@.contains_key(self.oldest()),
    {
        self.lemma_slots_len();
    }

    /// Reads `len` bytes of a file at `offset`, assembled from cached
    /// pages, or names the first page that the cache lacks.
    pub fn read_at(&self, family: FileFamily, table: usize, offset: u64, len: u64) -> (r: CachedRead)
        requires
            self.wf(),
            offset + len + PAGE_SIZE <= u64::MAX,
        ensures
            r matches CachedRead::Bytes(v) ==> {
                &&& v@.len() == len
                &&& forall|p: int| offset <= p < offset + len ==> #[trigger] has_byte(self@, family, table, p)
                &&& forall|i: int| 0 <= i < len ==> #[trigger] v@[i] == cached_byte(self@, family, table, offset + i)
                &&& cached_range(self@, family, table, offset as int, len as int) == Some(v@)
            },
            r matches CachedRead::Missing(k) ==> !self@.contains_key(k) && k.family == family
                && k.table == table && k.offset % (PAGE_SIZE as u64) == 0 && offset <= k.offset + PAGE_SIZE
                && k.offset < offset + len,
    {
        let end = offset + len;
        let mut out: Vec<u8> = Vec::new();
        let mut pos = offset;
        while pos < end
            invariant
                self.wf(),
                end == offset + len,
                offset + len + PAGE_SIZE <= u64::MAX,
                offset <= pos <= end,
                out@.len() == pos - offset,
                forall|p: int| offset <= p < offset + out@.len() ==> #[trigger] has_byte(self@, family, table, p),
                forall|i: int| 0 <= i < out@.len() ==> #[trigger] out@[i] == cached_byte(self@, family, table, offset + i),
            decreases end - pos,
        {
            let page_offset = pos - pos % (PAGE_SIZE as u64);
            let key = PageKey { family, table, offset: page_offset };
            let page = match self.get(&key) {
                Some(p) => p,
                None => {
                    return CachedRead::Missing(key);
                },
            };
            let stop = if end < page_offset + PAGE_SIZE as u64 {
                end
            } else {
                page_offset + PAGE_SIZE as u64
            };
            let mut j = pos;
            while j < stop
                invariant
                    self.wf(),
                    end == offset + len,
                    offset <= pos <= j <= stop <= end,
                    page_offset <= pos,
                    stop <= page_offset + PAGE_SIZE,
                    page_offset % (PAGE_SIZE as u64) == 0,
                    key == (PageKey { family, table, offset: page_offset }),
                    self@.contains_key(key),
                    page@ == self@[key],
                    out@.len() == j - offset,
                    forall|p: int| offset <= p < offset + out@.len() ==> #[trigger] has_byte(self@, family, table, p),
                    forall|i: int| 0 <= i < out@.len() ==> #[trigger] out@[i] == cached_byte(self@, family, table, offset + i),
                decreases stop - j,
            {
                proof {
                    assert(page_start(j as int) == page_offset) by (nonlinear_arith)
                        requires
                            page_offset <= j < page_offset + 4096,
                            page_offset % 4096 == 0,
                    ;
                }
                out.push(page[(j - page_offset) as usize]);
                j = j + 1;
            }
            pos = stop;
        }
        assert(out@ =~= Seq::new(len as nat, |i: int| cached_byte(self@, family, table, offset + i)));
        CachedRead::Bytes(out)
    }
}

} // verus!
