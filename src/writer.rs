//! The table writer: encodes entries for the data and index files of one
//! table, and mirrors every byte it hands out into the page cache, so that a
//! table just written can be read without touching the disk.

use vstd::prelude::*;

use crate::codec::{encode_entry, encode_offset, encoded, entry_size, lemma_entry_bytes_len, lemma_offset_bytes_len, offset_bytes, Entry, INDEX_ENTRY_SIZE, PAGE_SIZE};
use crate::error::Result;
use crate::memtable::Item;
use crate::page_cache::{FileFamily, PageCache, PageKey};

verus! {

/// The page of a file that starts at `start`, where the file holds `s`;
/// bytes past its end read as zero.
pub open spec fn page_bytes(s: Seq<u8>, start: int) -> Seq<u8> {
    Seq::new(PAGE_SIZE as nat, |i: int| if start + i < s.len() { s[start + i] } else { 0u8 })
}

/// Whether the cache holds nothing of the given file but pages of `s`, each
/// aligned, and, unless `closed`, each full.
pub open spec fn coherent(
    cache: Map<PageKey, Seq<u8>>,
    family: FileFamily,
    table: usize,
    s: Seq<u8>,
    closed: bool,
) -> bool {
    forall|k: PageKey|
        #[trigger] cache.contains_key(k) && k.family == family && k.table == table ==> {
            &&& k.offset % (PAGE_SIZE as u64) == 0
            &&& k.offset < s.len()
            &&& (closed || k.offset + PAGE_SIZE <= s.len())
            &&& cache[k] == page_bytes(s, k.offset as int)
        }
}

/// Whether the cache holds every page of the file that holds `s`: every
/// page with a byte in it once the file is `closed`, else every full one.
pub open spec fn mirrored(
    cache: Map<PageKey, Seq<u8>>,
    family: FileFamily,
    table: usize,
    s: Seq<u8>,
    closed: bool,
) -> bool {
    forall|p: u64|
        p % (PAGE_SIZE as u64) == 0 && (if closed { p < s.len() } else { p + PAGE_SIZE <= s.len() })
            ==> #[trigger] cache.contains_key(PageKey { family, table, offset: p })
}

/// Whether the cache holds no page of the given table.
pub open spec fn table_absent(cache: Map<PageKey, Seq<u8>>, table: usize) -> bool {
    forall|k: PageKey| #[trigger] cache.contains_key(k) ==> k.table != table
}

/// The number of pages a file of `len` bytes takes.
pub open spec fn pages_for(len: int) -> int {
    (len + PAGE_SIZE - 1) / PAGE_SIZE as int
}

/// The data file of a table holding `items`: their encodings, one after
/// the other.
pub open spec fn data_of(items: Seq<Item>) -> Seq<u8>
    decreases items.len(),
{
    if items.len() == 0 {
        Seq::empty()
    } else {
        data_of(items.drop_last()) + encoded(items.last().0, items.last().1)
    }
}

/// The index file of a table holding `items`: for each, where its encoding
/// starts in the data file and how long it is.
pub open spec fn index_of(items: Seq<Item>) -> Seq<u8>
    decreases items.len(),
{
    if items.len() == 0 {
        Seq::empty()
    } else {
        index_of(items.drop_last()) + offset_bytes(
            data_of(items.drop_last()).len() as u64,
            encoded(items.last().0, items.last().1).len() as u64,
        )
    }
}

/// Whether the two files of a table holding `items` fit below the largest
/// offset, with room to spare.
pub open spec fn fits(items: Seq<Item>) -> bool {
    data_of(items).len() + index_of(items).len() + 4 * PAGE_SIZE <= u64::MAX
}

/// The files of a table only grow as entries are added.
pub proof fn lemma_layout_prefix(items: Seq<Item>, j: int)
    requires
        0 <= j <= items.len(),
    ensures
        data_of(items.take(j)).len() <= data_of(items).len(),
        index_of(items.take(j)).len() <= index_of(items).len(),
    decreases items.len(),
{
    if j == items.len() {
        assert(items.take(j) =~= items);
    } else {
        let rest = items.drop_last();
        assert(rest.take(j) =~= items.take(j));
        lemma_layout_prefix(rest, j);
    }
}

/// An index file holds one fixed-size record per entry.
pub proof fn lemma_index_size(items: Seq<Item>)
    ensures
        index_of(items).len() == items.len() * INDEX_ENTRY_SIZE,
    decreases items.len(),
{
    if items.len() > 0 {
        lemma_index_size(items.drop_last());
        lemma_offset_bytes_len(
            data_of(items.drop_last()).len() as u64,
            encoded(items.last().0, items.last().1).len() as u64,
        );
    }
}

/// The bytes of one file in the making, with the page that is not full yet.
struct PageMirror {
    family: FileFamily,
    table: usize,
    buf: Vec<u8>,
    written: u64,
    stream: Ghost<Seq<u8>>,
}

impl PageMirror {
    spec fn inv(&self, cache: &PageCache, closed: bool) -> bool {
        &&& cache.wf()
        &&& self.written == self.stream@.len()
        &&& self.buf@ == page_bytes(self.stream@, self.written as int - (self.written as int) % (PAGE_SIZE as int))
        &&& coherent(cache@, self.family, self.table, self.stream@, closed)
    }

    fn new(family: FileFamily, table: usize) -> (r: Self)
        ensures
            r.family == family,
            r.table == table,
            r.stream@ == Seq::<u8>::empty(),
            r.written == 0,
            r.buf@ == page_bytes(Seq::<u8>::empty(), 0),
    {
        let buf = vec![0u8; PAGE_SIZE];
        assert(buf@ =~= page_bytes(Seq::<u8>::empty(), 0));
        PageMirror { family, table, buf, written: 0, stream: Ghost(Seq::empty()) }
    }

    spec fn key_at(&self, offset: int) -> PageKey {
        PageKey { family: self.family, table: self.table, offset: offset as u64 }
    }

    /// Appends one byte to the file; a page that fills up goes to the cache.
    fn push_byte(&mut self, cache: &mut PageCache, b: u8)
        requires
            old(self).inv(old(cache), false),
            old(self).written + PAGE_SIZE < u64::MAX,
        ensures
            final(self).inv(final(cache), false),
            final(self).family == old(self).family,
            final(self).table == old(self).table,
            final(self).stream@ == old(self).stream@.push(b),
            final(cache).max_pages() == old(cache).max_pages(),
            (old(self).written + 1) % (PAGE_SIZE as int) != 0 ==> final(cache)@ == old(cache)@,
            (old(self).written + 1) % (PAGE_SIZE as int) == 0 ==> {
                let k = old(self).key_at(old(self).written + 1 - PAGE_SIZE);
                let v = page_bytes(final(self).stream@, old(self).written + 1 - PAGE_SIZE);
                &&& !old(cache)@.contains_key(k)
                &&& old(cache)@.len() < old(cache).max_pages() ==> final(cache)@ == old(cache)@.insert(k, v)
                &&& old(cache)@.len() == old(cache).max_pages() ==> final(cache)@ == old(cache)@.remove(old(cache).oldest()).insert(k, v)
            },
    {
        let ghost s0 = self.stream@;
        let ghost s1 = s0.push(b);
        let ghost start = self.written as int - (self.written as int) % (PAGE_SIZE as int);
        let pos = (self.written % PAGE_SIZE as u64) as usize;
        self.buf.set(pos, b);
        self.written = self.written + 1;
        self.stream = Ghost(s1);
        assert(self.buf@ =~= page_bytes(s1, start));
        if self.written % PAGE_SIZE as u64 == 0 {
            let key = PageKey { family: self.family, table: self.table, offset: self.written - PAGE_SIZE as u64 };
            assert(start == self.written - PAGE_SIZE);
            proof {
                cache.lemma_len();
                if cache@.contains_key(key) {
                    assert(key.offset + PAGE_SIZE <= s0.len());
                }
            }
            let page = self.buf.clone();
            self.buf = vec![0u8; PAGE_SIZE];
            cache.set(key, page);
            assert(self.buf@ =~= page_bytes(s1, self.written as int));
            assert forall|k: PageKey|
                #[trigger] cache@.contains_key(k) && k.family == self.family && k.table == self.table implies {
                    &&& k.offset % (PAGE_SIZE as u64) == 0
                    &&& k.offset < s1.len()
                    &&& k.offset + PAGE_SIZE <= s1.len()
                    &&& cache@[k] == page_bytes(s1, k.offset as int)
                } by {
                if k != key {
                    assert(old(cache)@.contains_key(k));
                    assert(page_bytes(s1, k.offset as int) =~= page_bytes(s0, k.offset as int));
                }
            }
        } else {
            assert forall|k: PageKey|
                #[trigger] cache@.contains_key(k) && k.family == self.family && k.table == self.table implies {
                    &&& k.offset % (PAGE_SIZE as u64) == 0
                    &&& k.offset < s1.len()
                    &&& k.offset + PAGE_SIZE <= s1.len()
                    &&& cache@[k] == page_bytes(s1, k.offset as int)
                } by {
                assert(page_bytes(s1, k.offset as int) =~= page_bytes(s0, k.offset as int));
            }
        }
    }

    /// Appends `bytes` to the file, sending each page that fills up to the
    /// cache.
    fn push_bytes(&mut self, cache: &mut PageCache, bytes: &Vec<u8>)
        requires
            old(self).inv(old(cache), false),
            old(self).written + bytes@.len() + PAGE_SIZE < u64::MAX,
        ensures
            final(self).inv(final(cache), false),
            final(self).family == old(self).family,
            final(self).table == old(self).table,
            final(self).stream@ == old(self).stream@ + bytes@,
            final(cache).max_pages() == old(cache).max_pages(),
            forall|k: PageKey|
                #[trigger] final(cache)@.contains_key(k) && k.family != old(self).family ==> old(cache)@.contains_key(k)
                    && final(cache)@[k] == old(cache)@[k],
            old(cache)@.len() + (final(self).written as int) / (PAGE_SIZE as int) - (old(self).written as int) / (PAGE_SIZE as int)
                <= old(cache).max_pages() ==> {
                &&& final(cache)@.len() == old(cache)@.len() + (final(self).written as int) / (PAGE_SIZE as int)
                    - (old(self).written as int) / (PAGE_SIZE as int)
                &&& forall|k: PageKey| #[trigger] old(cache)@.contains_key(k) ==> final(cache)@.contains_key(k)
                &&& mirrored(old(cache)@, old(self).family, old(self).table, old(self).stream@, false)
                    ==> mirrored(final(cache)@, old(self).family, old(self).table, final(self).stream@, false)
            },
    {
        let ghost c0 = cache@;
        let ghost w0 = self.written as int;
        let ghost s0 = self.stream@;
        let mut j: usize = 0;
        while j < bytes.len()
            invariant
                self.inv(cache, false),
                self.family == old(self).family,
                self.table == old(self).table,
                j <= bytes@.len(),
                self.written == w0 + j,
                self.stream@ == s0 + bytes@.subrange(0, j as int),
                w0 == old(self).written,
                s0 == old(self).stream@,
                c0 == old(cache)@,
                old(self).written + bytes@.len() + PAGE_SIZE < u64::MAX,
                cache.max_pages() == old(cache).max_pages(),
                forall|k: PageKey|
                    #[trigger] cache@.contains_key(k) && k.family != self.family ==> c0.contains_key(k)
                        && cache@[k] == c0[k],
                c0.len() + (w0 + bytes@.len()) / (PAGE_SIZE as int) - w0 / (PAGE_SIZE as int) <= cache.max_pages() ==> {
                    &&& cache@.len() == c0.len() + (self.written as int) / (PAGE_SIZE as int) - w0 / (PAGE_SIZE as int)
                    &&& forall|k: PageKey| #[trigger] c0.contains_key(k) ==> cache@.contains_key(k)
                    &&& mirrored(c0, self.family, self.table, s0, false)
                        ==> mirrored(cache@, self.family, self.table, self.stream@, false)
                },
            decreases bytes@.len() - j,
        {
            let ghost before = cache@;
            let ghost w = self.written as int;
            assert(w == w0 + j);
            proof { cache.lemma_len(); }
            self.push_byte(cache, bytes[j]);
            assert(bytes@.subrange(0, j + 1) =~= bytes@.subrange(0, j as int).push(bytes@[j as int]));
            proof {
                assert((w + 1) / 4096 <= (w0 + bytes@.len()) / 4096) by (nonlinear_arith)
                    requires w + 1 <= w0 + bytes@.len();
                if (w + 1) % 4096 == 0 {
                    assert((w + 1) / 4096 == w / 4096 + 1) by (nonlinear_arith)
                        requires (w + 1) % 4096 == 0, w >= 0;
                } else {
                    assert((w + 1) / 4096 == w / 4096) by (nonlinear_arith)
                        requires (w + 1) % 4096 != 0, w >= 0;
                }
                if c0.len() + (w0 + bytes@.len()) / (PAGE_SIZE as int) - w0 / (PAGE_SIZE as int) <= cache.max_pages() {
                    if mirrored(c0, self.family, self.table, s0, false) {
                        assert forall|p: u64|
                            p % (PAGE_SIZE as u64) == 0 && p + PAGE_SIZE <= self.stream@.len()
                                implies #[trigger] cache@.contains_key(PageKey { family: self.family, table: self.table, offset: p }) by {
                            if p + PAGE_SIZE <= w {
                                assert(before.contains_key(PageKey { family: self.family, table: self.table, offset: p }));
                            } else {
                                assert(p == w + 1 - PAGE_SIZE);
                            }
                        }
                    }
                }
            }
            j = j + 1;
        }
        assert(bytes@.subrange(0, j as int) =~= bytes@);
    }

    /// Sends the last page to the cache, if it is not full.
    fn close(&mut self, cache: &mut PageCache)
        requires
            old(self).inv(old(cache), false),
        ensures
            final(self).inv(final(cache), true),
            final(self).family == old(self).family,
            final(self).table == old(self).table,
            final(self).stream@ == old(self).stream@,
            final(self).written == old(self).written,
            final(cache).max_pages() == old(cache).max_pages(),
            forall|k: PageKey|
                #[trigger] final(cache)@.contains_key(k) && k.family != old(self).family ==> old(cache)@.contains_key(k)
                    && final(cache)@[k] == old(cache)@[k],
            old(cache)@.len() + pages_for(old(self).written as int) - (old(self).written as int) / (PAGE_SIZE as int)
                <= old(cache).max_pages() ==> {
                &&& final(cache)@.len() == old(cache)@.len() + pages_for(old(self).written as int)
                    - (old(self).written as int) / (PAGE_SIZE as int)
                &&& forall|k: PageKey| #[trigger] old(cache)@.contains_key(k) ==> final(cache)@.contains_key(k)
                &&& mirrored(old(cache)@, old(self).family, old(self).table, old(self).stream@, false)
                    ==> mirrored(final(cache)@, old(self).family, old(self).table, final(self).stream@, true)
            },
    {
        let ghost w = self.written as int;
        let ghost s0 = self.stream@;
        let left = self.written % PAGE_SIZE as u64;
        proof { cache.lemma_len(); }
        if left != 0 {
            let key = PageKey { family: self.family, table: self.table, offset: self.written - left };
            proof {
                if cache@.contains_key(key) {
                    assert(key.offset + PAGE_SIZE <= s0.len());
                }
                assert(pages_for(w) == w / 4096 + 1) by (nonlinear_arith)
                    requires w % 4096 != 0, w >= 0;
            }
            cache.set(key, self.buf.clone());
            proof {
                if old(cache)@.len() + pages_for(w) - w / (PAGE_SIZE as int) <= old(cache).max_pages() {
                    if mirrored(old(cache)@, self.family, self.table, s0, false) {
                        assert forall|p: u64| p % (PAGE_SIZE as u64) == 0 && p < s0.len()
                            implies #[trigger] cache@.contains_key(PageKey { family: self.family, table: self.table, offset: p }) by {
                            if p + PAGE_SIZE <= w {
                                assert(old(cache)@.contains_key(PageKey { family: self.family, table: self.table, offset: p }));
                            } else {
                                assert(p == w - left);
                            }
                        }
                    }
                }
            }
        } else {
            proof {
                assert(pages_for(w) == w / 4096) by (nonlinear_arith)
                    requires w % 4096 == 0, w >= 0;
            }
        }
    }
}

/// Writes the entries of one table, in ascending order of key, and mirrors
/// both files into the page cache as they grow.
pub struct EntryWriter {
    files_index: usize,
    data: PageMirror,
    index: PageMirror,
    closed: bool,
    start_len: Ghost<nat>,
    items: Ghost<Seq<Item>>,
}

impl EntryWriter {
    /// The table being written.
    pub closed spec fn table(&self) -> usize {
        self.files_index
    }

    /// The entries written so far.
    pub closed spec fn items(&self) -> Seq<Item> {
        self.items@
    }

    pub closed spec fn is_closed(&self) -> bool {
        self.closed
    }

    /// How many pages the cache held when writing began.
    pub closed spec fn start_len(&self) -> nat {
        self.start_len@
    }

    /// The number of bytes of the data file so far.
    pub closed spec fn data_len(&self) -> int {
        self.data.written as int
    }

    /// The number of bytes of the index file so far.
    pub closed spec fn index_len(&self) -> int {
        self.index.written as int
    }

    spec fn pages_sent(&self) -> int {
        if self.closed {
            pages_for(self.data.written as int) + pages_for(self.index.written as int)
        } else {
            (self.data.written as int) / (PAGE_SIZE as int) + (self.index.written as int) / (PAGE_SIZE as int)
        }
    }

    pub closed spec fn inv(&self, cache: &PageCache) -> bool {
        &&& self.data.family == FileFamily::Data
        &&& self.index.family == FileFamily::Index
        &&& self.data.table == self.files_index
        &&& self.index.table == self.files_index
        &&& self.data.inv(cache, self.closed)
        &&& self.index.inv(cache, self.closed)
        &&& self.data.stream@ == data_of(self.items@)
        &&& self.index.stream@ == index_of(self.items@)
        &&& self.start_len@ + self.pages_sent() <= cache.max_pages() ==> {
            &&& cache@.len() == self.start_len@ + self.pages_sent()
            &&& mirrored(cache@, FileFamily::Data, self.files_index, self.data.stream@, self.closed)
            &&& mirrored(cache@, FileFamily::Index, self.files_index, self.index.stream@, self.closed)
        }
    }

    /// What the writer guarantees of the cache at every step: each cached
    /// page of the table equals the bytes of the file at its offset, and
    /// the files are laid out as `data_of` and `index_of` say.
    pub proof fn lemma_inv(&self, cache: &PageCache)
        requires
            self.inv(cache),
        ensures
            cache.wf(),
            self.data_len() == data_of(self.items()).len(),
            self.index_len() == index_of(self.items()).len(),
            self.index_len() == self.items().len() * INDEX_ENTRY_SIZE,
            coherent(cache@, FileFamily::Data, self.table(), data_of(self.items()), self.is_closed()),
            coherent(cache@, FileFamily::Index, self.table(), index_of(self.items()), self.is_closed()),
    {
        lemma_index_size(self.items@);
    }

    /// The number of bytes of the data file so far.
    pub fn data_written(&self) -> (r: u64)
        ensures
            r == self.data_len(),
    {
        self.data.written
    }

    /// The number of bytes of the index file so far.
    pub fn index_written(&self) -> (r: u64)
        ensures
            r == self.index_len(),
    {
        self.index.written
    }

    /// A writer for table `files_index`, of which the cache holds no page.
    pub fn new(files_index: usize, cache: &PageCache) -> (r: Self)
        requires
            cache.wf(),
            table_absent(cache@, files_index),
        ensures
            r.inv(cache),
            r.table() == files_index,
            r.items() == Seq::<Item>::empty(),
            !r.is_closed(),
            r.start_len() == cache@.len(),
    {
        proof { cache.lemma_len(); }
        let r = EntryWriter {
            files_index,
            data: PageMirror::new(FileFamily::Data, files_index),
            index: PageMirror::new(FileFamily::Index, files_index),
            closed: false,
            start_len: Ghost(cache@.len()),
            items: Ghost(Seq::empty()),
        };
        assert(data_of(Seq::<Item>::empty()) =~= Seq::<u8>::empty());
        assert(index_of(Seq::<Item>::empty()) =~= Seq::<u8>::empty());
        r
    }

    /// Encodes `entry` for both files, mirrors the bytes into the cache, and
    /// returns them: the data record and the index record, for the caller
    /// to append to the two files.
    pub fn write(&mut self, cache: &mut PageCache, entry: &Entry) -> (r: Result<(Vec<u8>, Vec<u8>)>)
        requires
            old(self).inv(old(cache)),
            !old(self).is_closed(),
            old(self).data_len() + entry_size(entry.key@, entry.value.data@) + PAGE_SIZE < u64::MAX,
            old(self).index_len() + INDEX_ENTRY_SIZE + PAGE_SIZE < u64::MAX,
        ensures
            final(self).inv(final(cache)),
            final(self).table() == old(self).table(),
            final(self).start_len() == old(self).start_len(),
            final(cache).max_pages() == old(cache).max_pages(),
            !final(self).is_closed(),
            r is Err ==> final(self).items() == old(self).items() && final(cache)@ == old(cache)@,
            r is Ok,
            r is Ok ==> final(self).items() == old(self).items().push((entry.key@, entry.value@)),
            r matches Ok(t) ==> t.0@ == encoded(entry.key@, entry.value@) && t.1@ == offset_bytes(
                old(self).data_len() as u64,
                t.0@.len() as u64,
            ),
    {
        let data_encoded = encode_entry(&entry.key, &entry.value.data, entry.value.timestamp)?;
        proof { lemma_entry_bytes_len(entry.key@, entry.value.data@, entry.value.timestamp); }
        let size = data_encoded.len() as u64;
        let index_encoded = encode_offset(self.data.written, size)?;
        proof { lemma_offset_bytes_len(self.data.written, size); }
        let ghost item: Item = (entry.key@, entry.value@);
        let ghost c0 = cache@;
        self.data.push_bytes(cache, &data_encoded);
        let ghost c1 = cache@;
        assert(coherent(c1, FileFamily::Index, self.files_index, self.index.stream@, false)) by {
            assert forall|k: PageKey|
                #[trigger] c1.contains_key(k) && k.family == FileFamily::Index && k.table == self.files_index implies
                    c0.contains_key(k) by {
            }
        }
        self.index.push_bytes(cache, &index_encoded);
        let ghost c2 = cache@;
        assert(coherent(c2, FileFamily::Data, self.files_index, self.data.stream@, false)) by {
            assert forall|k: PageKey|
                #[trigger] c2.contains_key(k) && k.family == FileFamily::Data && k.table == self.files_index implies
                    c1.contains_key(k) by {
            }
        }
        proof {
            let dw0 = old(self).data.written as int;
            let dw1 = self.data.written as int;
            let iw0 = old(self).index.written as int;
            let iw1 = self.index.written as int;
            assert(dw0 / 4096 <= dw1 / 4096) by (nonlinear_arith)
                requires dw0 <= dw1;
            assert(iw0 / 4096 <= iw1 / 4096) by (nonlinear_arith)
                requires iw0 <= iw1;
            if self.start_len@ + dw1 / 4096 + iw1 / 4096 <= cache.max_pages() {
                assert(mirrored(c1, FileFamily::Index, self.files_index, old(self).index.stream@, false)) by {
                    assert forall|p: u64|
                        p % (PAGE_SIZE as u64) == 0 && p + PAGE_SIZE <= old(self).index.stream@.len() implies
                        #[trigger] c1.contains_key(PageKey { family: FileFamily::Index, table: self.files_index, offset: p }) by {
                        assert(c0.contains_key(PageKey { family: FileFamily::Index, table: self.files_index, offset: p }));
                    }
                }
                assert(mirrored(c2, FileFamily::Data, self.files_index, self.data.stream@, false)) by {
                    assert forall|p: u64|
                        p % (PAGE_SIZE as u64) == 0 && p + PAGE_SIZE <= self.data.stream@.len() implies
                        #[trigger] c2.contains_key(PageKey { family: FileFamily::Data, table: self.files_index, offset: p }) by {
                        assert(c1.contains_key(PageKey { family: FileFamily::Data, table: self.files_index, offset: p }));
                    }
                }
            }
        }
        let ghost new_items = self.items@.push(item);
        proof {
            assert(new_items.drop_last() =~= self.items@);
            assert(data_of(new_items) == data_of(self.items@) + data_encoded@);
            assert(index_of(new_items) == index_of(self.items@) + index_encoded@);
        }
        self.items = Ghost(new_items);
        Ok((data_encoded, index_encoded))
    }

    /// Sends the last page of each file to the cache.
    pub fn close(&mut self, cache: &mut PageCache)
        requires
            old(self).inv(old(cache)),
            !old(self).is_closed(),
        ensures
            final(self).inv(final(cache)),
            final(self).is_closed(),
            final(self).table() == old(self).table(),
            final(self).items() == old(self).items(),
            final(self).start_len() == old(self).start_len(),
            final(cache).max_pages() == old(cache).max_pages(),
    {
        let ghost c0 = cache@;
        self.data.close(cache);
        let ghost c1 = cache@;
        self.index.close(cache);
        let ghost c2 = cache@;
        self.closed = true;
        proof {
            let dw = self.data.written as int;
            let iw = self.index.written as int;
            assert(dw / 4096 <= pages_for(dw) && iw / 4096 <= pages_for(iw)) by (nonlinear_arith)
                requires dw >= 0, iw >= 0;
            if self.start_len@ + pages_for(dw) + pages_for(iw) <= cache.max_pages() {
                assert(mirrored(c1, FileFamily::Index, self.files_index, self.index.stream@, false)) by {
                    assert forall|p: u64|
                        p % (PAGE_SIZE as u64) == 0 && p + PAGE_SIZE <= self.index.stream@.len() implies
                        #[trigger] c1.contains_key(PageKey { family: FileFamily::Index, table: self.files_index, offset: p }) by {
                        assert(c0.contains_key(PageKey { family: FileFamily::Index, table: self.files_index, offset: p }));
                    }
                }
                assert(mirrored(c2, FileFamily::Data, self.files_index, self.data.stream@, true)) by {
                    assert forall|p: u64|
                        p % (PAGE_SIZE as u64) == 0 && p < self.data.stream@.len() implies
                        #[trigger] c2.contains_key(PageKey { family: FileFamily::Data, table: self.files_index, offset: p }) by {
                        assert(c1.contains_key(PageKey { family: FileFamily::Data, table: self.files_index, offset: p }));
                    }
                }
            }
        }
        assert(coherent(c2, FileFamily::Data, self.files_index, self.data.stream@, true)) by {
            assert forall|k: PageKey|
                #[trigger] c2.contains_key(k) && k.family == FileFamily::Data && k.table == self.files_index implies
                    c1.contains_key(k) by {
            }
        }
    }
}

/// Cache consistency after a write: once a table writer is closed, every
/// page of the table that the cache holds equals the bytes of the file at
/// its offset, the last page padded with zeros; and when the cache had room
/// for every page of both files, it holds every one of them.
pub proof fn law_cache_matches_files(w: &EntryWriter, cache: &PageCache)
    requires
        w.inv(cache),
        w.is_closed(),
    ensures
        coherent(cache@, FileFamily::Data, w.table(), data_of(w.items()), true),
        coherent(cache@, FileFamily::Index, w.table(), index_of(w.items()), true),
        w.start_len() + pages_for(data_of(w.items()).len() as int) + pages_for(index_of(w.items()).len() as int)
            <= cache.max_pages() ==> {
            &&& mirrored(cache@, FileFamily::Data, w.table(), data_of(w.items()), true)
            &&& mirrored(cache@, FileFamily::Index, w.table(), index_of(w.items()), true)
        },
{
}

/// The index size law: the index file of a table of `n` entries holds
/// exactly `n` records of fixed size.
pub proof fn law_index_size(items: Seq<Item>, table_size: u64, index: Seq<u8>)
    requires
        table_size == items.len(),
        index == index_of(items),
    ensures
        index.len() == table_size * INDEX_ENTRY_SIZE,
{
    lemma_index_size(items);
}

} // verus!
