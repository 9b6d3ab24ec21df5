use dbeel_lsm::codec::{decode_entry, decode_entry_prefix, decode_offset, encode_entry, encode_offset, EntryValue};
use dbeel_lsm::error::Error;
use dbeel_lsm::memtable::MemTable;
use dbeel_lsm::names::{get_file_path, parse_file_index, FileKind};
use dbeel_lsm::recovery::{indices_of_kind, plan_wal, WalPlan};
use dbeel_lsm::ring::{hash_string, HashRing, Shard};
use dbeel_lsm::sstable::{decode_table, table_size, SSTable};
use dbeel_lsm::tree::{next_write_index, LsmTree};
use dbeel_lsm::page_cache::{CachedRead, FileFamily, PageCache, PageKey};
use dbeel_lsm::wal::{memtable_from_wal, wal_record};

#[test]
fn entry_encoding_is_fixed_width_little_endian() {
    let b = encode_entry(&vec![1, 2], &vec![3], -2).unwrap();
    let mut expected = vec![2, 0, 0, 0, 0, 0, 0, 0, 1, 2, 1, 0, 0, 0, 0, 0, 0, 0, 3];
    expected.extend_from_slice(&(-2i64).to_le_bytes());
    assert_eq!(b, expected);
    let e = decode_entry(&b).unwrap();
    assert_eq!(e.key, vec![1, 2]);
    assert_eq!(e.value, EntryValue { data: vec![3], timestamp: -2 });
}

#[test]
fn entry_decoding_refuses_trailing_and_partial_bytes() {
    let mut b = encode_entry(&vec![1], &vec![2], 3).unwrap();
    assert_eq!(decode_entry(&b[..b.len() - 1]).unwrap_err(), Error::Serialization);
    b.push(0);
    assert_eq!(decode_entry(&b).unwrap_err(), Error::Serialization);
    let (e, used) = decode_entry_prefix(&b).unwrap();
    assert_eq!(used, b.len() - 1);
    assert_eq!(e.key, vec![1]);
}

#[test]
fn offset_record_is_sixteen_bytes() {
    let b = encode_offset(0x0102, 7).unwrap();
    assert_eq!(b, vec![2, 1, 0, 0, 0, 0, 0, 0, 7, 0, 0, 0, 0, 0, 0, 0]);
    assert_eq!(decode_offset(&b).unwrap(), (0x0102, 7));
    assert_eq!(decode_offset(&b[..15]).unwrap_err(), Error::Serialization);
}

#[test]
fn wal_record_is_padded_to_the_next_page() {
    let value = EntryValue { data: vec![9; 10], timestamp: 1 };
    let r = wal_record(&vec![1, 2, 3], &value).unwrap();
    assert_eq!(r.len(), 4096);
    assert_eq!(&r[..37], &encode_entry(&vec![1, 2, 3], &vec![9; 10], 1).unwrap()[..]);
    assert!(r[37..].iter().all(|b| *b == 0));
    // A record that fills a page exactly still takes a page more.
    let value = EntryValue { data: vec![0; 4096 - 24 - 1], timestamp: 1 };
    assert_eq!(wal_record(&vec![1], &value).unwrap().len(), 8192);
}

#[test]
fn wal_replay_keeps_last_write_and_skips_torn_tail() {
    let mut wal = Vec::new();
    for (k, v) in [(vec![1u8], vec![1u8]), (vec![2], vec![2]), (vec![1], vec![3])] {
        wal.extend(wal_record(&k, &EntryValue { data: v, timestamp: 0 }).unwrap());
    }
    wal.extend_from_slice(&[5, 0, 0]);
    let m = memtable_from_wal(&wal, 16).unwrap();
    assert_eq!(m.len(), 2);
    assert_eq!(m.get(&[1]).unwrap().data, vec![3]);
    assert_eq!(m.get(&[2]).unwrap().data, vec![2]);
}

#[test]
fn memtable_orders_keys_and_bounds_new_ones() {
    let mut m = MemTable::with_capacity(2);
    assert!(m.set(vec![2], EntryValue { data: vec![1], timestamp: 0 }).unwrap().is_none());
    assert!(m.set(vec![1, 0], EntryValue { data: vec![1], timestamp: 0 }).unwrap().is_none());
    let previous = m.set(vec![2], EntryValue { data: vec![5], timestamp: 1 }).unwrap().unwrap();
    assert_eq!(previous.data, vec![1]);
    assert_eq!(m.set(vec![3], EntryValue { data: vec![1], timestamp: 0 }).unwrap_err(), Error::CapacityExceeded);
    let keys: Vec<Vec<u8>> = m.entries().iter().map(|e| e.key.clone()).collect();
    assert_eq!(keys, vec![vec![1, 0], vec![2]]);
    assert!(m.is_full());
}

#[test]
fn file_paths_are_zero_padded() {
    assert_eq!(get_file_path(b"dir", 5, b"data"), b"dir/00000000000000000005.data".to_vec());
    assert_eq!(
        get_file_path(b"d", usize::MAX, &FileKind::CompactAction.ext()),
        format!("d/{}.compact_action", usize::MAX).into_bytes()
    );
    assert_eq!(parse_file_index(b"00000000000000000042.memtable", b"memtable"), Some(42));
    assert_eq!(parse_file_index(b"42.memtable", b"memtable"), Some(42));
    assert_eq!(parse_file_index(b"42.data", b"memtable"), None);
    assert_eq!(parse_file_index(b"4x.data", b"data"), None);
    assert_eq!(parse_file_index(b".data", b"data"), None);
    assert_eq!(parse_file_index(b"99999999999999999999999.data", b"data"), None);
}

#[test]
fn listing_is_sorted_by_index() {
    let names: Vec<Vec<u8>> = vec![
        b"00000000000000000004.data".to_vec(),
        b"00000000000000000000.data".to_vec(),
        b"00000000000000000002.index".to_vec(),
        b"00000000000000000002.data".to_vec(),
        b"notes.txt".to_vec(),
    ];
    assert_eq!(indices_of_kind(&names, FileKind::Data), vec![0, 2, 4]);
    assert_eq!(indices_of_kind(&names, FileKind::Index), vec![2]);
    assert_eq!(indices_of_kind(&names, FileKind::Memtable), Vec::<usize>::new());
}

#[test]
fn wal_plans() {
    assert_eq!(plan_wal(&vec![]).unwrap(), WalPlan::Fresh);
    assert_eq!(plan_wal(&vec![4]).unwrap(), WalPlan::Resume(4));
    assert_eq!(plan_wal(&vec![2, 4]).unwrap(), WalPlan::FlushThenResume { unflushed: 2, current: 4 });
    assert_eq!(plan_wal(&vec![0, 2, 4]).unwrap_err(), Error::Corruption);
    assert_eq!(WalPlan::Fresh.current(), 0);
}

#[test]
fn write_index_after_tables() {
    assert_eq!(next_write_index(&vec![]).unwrap(), 0);
    assert_eq!(next_write_index(&vec![SSTable { index: 4, size: 1 }]).unwrap(), 6);
    assert_eq!(next_write_index(&vec![SSTable { index: 2, size: 1 }, SSTable { index: 5, size: 1 }]).unwrap(), 6);
    assert_eq!(next_write_index(&vec![SSTable { index: usize::MAX, size: 1 }]).unwrap_err(), Error::Corruption);
}

#[test]
fn corrupt_inputs_are_refused() {
    assert_eq!(table_size(32).unwrap(), 2);
    assert_eq!(table_size(33).unwrap_err(), Error::Corruption);
    assert_eq!(decode_table(&[], &[0; 15]).unwrap_err(), Error::Corruption);
    assert_eq!(decode_table(&[], &encode_offset(0, 30).unwrap()).unwrap_err(), Error::Corruption);
    let unsorted = vec![SSTable { index: 2, size: 0 }, SSTable { index: 0, size: 0 }];
    assert_eq!(LsmTree::recover(vec![], PageCache::new(4), unsorted, 0, &[]).err(), Some(Error::Corruption));
}

#[test]
fn cache_reads_across_pages_and_evicts_oldest() {
    let mut cache = PageCache::new(2);
    let key = |offset: u64| PageKey { family: FileFamily::Data, table: 1, offset };
    cache.set(key(0), vec![1; 4096]);
    cache.set(key(4096), vec![2; 4096]);
    match cache.read_at(FileFamily::Data, 1, 4094, 4) {
        CachedRead::Bytes(b) => assert_eq!(b, vec![1, 1, 2, 2]),
        CachedRead::Missing(k) => panic!("missing {:?}", k),
    }
    cache.set(key(8192), vec![3; 4096]);
    assert_eq!(cache.len(), 2);
    assert!(cache.get(&key(0)).is_none());
    match cache.read_at(FileFamily::Data, 1, 10, 4) {
        CachedRead::Missing(k) => assert_eq!(k, key(0)),
        CachedRead::Bytes(_) => panic!("page 0 was evicted"),
    }
    cache.invalidate_table(1);
    assert_eq!(cache.len(), 0);
}

#[test]
fn hashes_are_murmur3_with_seed_zero() {
    assert_eq!(hash_string("").unwrap(), 0);
    assert_eq!(hash_string("hello").unwrap(), 613153351);
    assert_eq!(hash_string("key").unwrap(), 3801901636);
}

#[test]
fn ring_places_key_on_distinct_replicas() {
    let addresses: Vec<&str> = vec!["127.0.0.1:10000", "127.0.0.1:10001", "127.0.0.1:10002"];
    let ring = HashRing::from_addresses(&addresses, 2).unwrap();
    assert_eq!(ring.len(), 3);
    // Ring order by hash: 10000 (112488516), 10001 (483810941), 10002 (2242128049).
    // "key" hashes above every shard, so it wraps to the first one.
    assert_eq!(ring.owners("key").unwrap(), vec!["127.0.0.1:10000".to_string(), "127.0.0.1:10001".to_string()]);
    // "hello" (613153351) starts at the third shard and wraps round.
    assert_eq!(ring.owners("hello").unwrap(), vec!["127.0.0.1:10002".to_string(), "127.0.0.1:10000".to_string()]);
    let wide = HashRing::from_addresses(&addresses, 5).unwrap();
    let owners = wide.owners("a").unwrap();
    assert_eq!(owners.len(), 3);
    let mut distinct = owners.clone();
    distinct.sort();
    distinct.dedup();
    assert_eq!(distinct.len(), 3);
    let empty = HashRing::new(Vec::<Shard>::new(), 3);
    assert!(empty.owners("a").unwrap().is_empty());
    assert_eq!(ring.owning_positions(0), vec![0, 1]);
}
