use std::collections::HashMap;

use dbeel_lsm::codec::{Entry, PAGE_SIZE};
use dbeel_lsm::compaction::{decode_actions, CompactionAction};
use dbeel_lsm::error::Error;
use dbeel_lsm::memtable::TREE_CAPACITY;
use dbeel_lsm::names::{get_file_path, FileKind};
use dbeel_lsm::page_cache::{FileFamily, PageCache};
use dbeel_lsm::recovery::{plan_wal, WalPlan};
use dbeel_lsm::sstable::{decode_table, table_size, Lookup, SSTable};
use dbeel_lsm::tree::{insert_table, LsmTree};

/// The files of one tree directory, held in memory.
#[derive(Default)]
struct Disk {
    data: HashMap<usize, Vec<u8>>,
    index: HashMap<usize, Vec<u8>>,
    wals: HashMap<usize, Vec<u8>>,
}

impl Disk {
    fn append_wal(&mut self, wal: usize, offset: u64, record: &[u8]) {
        let file = self.wals.entry(wal).or_default();
        assert_eq!(file.len() as u64, offset);
        file.extend_from_slice(record);
    }

    fn tables(&self) -> Vec<SSTable> {
        let mut indices: Vec<usize> = self.data.keys().copied().collect();
        indices.sort();
        indices
            .into_iter()
            .map(|index| SSTable {
                index,
                size: table_size(self.index[&index].len() as u64).unwrap(),
            })
            .collect()
    }

    fn page(&self, family: FileFamily, table: usize, offset: u64) -> Vec<u8> {
        let file = match family {
            FileFamily::Data => &self.data[&table],
            FileFamily::Index => &self.index[&table],
        };
        let start = offset as usize;
        let end = std::cmp::min(file.len(), start + PAGE_SIZE);
        let mut page = file[start..end].to_vec();
        page.resize(PAGE_SIZE, 0);
        page
    }
}

fn open(disk: &Disk) -> LsmTree {
    let wal_indices: Vec<usize> = {
        let mut v: Vec<usize> = disk.wals.keys().copied().collect();
        v.sort();
        v
    };
    let plan = plan_wal(&wal_indices).unwrap();
    let wal_index = plan.current();
    let wal = disk.wals.get(&wal_index).cloned().unwrap_or_default();
    LsmTree::recover(b"tree".to_vec(), PageCache::new(1024), disk.tables(), wal_index, &wal).unwrap()
}

fn set(tree: &mut LsmTree, disk: &mut Disk, key: Vec<u8>, value: Vec<u8>) {
    let wal = tree.memtable_index();
    let w = tree.set(key, value).unwrap();
    disk.append_wal(wal, w.offset, &w.record);
    if w.flush_needed {
        flush(tree, disk);
    }
}

fn delete(tree: &mut LsmTree, disk: &mut Disk, key: Vec<u8>) {
    let wal = tree.memtable_index();
    let w = tree.delete(key).unwrap();
    disk.append_wal(wal, w.offset, &w.record);
    if w.flush_needed {
        flush(tree, disk);
    }
}

fn flush(tree: &mut LsmTree, disk: &mut Disk) {
    if let Some(out) = tree.flush().unwrap() {
        disk.wals.insert(out.new_wal, Vec::new());
        disk.data.insert(out.table.index, out.data);
        disk.index.insert(out.table.index, out.index);
        disk.wals.remove(&out.flushed_wal);
    }
}

fn get(tree: &mut LsmTree, disk: &Disk, key: &[u8]) -> Option<Vec<u8>> {
    loop {
        match tree.get(key).unwrap() {
            Lookup::Found(v) => return Some(v.data),
            Lookup::Absent => return None,
            Lookup::NeedPage(k) => {
                let page = disk.page(k.family, k.table, k.offset);
                tree.cache_page(k, page);
            }
        }
    }
}

fn compact(tree: &mut LsmTree, disk: &mut Disk, indices: Vec<usize>, output: usize, remove_tombstones: bool) {
    let sources: Vec<Vec<Entry>> = indices
        .iter()
        .map(|i| decode_table(&disk.data[i], &disk.index[i]).unwrap())
        .collect();
    let out = tree.compact(&indices, output, remove_tombstones, &sources).unwrap();
    assert_eq!(tree.sstable_indices(), indices);
    tree.install_tables(out.tables.clone()).unwrap();
    disk.data.insert(out.table.index, out.data);
    disk.index.insert(out.table.index, out.index);
    for i in indices {
        if i != output {
            disk.data.remove(&i);
            disk.index.remove(&i);
        }
    }
}

#[test]
fn set_and_get_memtable() {
    let mut disk = Disk::default();
    {
        let mut tree = open(&disk);
        set(&mut tree, &mut disk, vec![100], vec![200]);
        assert_eq!(get(&mut tree, &disk, &[100]), Some(vec![200]));
        assert_eq!(get(&mut tree, &disk, &[0]), None);
    }
    {
        let mut tree = open(&disk);
        assert_eq!(get(&mut tree, &disk, &[100]), Some(vec![200]));
        assert_eq!(get(&mut tree, &disk, &[0]), None);
    }
}

#[test]
fn set_and_get_sstable() {
    let mut disk = Disk::default();
    {
        let mut tree = open(&disk);
        assert_eq!(tree.write_sstable_index(), 0);
        for n in 0..TREE_CAPACITY as u16 {
            let v = n.to_le_bytes().to_vec();
            set(&mut tree, &mut disk, v.clone(), v);
        }
        flush(&mut tree, &mut disk);

        assert_eq!(tree.active_len(), 0);
        assert_eq!(tree.write_sstable_index(), 2);
        assert_eq!(get(&mut tree, &disk, &[0, 0]), Some(vec![0, 0]));
        assert_eq!(get(&mut tree, &disk, &[100, 1]), Some(vec![100, 1]));
        assert_eq!(get(&mut tree, &disk, &[200, 2]), Some(vec![200, 2]));
    }
    {
        let mut tree = open(&disk);
        assert_eq!(tree.active_len(), 0);
        assert_eq!(tree.write_sstable_index(), 2);
        assert_eq!(get(&mut tree, &disk, &[0, 0]), Some(vec![0, 0]));
        assert_eq!(get(&mut tree, &disk, &[100, 1]), Some(vec![100, 1]));
        assert_eq!(get(&mut tree, &disk, &[200, 2]), Some(vec![200, 2]));
    }
}

#[test]
fn get_after_compaction() {
    let mut disk = Disk::default();
    {
        let mut tree = open(&disk);
        assert_eq!(tree.write_sstable_index(), 0);
        assert_eq!(tree.sstable_indices(), Vec::<usize>::new());

        for n in 0..((TREE_CAPACITY as u16) * 3) - 2 {
            let v = n.to_le_bytes().to_vec();
            set(&mut tree, &mut disk, v.clone(), v);
        }
        delete(&mut tree, &mut disk, vec![0, 1]);
        delete(&mut tree, &mut disk, vec![100, 2]);
        flush(&mut tree, &mut disk);

        assert_eq!(tree.sstable_indices(), vec![0, 2, 4]);

        compact(&mut tree, &mut disk, vec![0, 2, 4], 5, true);

        assert_eq!(tree.sstable_indices(), vec![5]);
        assert_eq!(tree.write_sstable_index(), 6);
        assert_eq!(get(&mut tree, &disk, &[0, 0]), Some(vec![0, 0]));
        assert_eq!(get(&mut tree, &disk, &[100, 1]), Some(vec![100, 1]));
        assert_eq!(get(&mut tree, &disk, &[200, 2]), Some(vec![200, 2]));
        assert_eq!(get(&mut tree, &disk, &[0, 1]), None);
        assert_eq!(get(&mut tree, &disk, &[100, 2]), None);
    }
    {
        let mut tree = open(&disk);
        assert_eq!(tree.sstable_indices(), vec![5]);
        assert_eq!(tree.write_sstable_index(), 6);
        assert_eq!(get(&mut tree, &disk, &[0, 0]), Some(vec![0, 0]));
        assert_eq!(get(&mut tree, &disk, &[100, 1]), Some(vec![100, 1]));
        assert_eq!(get(&mut tree, &disk, &[200, 2]), Some(vec![200, 2]));
        assert_eq!(get(&mut tree, &disk, &[0, 1]), None);
        assert_eq!(get(&mut tree, &disk, &[100, 2]), None);
    }
}

#[test]
fn read_your_writes_over_older_tables() {
    let mut disk = Disk::default();
    let mut tree = open(&disk);
    set(&mut tree, &mut disk, vec![7], vec![1]);
    flush(&mut tree, &mut disk);
    set(&mut tree, &mut disk, vec![7], vec![2]);
    assert_eq!(get(&mut tree, &disk, &[7]), Some(vec![2]));
}

#[test]
fn delete_masks_older_tables() {
    let mut disk = Disk::default();
    let mut tree = open(&disk);
    set(&mut tree, &mut disk, vec![7], vec![1]);
    flush(&mut tree, &mut disk);
    assert_eq!(get(&mut tree, &disk, &[7]), Some(vec![1]));
    delete(&mut tree, &mut disk, vec![7]);
    assert_eq!(get(&mut tree, &disk, &[7]), None);
    let mut reopened = open(&disk);
    assert_eq!(get(&mut reopened, &disk, &[7]), None);
}

#[test]
fn flush_of_empty_memtable_does_nothing() {
    let mut disk = Disk::default();
    let mut tree = open(&disk);
    set(&mut tree, &mut disk, vec![1], vec![1]);
    flush(&mut tree, &mut disk);
    assert_eq!(tree.active_len(), 0);
    assert_eq!(tree.sstable_indices(), vec![0]);
    assert!(tree.flush().unwrap().is_none());
    assert_eq!(tree.sstable_indices(), vec![0]);
    assert_eq!(tree.write_sstable_index(), 2);
}

#[test]
fn restart_after_each_operation_gives_same_answers() {
    let mut disk = Disk::default();
    let keys: Vec<Vec<u8>> = (0u8..20).map(|k| vec![k, k]).collect();
    for (n, key) in keys.iter().enumerate() {
        let mut tree = open(&disk);
        if n % 3 == 2 {
            delete(&mut tree, &mut disk, keys[n - 1].clone());
        } else {
            set(&mut tree, &mut disk, key.clone(), vec![n as u8 + 1]);
        }
        if n == 10 {
            flush(&mut tree, &mut disk);
        }
        let answers: Vec<Option<Vec<u8>>> = keys.iter().map(|k| get(&mut tree, &disk, k)).collect();
        let mut reopened = open(&disk);
        let again: Vec<Option<Vec<u8>>> = keys.iter().map(|k| get(&mut reopened, &disk, k)).collect();
        assert_eq!(answers, again);
    }
}

#[test]
fn compaction_keeps_tombstones_unless_asked() {
    let mut disk = Disk::default();
    let mut tree = open(&disk);
    set(&mut tree, &mut disk, vec![1], vec![10]);
    set(&mut tree, &mut disk, vec![2], vec![20]);
    flush(&mut tree, &mut disk);
    delete(&mut tree, &mut disk, vec![1]);
    set(&mut tree, &mut disk, vec![2], vec![21]);
    flush(&mut tree, &mut disk);
    let sources: Vec<Vec<Entry>> = [0usize, 2]
        .iter()
        .map(|i| decode_table(&disk.data[i], &disk.index[i]).unwrap())
        .collect();
    let out = tree.compact(&vec![0, 2], 3, false, &sources).unwrap();
    assert_eq!(out.table, SSTable { index: 3, size: 2 });
    tree.install_tables(out.tables.clone()).unwrap();
    let merged = decode_table(&out.data, &out.index).unwrap();
    assert_eq!(merged[0].key, vec![1]);
    assert!(merged[0].value.data.is_empty());
    assert_eq!(merged[1].value.data, vec![21]);
    assert_eq!(tree.sstable_indices(), vec![3]);
}

#[test]
fn index_file_holds_one_record_per_entry() {
    let mut disk = Disk::default();
    let mut tree = open(&disk);
    for n in 0u8..37 {
        set(&mut tree, &mut disk, vec![n], vec![n; 5]);
    }
    flush(&mut tree, &mut disk);
    let table = tree.sstables()[0];
    assert_eq!(table.size, 37);
    assert_eq!(disk.index[&0].len() as u64, table.size * 16);
}

#[test]
fn full_memtable_refuses_new_key() {
    let mut disk = Disk::default();
    let mut tree = open(&disk);
    for n in 0..TREE_CAPACITY as u16 {
        let v = n.to_le_bytes().to_vec();
        let w = tree.set(v.clone(), v).unwrap();
        disk.append_wal(0, w.offset, &w.record);
        assert_eq!(w.flush_needed, n as usize == TREE_CAPACITY - 1);
    }
    assert_eq!(tree.set(vec![1, 2, 3], vec![1]).unwrap_err(), Error::CapacityExceeded);
    // An existing key can still be overwritten.
    assert!(tree.set(vec![0, 0], vec![9]).is_ok());
}

#[test]
fn crash_during_flush_recovery() {
    let mut disk = Disk::default();
    let mut tree = open(&disk);
    for n in 0..TREE_CAPACITY as u16 {
        let v = n.to_le_bytes().to_vec();
        let w = tree.set(v.clone(), v).unwrap();
        disk.append_wal(0, w.offset, &w.record);
    }
    // The flush created the next log and took one more write, then stopped
    // before writing the table and deleting the first log.
    let out = tree.flush().unwrap().unwrap();
    assert_eq!((out.flushed_wal, out.new_wal), (0, 2));
    disk.wals.insert(2, Vec::new());
    let w = tree.set(vec![1, 2, 3], vec![4]).unwrap();
    disk.append_wal(2, w.offset, &w.record);

    let mut wal_indices: Vec<usize> = disk.wals.keys().copied().collect();
    wal_indices.sort();
    let plan = plan_wal(&wal_indices).unwrap();
    assert_eq!(plan, WalPlan::FlushThenResume { unflushed: 0, current: 2 });
    let mut cache = PageCache::new(1024);
    let (table, data, index) = LsmTree::flush_wal(&mut cache, &disk.wals[&0], 0).unwrap();
    assert_eq!(table, SSTable { index: 0, size: TREE_CAPACITY as u64 });
    disk.data.insert(0, data);
    disk.index.insert(0, index);
    disk.wals.remove(&0);
    let tables = insert_table(&disk.tables(), table).unwrap();
    let mut tree = LsmTree::recover(b"tree".to_vec(), cache, tables, 2, &disk.wals[&2]).unwrap();

    assert!(!disk.wals.contains_key(&0));
    assert_eq!(tree.sstable_indices(), vec![0]);
    assert_eq!(tree.active_len(), 1);
    assert_eq!(get(&mut tree, &disk, &[1, 2, 3]), Some(vec![4]));
    assert_eq!(get(&mut tree, &disk, &[100, 1]), Some(vec![100, 1]));
    assert_eq!(decode_table(&disk.data[&0], &disk.index[&0]).unwrap().len(), TREE_CAPACITY);
}

#[test]
fn compaction_replay_on_crash() {
    let mut disk = Disk::default();
    let mut tree = open(&disk);
    set(&mut tree, &mut disk, vec![1], vec![10]);
    flush(&mut tree, &mut disk);
    set(&mut tree, &mut disk, vec![1], vec![11]);
    flush(&mut tree, &mut disk);
    let sources: Vec<Vec<Entry>> = [0usize, 2]
        .iter()
        .map(|i| decode_table(&disk.data[i], &disk.index[i]).unwrap())
        .collect();
    let out = tree.compact(&vec![0, 2], 3, true, &sources).unwrap();

    // Only the output files and the intent record reached the disk.
    let decoded = decode_actions(&out.action_bytes);
    assert_eq!(decoded.len(), 1);
    let action: &CompactionAction = &decoded[0];
    let path = |i: usize, kind: FileKind| get_file_path(b"tree", i, &kind.ext());
    assert_eq!(
        action.renames,
        vec![
            (path(3, FileKind::CompactData), path(3, FileKind::Data)),
            (path(3, FileKind::CompactIndex), path(3, FileKind::Index)),
        ]
    );
    assert_eq!(
        action.deletes,
        vec![
            path(0, FileKind::Data),
            path(0, FileKind::Index),
            path(2, FileKind::Data),
            path(2, FileKind::Index),
        ]
    );

    // Replaying the record on restart: deletes, then renames.
    let mut files: HashMap<Vec<u8>, Vec<u8>> = HashMap::new();
    for (i, d) in &disk.data {
        files.insert(path(*i, FileKind::Data), d.clone());
        files.insert(path(*i, FileKind::Index), disk.index[i].clone());
    }
    files.insert(path(3, FileKind::CompactData), out.data.clone());
    files.insert(path(3, FileKind::CompactIndex), out.index.clone());
    for d in &action.deletes {
        files.remove(d);
    }
    for (from, to) in &action.renames {
        if let Some(bytes) = files.remove(from) {
            files.insert(to.clone(), bytes);
        }
    }
    let mut names: Vec<Vec<u8>> = files.keys().cloned().collect();
    names.sort();
    assert_eq!(names, vec![path(3, FileKind::Data), path(3, FileKind::Index)]);

    let mut replayed = Disk::default();
    replayed.data.insert(3, files[&path(3, FileKind::Data)].clone());
    replayed.index.insert(3, files[&path(3, FileKind::Index)].clone());
    let mut tree = open(&replayed);
    assert_eq!(tree.sstable_indices(), vec![3]);
    assert_eq!(get(&mut tree, &replayed, &[1]), Some(vec![11]));
}

#[test]
fn compaction_prefers_higher_table_index_whatever_the_order() {
    let mut disk = Disk::default();
    let mut tree = open(&disk);
    set(&mut tree, &mut disk, vec![2], vec![20]);
    flush(&mut tree, &mut disk);
    set(&mut tree, &mut disk, vec![2], vec![21]);
    flush(&mut tree, &mut disk);
    let sources: Vec<Vec<Entry>> = [2usize, 0]
        .iter()
        .map(|i| decode_table(&disk.data[i], &disk.index[i]).unwrap())
        .collect();
    let out = tree.compact(&vec![2, 0], 7, false, &sources).unwrap();
    tree.install_tables(out.tables.clone()).unwrap();
    let merged = decode_table(&out.data, &out.index).unwrap();
    assert_eq!(merged.len(), 1);
    assert_eq!(merged[0].value.data, vec![21]);
    assert_eq!(tree.sstable_indices(), vec![7]);
}

#[test]
fn compaction_refuses_unsorted_table() {
    let mut disk = Disk::default();
    let mut tree = open(&disk);
    set(&mut tree, &mut disk, vec![1], vec![1]);
    set(&mut tree, &mut disk, vec![2], vec![2]);
    flush(&mut tree, &mut disk);
    let mut entries = decode_table(&disk.data[&0], &disk.index[&0]).unwrap();
    entries.reverse();
    assert_eq!(tree.compact(&vec![0], 1, false, &vec![entries]).err(), Some(Error::Corruption));
    assert_eq!(tree.sstable_indices(), vec![0]);
}

#[test]
fn compaction_refuses_unknown_table_and_kept_output_index() {
    let mut disk = Disk::default();
    let mut tree = open(&disk);
    set(&mut tree, &mut disk, vec![1], vec![1]);
    flush(&mut tree, &mut disk);
    set(&mut tree, &mut disk, vec![2], vec![2]);
    flush(&mut tree, &mut disk);
    let source = decode_table(&disk.data[&0], &disk.index[&0]).unwrap();
    assert_eq!(tree.compact(&vec![0, 8], 9, false, &vec![source.clone(), vec![]]).err(), Some(Error::Corruption));
    assert_eq!(tree.compact(&vec![0], 2, false, &vec![source.clone()]).err(), Some(Error::Corruption));
    assert!(tree.compact(&vec![0], 1, false, &vec![source]).is_ok());
    assert_eq!(tree.sstable_indices(), vec![0, 2]);
    assert_eq!(
        tree.install_tables(vec![SSTable { index: 2, size: 1 }, SSTable { index: 1, size: 1 }]).err(),
        Some(Error::Corruption)
    );
}

#[test]
fn get_on_empty_tree_is_absent() {
    let disk = Disk::default();
    let tree = open(&disk);
    assert!(matches!(tree.get(&[0]).unwrap(), Lookup::Absent));
    assert!(matches!(tree.get_entry(&[0]).unwrap(), Lookup::Absent));
}
