use dbeel_lsm::codec::{Entry, EntryValue, PAGE_SIZE};
use dbeel_lsm::memtable::TREE_CAPACITY;
use dbeel_lsm::page_cache::{FileFamily, PageCache, PageKey};
use dbeel_lsm::writer::EntryWriter;

#[test]
fn entry_writer_cache_equals_disk() {
    let mut cache = PageCache::new(1024);
    let mut writer = EntryWriter::new(0, &cache);

    let entries: Vec<Entry> = (0..TREE_CAPACITY)
        .map(|x| x.to_le_bytes().to_vec())
        .map(|x| Entry {
            key: x.clone(),
            value: EntryValue::new(x),
        })
        .collect();

    let mut data_stream: Vec<u8> = Vec::new();
    let mut index_stream: Vec<u8> = Vec::new();
    let mut data_written = 0;
    let mut index_written = 0;
    for entry in &entries {
        let (d, i) = writer.write(&mut cache, entry).unwrap();
        data_written += d.len();
        index_written += i.len();
        data_stream.extend_from_slice(&d);
        index_stream.extend_from_slice(&i);
    }
    writer.close(&mut cache);

    assert_eq!(data_stream.len(), data_written);
    assert_eq!(index_stream.len(), index_written);

    for (n, chunk) in data_stream.chunks(PAGE_SIZE).enumerate() {
        let address = n * PAGE_SIZE;
        let page = cache
            .get(&PageKey { family: FileFamily::Data, table: 0, offset: address as u64 })
            .expect(format!("No cache on address: {}", address).as_str());
        assert_eq!(&page[..chunk.len()], chunk);
    }

    for (n, chunk) in index_stream.chunks(PAGE_SIZE).enumerate() {
        let address = n * PAGE_SIZE;
        let page = cache
            .get(&PageKey { family: FileFamily::Index, table: 0, offset: address as u64 })
            .expect(format!("No cache on address: {}", address).as_str());
        assert_eq!(&page[..chunk.len()], chunk);
    }
}
