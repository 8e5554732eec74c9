use query_engine::{
    get_bucket_index, AllStrokesIterator, AllTranslationsIterator, BucketEntryIterator, Entry,
    HashTable, HashTableMaker,
};

const STREAM: &[u8] =
    b"\x08\x00KPWHRE\x04\x00hi\x07\x00TPHEU\x04\x00hi\x09\x00HEL/LOE\x07\x00hello";

const UNSET: u32 = 0xFFFF_FFFF;

fn entries_of(buckets: &[usize], data: &[u8]) -> Vec<(usize, Vec<u8>, u32)> {
    let mut entries = Vec::new();
    for bucket in 0..buckets.len() {
        let mut iterator = BucketEntryIterator::new(bucket, buckets, data);
        while let Some(entry) = iterator.next() {
            assert_eq!(get_bucket_index(entry.key, buckets), bucket);
            entries.push((entry.get_offset(), entry.key.to_vec(), entry.value));
        }
    }
    entries
}

#[test]
fn maker_sizes_the_table() {
    let mut maker = HashTableMaker::initialize(AllTranslationsIterator::new(STREAM)).ok().unwrap();
    // Three entries: six bytes each beside the keys "hi", "hi" and "hello".
    assert_eq!(maker.get_data_length(), 3 * 6 + 2 + 2 + 5);
    // Ten entries a bucket, and one bucket at least.
    assert_eq!(maker.get_buckets_length(), 1);
    maker.set_load_factor(1);
    assert_eq!(maker.get_buckets_length(), 3);
    maker.set_load_factor(2);
    assert_eq!(maker.get_buckets_length(), 1);
    maker.set_load_factor(4);
    assert_eq!(maker.get_buckets_length(), 1);
    let strokes = HashTableMaker::initialize(AllStrokesIterator::new(STREAM)).ok().unwrap();
    assert_eq!(strokes.get_data_length(), 3 * 6 + 3 + 3 + 6);
}

#[test]
fn maker_of_no_keys_makes_an_empty_table() {
    let maker = HashTableMaker::initialize(AllTranslationsIterator::new(b"")).ok().unwrap();
    assert_eq!(maker.get_data_length(), 0);
    assert_eq!(maker.get_buckets_length(), 1);
    let mut buckets = [7usize];
    let mut data = [0u8; 0];
    let table = maker.make_hash_table(&mut buckets, &mut data);
    assert_eq!(table.get_values(b"hi"), vec![]);
    assert_eq!(table.get_value(b""), None);
    assert_eq!(table.buckets, &[0][..]);
}

#[test]
fn made_table_holds_every_key_without_a_value() {
    let mut maker = HashTableMaker::initialize(AllTranslationsIterator::new(STREAM)).ok().unwrap();
    maker.set_load_factor(1);
    let mut buckets = vec![99usize; maker.get_buckets_length()];
    let mut data = vec![0xAAu8; maker.get_data_length()];
    let table = maker.make_hash_table(&mut buckets, &mut data);
    assert_eq!(table.get_values(b"hi"), vec![UNSET, UNSET]);
    assert_eq!(table.get_values(b"hello"), vec![UNSET]);
    assert_eq!(table.get_values(b"hell"), vec![]);
    assert_eq!(table.get_value(b"hello"), Some(UNSET));
    assert_eq!(table.get_value(b"help"), None);
    let mut keys: Vec<Vec<u8>> = entries_of(table.buckets, table.data)
        .into_iter()
        .map(|entry| entry.1)
        .collect();
    keys.sort();
    assert_eq!(keys, vec![b"hello".to_vec(), b"hi".to_vec(), b"hi".to_vec()]);
}

#[test]
fn buckets_lie_one_behind_the_other() {
    let mut maker = HashTableMaker::initialize(AllTranslationsIterator::new(STREAM)).ok().unwrap();
    maker.set_load_factor(1);
    let mut buckets = vec![0usize; 3];
    let mut data = vec![0u8; 27];
    let table = maker.make_hash_table(&mut buckets, &mut data);
    assert_eq!(table.buckets[0], 0);
    let mut sizes = vec![0usize; 3];
    for key in [&b"hi"[..], b"hi", b"hello"] {
        sizes[get_bucket_index(key, table.buckets)] += key.len() + 6;
    }
    assert_eq!(table.buckets[1], sizes[0]);
    assert_eq!(table.buckets[2], sizes[0] + sizes[1]);
    assert_eq!(sizes[0] + sizes[1] + sizes[2], 27);
}

#[test]
fn entries_of_one_bucket_keep_the_order_of_their_keys() {
    let maker = HashTableMaker::initialize(AllStrokesIterator::new(STREAM)).ok().unwrap();
    let mut buckets = vec![0usize; 1];
    let mut data = vec![0u8; 30];
    let table = maker.make_hash_table(&mut buckets, &mut data);
    assert_eq!(
        table.data,
        &[
            9, 0, 0xF8, 0x08, 0x00, 0xFF, 0xFF, 0xFF, 0xFF, // KPWHRE
            9, 0, 0x54, 0x18, 0x00, 0xFF, 0xFF, 0xFF, 0xFF, // TPHEU
            12, 0, 0x40, 0x08, 0x02, 0x00, 0x0A, 0x00, 0xFF, 0xFF, 0xFF, 0xFF, // HEL/LOE
        ][..]
    );
}

#[test]
fn set_unset_value_fills_the_first_entry_without_a_value() {
    let maker = HashTableMaker::initialize(AllTranslationsIterator::new(STREAM)).ok().unwrap();
    let mut buckets = vec![0usize; 1];
    let mut data = vec![0u8; 27];
    let mut table = maker.make_hash_table(&mut buckets, &mut data);
    assert_eq!(table.set_unset_value(b"hi", 7), Some(()));
    assert_eq!(table.get_values(b"hi"), vec![7, UNSET]);
    assert_eq!(table.set_unset_value(b"hi", 0x0403_0201), Some(()));
    assert_eq!(table.get_values(b"hi"), vec![7, 0x0403_0201]);
    assert_eq!(table.set_unset_value(b"hi", 9), None);
    assert_eq!(table.set_unset_value(b"hey", 9), None);
    assert_eq!(table.get_values(b"hello"), vec![UNSET]);
    assert_eq!(table.get_value(b"hi"), Some(7));
    // The second entry starts at 8; its value is stored low byte first.
    assert_eq!(&table.data[8..16], &[8, 0, b'h', b'i', 1, 2, 3, 4]);
}

#[test]
fn set_value_writes_the_value_of_the_entry_of_the_handle() {
    let maker = HashTableMaker::initialize(AllTranslationsIterator::new(STREAM)).ok().unwrap();
    let mut buckets = vec![0usize; 1];
    let mut data = vec![0u8; 27];
    let mut table = maker.make_hash_table(&mut buckets, &mut data);
    let handle = {
        let mut iterator = table.get_bucket_iterator(b"hello");
        iterator.next();
        iterator.next();
        let entry = iterator.next().unwrap();
        assert_eq!(entry.key, b"hello");
        assert_eq!(entry.get_offset(), 16);
        assert!(iterator.next().is_none());
        entry.to_handle()
    };
    assert_eq!(handle.offset, 16);
    assert_eq!(handle.length, 11);
    table.set_value(handle, 0xDEAD_BEEF);
    assert_eq!(table.get_value(b"hello"), Some(0xDEAD_BEEF));
    assert_eq!(table.get_values(b"hi"), vec![UNSET, UNSET]);
    assert_eq!(&table.data[16..], &[11, 0, b'h', b'e', b'l', b'l', b'o', 0xEF, 0xBE, 0xAD, 0xDE]);
}

#[test]
fn find_unset_entry_skips_entries_with_a_value() {
    let maker = HashTableMaker::initialize(AllTranslationsIterator::new(STREAM)).ok().unwrap();
    let mut buckets = vec![0usize; 1];
    let mut data = vec![0u8; 27];
    let mut table = maker.make_hash_table(&mut buckets, &mut data);
    let key = query_engine::SliceBytes::new(b"hi");
    assert_eq!(table.find_unset_entry(key).map(|entry| entry.get_offset()), Some(0));
    table.set_unset_value(b"hi", 1);
    assert_eq!(table.find_unset_entry(key).map(|entry| entry.get_offset()), Some(8));
    table.set_unset_value(b"hi", 2);
    assert!(table.find_unset_entry(key).is_none());
}

#[test]
fn bucket_iterator_from_a_key_iterator_finds_the_same_bucket() {
    let mut maker = HashTableMaker::initialize(AllStrokesIterator::new(STREAM)).ok().unwrap();
    maker.set_load_factor(1);
    let mut buckets = vec![0usize; 3];
    let mut data = vec![0u8; 30];
    let table = maker.make_hash_table(&mut buckets, &mut data);
    let packed = [0x54, 0x18, 0x00];
    let by_bytes = table.get_bucket_iterator(&packed);
    let by_key = table
        .get_bucket_iterator_from_key_iterator(query_engine::ParseStrokesIterator::new(b"TPHEU"));
    assert_eq!(by_bytes.offset, by_key.offset);
    assert_eq!(by_bytes.end, by_key.end);
    assert_eq!(table.get_values(&packed), vec![UNSET]);
}

#[test]
fn bucket_iterator_stops_at_an_empty_slot() {
    // One entry, then the zero header of an empty slot, then what is left of
    // the bucket.
    let data = [7, 0, b'k', 1, 0, 0, 0, 0, 0, 9, 9, 9];
    let mut iterator = BucketEntryIterator::new(0, &[0], &data);
    let entry = iterator.next().unwrap();
    assert_eq!(entry.key, b"k");
    assert_eq!(entry.value, 1);
    assert!(iterator.next().is_none());
    assert!(iterator.next().is_none());
}

#[test]
fn entry_is_read_by_its_header() {
    let data = [0, 0, 10, 0, b'k', b'e', b'y', b's', 0x78, 0x56, 0x34, 0x12, 0];
    let entry = Entry::new(&data, 2);
    assert_eq!(entry.get_offset(), 2);
    assert_eq!(entry.key, b"keys");
    assert_eq!(entry.value, 0x1234_5678);
    let handle = entry.to_handle();
    assert_eq!((handle.offset, handle.length), (2, 10));
    let shorter = Entry::new_with_length(&data, 2, 6);
    assert_eq!(shorter.key, b"");
    assert_eq!(shorter.value, u32::from_le_bytes([b'k', b'e', b'y', b's']));
}

#[test]
fn table_of_many_keys_finds_each() {
    let mut stream = Vec::new();
    let mut words = Vec::new();
    for index in 0..200usize {
        let word = format!("word{}-{}", index, "x".repeat(index % 70));
        stream.extend_from_slice(&[3, 0, b'S']);
        stream.extend_from_slice(&((word.len() + 2) as u16).to_le_bytes());
        stream.extend_from_slice(word.as_bytes());
        words.push(word);
    }
    let mut maker = HashTableMaker::initialize(AllTranslationsIterator::new(&stream)).ok().unwrap();
    assert_eq!(maker.get_buckets_length(), 20);
    maker.set_load_factor(3);
    assert_eq!(maker.get_buckets_length(), 66);
    let mut buckets = vec![0usize; 66];
    let mut data = vec![0u8; maker.get_data_length()];
    let mut table: HashTable = maker.make_hash_table(&mut buckets, &mut data);
    for (index, word) in words.iter().enumerate() {
        assert_eq!(table.get_values(word.as_bytes()), vec![UNSET]);
        assert_eq!(table.set_unset_value(word.as_bytes(), index as u32), Some(()));
    }
    for (index, word) in words.iter().enumerate() {
        assert_eq!(table.get_values(word.as_bytes()), vec![index as u32]);
    }
    let entries = entries_of(table.buckets, table.data);
    assert_eq!(entries.len(), 200);
    let total: usize = entries.iter().map(|entry| entry.1.len() + 6).sum();
    assert_eq!(total, table.data.len());
}
