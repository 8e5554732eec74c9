use query_engine::{
    find_strokes_internal, get_bucket_index, get_hashtables_from_container, load_json_internal,
    query_internal, BucketEntryIterator, DataStructuresContainer, Entry, ParseStrokesIterator,
    ByteIterator, VecContainer,
};

fn packed(text: &[u8]) -> Vec<u8> {
    let mut iterator = ParseStrokesIterator::new(text);
    let mut bytes = Vec::new();
    while let Some(byte) = iterator.next() {
        bytes.push(byte);
    }
    bytes
}

/// A dictionary of `count` entries: strokes of one to four chords, and
/// translations of which some are shared and some are long.
fn pairs(count: usize) -> Vec<(String, String)> {
    let keys = b"STKPWHR";
    let mut pairs = Vec::new();
    for index in 0..count {
        let mut strokes = String::new();
        let mut rest = index + 1;
        while rest > 0 {
            if !strokes.is_empty() {
                strokes.push('/');
            }
            strokes.push(keys[rest % 7] as char);
            strokes.push('A');
            if rest % 3 == 0 {
                strokes.push_str("PB");
            }
            rest /= 7;
        }
        let translation = match index % 5 {
            0 => format!("shared{}", index % 20),
            1 => format!("long{}{}", index, "-and-longer".repeat(index % 9)),
            _ => format!("word{}", index),
        };
        pairs.push((strokes, translation));
    }
    pairs
}

fn json(pairs: &[(String, String)]) -> Vec<u8> {
    let mut text = String::from("{\n");
    for (index, (strokes, translation)) in pairs.iter().enumerate() {
        if index > 0 {
            text.push_str(",\n");
        }
        text.push_str(&format!("\"{}\": \"{}\"", strokes, translation));
    }
    text.push_str("\n}\n");
    text.into_bytes()
}

fn load(pairs: &[(String, String)]) -> VecContainer {
    let mut buffer = json(pairs);
    load_json_internal::<VecContainer>(&mut buffer[..]).ok().unwrap()
}

/// The entries of a table, bucket by bucket: offset, key and value.
fn entries_of(buckets: &[usize], data: &[u8]) -> Vec<(usize, Vec<u8>, u32)> {
    let mut entries = Vec::new();
    for bucket in 0..buckets.len() {
        let end = if bucket + 1 < buckets.len() {
            buckets[bucket + 1]
        } else {
            data.len()
        };
        assert!(buckets[bucket] <= end);
        let mut iterator = BucketEntryIterator::new(bucket, buckets, data);
        let mut used = 0;
        while let Some(entry) = iterator.next() {
            assert_eq!(entry.get_offset(), buckets[bucket] + used);
            assert_eq!(get_bucket_index(entry.key, buckets), bucket);
            used += entry.key.len() + 6;
            entries.push((entry.get_offset(), entry.key.to_vec(), entry.value));
        }
        // The lengths of the entries add up to the length of the bucket.
        assert_eq!(used, end - buckets[bucket]);
    }
    entries
}

#[test]
fn words_hold_the_sizes_and_the_buckets_of_both_tables() {
    let pairs = pairs(57);
    let container = load(&pairs);
    let words = container.get_usize_buffer();
    let bytes = container.get_u8_buffer();
    assert_eq!(words[0], 5);
    assert_eq!(words.len(), 2 + 5 + 5);
    let strokes_size: usize = pairs.iter().map(|pair| packed(pair.0.as_bytes()).len() + 6).sum();
    let strings_size: usize = pairs.iter().map(|pair| pair.1.len() + 6).sum();
    assert_eq!(words[1], strokes_size);
    assert_eq!(bytes.len(), strokes_size + strings_size);
    assert_eq!(words[2], 0);
    assert_eq!(words[7], 0);
}

#[test]
fn buckets_of_an_image_are_packed() {
    for count in [1, 9, 10, 11, 57, 300] {
        let pairs = pairs(count);
        let mut container = load(&pairs);
        let (strokes, strings) = get_hashtables_from_container(&mut container).ok().unwrap();
        assert_eq!(strokes.buckets.len(), std::cmp::max(1, count / 10));
        assert_eq!(strings.buckets.len(), std::cmp::max(1, count / 10));
        assert_eq!(entries_of(strokes.buckets, strokes.data).len(), count);
        assert_eq!(entries_of(strings.buckets, strings.data).len(), count);
    }
}

#[test]
fn every_entry_of_an_image_is_linked() {
    let pairs = pairs(300);
    let mut container = load(&pairs);
    let (strokes, strings) = get_hashtables_from_container(&mut container).ok().unwrap();
    for entry in entries_of(strokes.buckets, strokes.data) {
        assert_ne!(entry.2, 0xFFFF_FFFF);
    }
    for entry in entries_of(strings.buckets, strings.data) {
        assert_ne!(entry.2, 0xFFFF_FFFF);
    }
}

#[test]
fn links_of_an_image_are_mutual_and_join_the_pairs() {
    let pairs = pairs(300);
    let mut container = load(&pairs);
    let (strokes, strings) = get_hashtables_from_container(&mut container).ok().unwrap();
    let mut joined = Vec::new();
    for (offset, key, value) in entries_of(strokes.buckets, strokes.data) {
        let partner = Entry::new(strings.data, value as usize);
        assert_eq!(partner.value as usize, offset);
        joined.push((key, partner.key.to_vec()));
    }
    for (offset, key, value) in entries_of(strings.buckets, strings.data) {
        let partner = Entry::new(strokes.data, value as usize);
        assert_eq!(partner.value as usize, offset);
        assert!(joined.contains(&(partner.key.to_vec(), key)));
    }
    let mut expected: Vec<(Vec<u8>, Vec<u8>)> = pairs
        .iter()
        .map(|pair| (packed(pair.0.as_bytes()), pair.1.as_bytes().to_vec()))
        .collect();
    expected.sort();
    joined.sort();
    assert_eq!(joined, expected);
}

#[test]
fn queries_are_complete_and_sound() {
    let pairs = pairs(300);
    let mut container = load(&pairs);
    for (strokes, translation) in pairs.iter() {
        let expected: Vec<(Vec<u8>, Vec<u8>)> = pairs
            .iter()
            .filter(|pair| &pair.1 == translation)
            .map(|pair| (packed(pair.0.as_bytes()), pair.1.as_bytes().to_vec()))
            .collect();
        assert!(expected.contains(&(packed(strokes.as_bytes()), translation.as_bytes().to_vec())));
        assert_eq!(
            query_internal(translation.as_bytes(), &mut container).ok().unwrap(),
            expected
        );
        let key = packed(strokes.as_bytes());
        let expected: Vec<(Vec<u8>, Vec<u8>)> = pairs
            .iter()
            .filter(|pair| packed(pair.0.as_bytes()) == key)
            .map(|pair| (key.clone(), pair.1.as_bytes().to_vec()))
            .collect();
        assert!(expected.contains(&(key.clone(), translation.as_bytes().to_vec())));
        assert_eq!(
            find_strokes_internal(strokes.as_bytes(), &mut container).ok().unwrap(),
            expected
        );
    }
}

#[test]
fn shared_translations_yield_their_strokes_in_the_order_of_the_text() {
    let pairs = pairs(100);
    let mut container = load(&pairs);
    let found = query_internal(b"shared0", &mut container).ok().unwrap();
    let expected: Vec<Vec<u8>> = [0usize, 20, 40, 60, 80]
        .iter()
        .map(|index| packed(pairs[*index].0.as_bytes()))
        .collect();
    assert_eq!(found.into_iter().map(|result| result.0).collect::<Vec<_>>(), expected);
}

#[test]
fn image_is_the_same_for_every_load() {
    let pairs = pairs(300);
    let first = load(&pairs);
    let second = load(&pairs);
    assert_eq!(first.get_usize_buffer(), second.get_usize_buffer());
    assert_eq!(first.get_u8_buffer(), second.get_u8_buffer());
    // The layout of the text does not matter, its entries do.
    let mut compact: Vec<u8> = json(&pairs).into_iter().filter(|byte| *byte != b'\n').collect();
    let third = load_json_internal::<VecContainer>(&mut compact[..]).ok().unwrap();
    assert_eq!(first.get_u8_buffer(), third.get_u8_buffer());
    assert_eq!(first.get_usize_buffer(), third.get_usize_buffer());
}

#[test]
fn test_loader() {
    let mut json_dict = b"{\n\"KPWHREUFLT\": \"implicitly\",\n\"EUPL/PHREUS/EUT\": \"implicit\",\n\"KPWHREUS/EUT\": \"explicit\"\n}".to_vec();
    let mut container = load_json_internal::<VecContainer>(&mut json_dict[..]).ok().unwrap();
    let results = query_internal(b"implicitly", &mut container).ok().unwrap();
    assert_eq!(results, vec![(packed(b"KPWHREUFLT"), b"implicitly".to_vec())]);
    let results = find_strokes_internal(b"KPWHREUFLT", &mut container).ok().unwrap();
    assert_eq!(results, vec![(packed(b"KPWHREUFLT"), b"implicitly".to_vec())]);
}
