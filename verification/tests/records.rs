use query_engine::{
    compare_with_iterator, count_up_to, AllStrokesIterator, AllTranslationsIterator,
    BufferIterator, ByteIterator, KeyIterator, SliceBytes,
};

fn bytes_of<K: ByteIterator>(mut key: K) -> Vec<u8> {
    let mut bytes = Vec::new();
    while let Some(byte) = key.next() {
        bytes.push(byte);
    }
    bytes
}

const STREAM: &[u8] = b"\x08\x00KPWHRE\x04\x00hi\x02\x00\x02\x00\x07\x00TPHEU\x06\x00knee";

#[test]
fn buffer_iterator_yields_the_payloads() {
    let mut iterator = BufferIterator::new(STREAM);
    assert_eq!(iterator.next(), Some(&b"KPWHRE"[..]));
    assert_eq!(iterator.next(), Some(&b"hi"[..]));
    assert_eq!(iterator.next(), Some(&b""[..]));
    assert_eq!(iterator.next(), Some(&b""[..]));
    assert_eq!(iterator.next(), Some(&b"TPHEU"[..]));
    assert_eq!(iterator.next(), Some(&b"knee"[..]));
    assert_eq!(iterator.next(), None);
    assert_eq!(iterator.next(), None);
}

#[test]
fn buffer_iterator_of_nothing_yields_nothing() {
    let mut iterator = BufferIterator::new(b"");
    assert_eq!(iterator.next(), None);
}

#[test]
fn buffer_iterator_reads_the_header_low_byte_first() {
    let mut stream = vec![0x2E, 0x01];
    stream.resize(302, b'x');
    stream.extend_from_slice(&[3, 0, b'y']);
    let mut iterator = BufferIterator::new(&stream);
    assert_eq!(iterator.next().map(|payload| payload.len()), Some(300));
    assert_eq!(iterator.next(), Some(&b"y"[..]));
    assert_eq!(iterator.next(), None);
}

#[test]
fn translations_are_every_second_record() {
    let mut iterator = AllTranslationsIterator::new(STREAM);
    assert_eq!(iterator.next().map(bytes_of), Some(b"hi".to_vec()));
    assert_eq!(iterator.next().map(bytes_of), Some(b"".to_vec()));
    assert_eq!(iterator.next().map(bytes_of), Some(b"knee".to_vec()));
    assert!(iterator.next().is_none());
}

#[test]
fn strokes_are_every_other_record_packed() {
    let mut iterator = AllStrokesIterator::new(STREAM);
    assert_eq!(iterator.next().map(bytes_of), Some(vec![0xF8, 0x08, 0x00]));
    assert_eq!(iterator.next().map(bytes_of), Some(vec![]));
    assert_eq!(iterator.next().map(bytes_of), Some(vec![0x54, 0x18, 0x00]));
    assert!(iterator.next().is_none());
}

#[test]
fn a_record_without_a_partner_is_no_pair() {
    let stream = b"\x03\x00S\x04\x00is\x03\x00T";
    let mut strokes = AllStrokesIterator::new(stream);
    assert!(strokes.next().is_some());
    assert!(strokes.next().is_none());
    let mut translations = AllTranslationsIterator::new(stream);
    assert!(translations.next().is_some());
    assert!(translations.next().is_none());
}

#[test]
fn key_iterators_restart_from_a_copy() {
    let mut iterator = AllStrokesIterator::new(STREAM);
    iterator.next();
    let mut copy = iterator;
    assert_eq!(iterator.next().map(bytes_of), copy.next().map(bytes_of));
    assert_eq!(iterator.next().map(bytes_of), copy.next().map(bytes_of));
    assert!(copy.next().is_none());
}

#[test]
fn compare_with_iterator_compares_all_bytes() {
    assert!(compare_with_iterator(b"knee", SliceBytes::new(b"knee")));
    assert!(compare_with_iterator(b"", SliceBytes::new(b"")));
    assert!(!compare_with_iterator(b"knee", SliceBytes::new(b"knew")));
    assert!(!compare_with_iterator(b"knee", SliceBytes::new(b"kne")));
    assert!(!compare_with_iterator(b"kne", SliceBytes::new(b"knee")));
    assert!(!compare_with_iterator(b"", SliceBytes::new(b"k")));
}

#[test]
fn count_up_to_counts_or_gives_up() {
    assert_eq!(count_up_to(SliceBytes::new(b"knee"), 10), Some(4));
    assert_eq!(count_up_to(SliceBytes::new(b"knee"), 4), Some(4));
    assert_eq!(count_up_to(SliceBytes::new(b"knee"), 3), None);
    assert_eq!(count_up_to(SliceBytes::new(b""), 0), Some(0));
}
