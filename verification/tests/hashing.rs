use core::hash::Hasher;
use query_engine::{
    get_bucket_index, get_bucket_index_from_iterator, hash_key, ParseStrokesIterator, SliceBytes,
};
use wyhash::{wyhash, WyHash};

fn key_of(length: usize) -> Vec<u8> {
    (0..length).map(|index| (index * 7 + 3) as u8).collect()
}

fn streamed(key: &[u8]) -> u64 {
    let mut hasher = WyHash::with_seed(1);
    if key.is_empty() {
        hasher.write(key);
    }
    for block in key.chunks(32) {
        hasher.write(block);
    }
    hasher.finish()
}

#[test]
fn hash_of_a_short_key_is_the_hash_of_its_bytes() {
    for length in 0..=32 {
        let key = key_of(length);
        assert_eq!(hash_key(SliceBytes::new(&key)), wyhash(&key, 1), "length {}", length);
    }
}

#[test]
fn hash_of_a_long_key_is_streamed_in_blocks() {
    for length in [33, 63, 64, 65, 96, 100, 1000] {
        let key = key_of(length);
        assert_eq!(hash_key(SliceBytes::new(&key)), streamed(&key), "length {}", length);
    }
}

#[test]
fn hash_depends_on_the_key_and_on_nothing_else() {
    let key = key_of(100);
    let first = hash_key(SliceBytes::new(&key));
    assert_eq!(first, hash_key(SliceBytes::new(&key.clone())));
    let mut other = key.clone();
    other[99] ^= 1;
    assert_ne!(first, hash_key(SliceBytes::new(&other)));
    assert_ne!(first, 0);
    assert_ne!(hash_key(SliceBytes::new(b"")), hash_key(SliceBytes::new(b"\0")));
}

#[test]
fn hash_is_seeded_with_one() {
    assert_eq!(hash_key(SliceBytes::new(b"hi")), wyhash(b"hi", 1));
    assert_ne!(hash_key(SliceBytes::new(b"hi")), wyhash(b"hi", 0));
    assert_ne!(hash_key(SliceBytes::new(b"hi")), wyhash(b"hi", 3));
}

#[test]
fn bucket_is_the_hash_modulo_the_number_of_buckets() {
    let buckets = [0usize; 7];
    for text in [&b"hi"[..], b"hello", b"", b"implicitly"] {
        let expected = (wyhash(text, 1) % 7) as usize;
        assert_eq!(get_bucket_index(text, &buckets), expected);
        assert_eq!(get_bucket_index_from_iterator(SliceBytes::new(text), &buckets), expected);
    }
    assert_eq!(get_bucket_index(b"anything", &[0usize]), 0);
}

#[test]
fn bucket_of_strokes_is_that_of_their_packed_bytes() {
    let buckets = [0usize; 5];
    let packed = [0x40, 0x08, 0x02, 0x00, 0x0A, 0x00];
    assert_eq!(
        get_bucket_index_from_iterator(ParseStrokesIterator::new(b"HEL/LOE"), &buckets),
        get_bucket_index(&packed, &buckets)
    );
}
