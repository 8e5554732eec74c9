use query_engine::{ErrorKind, HashTableMaker, KeyIterator, SliceBytes};

#[derive(Clone, Copy)]
struct TestIterator {
    data: &'static [u8],
    offset: usize,
}

impl KeyIterator for TestIterator {
    type Key = SliceBytes<'static>;

    fn next(&mut self) -> Option<SliceBytes<'static>> {
        if self.offset + 4 < self.data.len() {
            Some(SliceBytes::new(&self.data[self.offset..self.offset + 4]))
        } else {
            None
        }
    }
}

// The iterator never moves on: its keys have no end, and sizing them stops
// where they outgrow a table.
#[test]
fn test_hashtable_initialization() {
    let test_iterator = TestIterator {
        data: b"asdf bla hello world",
        offset: 0,
    };
    let hash_table_maker = HashTableMaker::initialize(test_iterator);
    assert_eq!(hash_table_maker.err().map(|error| error.kind), Some(ErrorKind::ImageTooLarge));
}
