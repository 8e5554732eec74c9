//! A compact, read-only steno dictionary.
//!
//! A JSON object that maps stroke strings to translations is rewritten in
//! place into length-prefixed records, packed into two hash tables whose
//! entries point at each other, and then queried in both directions.

pub mod container;
pub mod error;
pub mod hashing;
pub mod hashtable;
pub mod image;
pub mod keys;
pub mod layout;
pub mod loader;
pub mod maker;
pub mod query;
pub mod records;
pub mod stroke;
pub mod transcode;

pub use container::{DataStructuresContainer, VecContainer};
pub use error::{ErrorKind, InternalError};
pub use hashing::{get_bucket_index, get_bucket_index_from_iterator, hash_key};
pub use hashtable::{BucketEntryIterator, Entry, EntryHandle, HashTable};
pub use loader::load_json_internal;
pub use keys::{compare_with_iterator, count_up_to, ByteIterator, KeyIterator, SliceBytes};
pub use maker::HashTableMaker;
pub use query::{
    find_strokes_internal, get_hashtables_from_container, parse_strokes_query, query_internal,
};
pub use records::{AllStrokesIterator, AllTranslationsIterator, BufferIterator};
pub use stroke::{parse_stroke_fast, ParseStrokesIterator, PARSE_STROKE_TABLE};
pub use transcode::{expect_char, rewrite_entry, rewrite_string, skip_whitespace, transcode};
