//! The hash of a key and the bucket it selects.
//!
//! Keys are hashed with WyHash, seed 1, and handed to the hasher in blocks of
//! 32 bytes: a key is a stream of bytes, and no more than one block of it is
//! ever held. A table is built and searched with the same hash.

use crate::keys::{ByteIterator, SliceBytes};
use vstd::prelude::*;
use wyhash::WyHash;

verus! {

/// `wyhash::WyHash`, the streaming hasher. Nothing of it is known but what
/// the three functions below say.
#[verifier::external_type_specification]
#[verifier::external_body]
pub struct ExWyHash(WyHash);

/// The seed of every hash.
pub const HASH_SEED: u64 = 1;

/// The size of the blocks in which a key is handed to the hasher.
pub const HASH_BLOCK: usize = 32;

/// What a `WyHash` holds: its running hash, then the number of bytes that it
/// has taken in.
pub uninterp spec fn hasher_state(hasher: WyHash) -> (u64, u64);

/// What `Hasher::write` of `WyHash` makes of the running hash: the running
/// hash after the bytes of one call were taken in.
pub uninterp spec fn absorbed(running: u64, bytes: Seq<u8>) -> u64;

/// What `Hasher::finish` of `WyHash` returns: the hash for a running hash and
/// a count of bytes.
pub uninterp spec fn finished(running: u64, size: u64) -> u64;

/// `WyHash::with_seed`: a hasher whose running hash is the seed and which has
/// taken in no byte.
#[verifier::external_body]
fn hasher_with_seed(seed: u64) -> (hasher: WyHash)
    ensures
        hasher_state(hasher) == (seed, 0u64),
{
    WyHash::with_seed(seed)
}

/// `Hasher::write` of `WyHash`: the running hash becomes what it and the
/// bytes of this call determine, and the count of bytes grows by their number.
/// The count must not overflow.
#[verifier::external_body]
fn hasher_write(hasher: &mut WyHash, bytes: &[u8])
    requires
        hasher_state(*old(hasher)).1 + bytes@.len() <= u64::MAX,
    ensures
        hasher_state(*final(hasher)) == (
            absorbed(hasher_state(*old(hasher)).0, bytes@),
            (hasher_state(*old(hasher)).1 + bytes@.len()) as u64,
        ),
{
    core::hash::Hasher::write(hasher, bytes)
}

/// `Hasher::finish` of `WyHash`: the hash for the running hash and the count
/// of bytes.
#[verifier::external_body]
fn hasher_finish(hasher: &WyHash) -> (hash: u64)
    ensures
        hash == finished(hasher_state(*hasher).0, hasher_state(*hasher).1),
{
    core::hash::Hasher::finish(hasher)
}

/// The running hash after `key` was taken in block by block: whole blocks
/// first, then what is left of the key, which is a whole block where the key
/// ends on one, and nothing only where the key is empty.
pub open spec fn absorbed_in_blocks(running: u64, key: Seq<u8>) -> u64
    decreases key.len(),
{
    if key.len() <= HASH_BLOCK {
        absorbed(running, key)
    } else {
        absorbed_in_blocks(
            absorbed(running, key.subrange(0, HASH_BLOCK as int)),
            key.skip(HASH_BLOCK as int),
        )
    }
}

/// The hash of a key.
pub open spec fn key_hash(key: Seq<u8>) -> u64 {
    finished(absorbed_in_blocks(HASH_SEED, key), key.len() as u64)
}

/// The bucket of a key in a table of `buckets` buckets.
pub open spec fn bucket_of(key: Seq<u8>, buckets: int) -> int {
    key_hash(key) as int % buckets
}

/// Hashes the bytes that `iterator` has still to give.
pub fn hash_key<K: ByteIterator>(iterator: K) -> (hash: u64)
    requires
        iterator.wf(),
        iterator.remaining().len() <= u64::MAX,
    ensures
        hash == key_hash(iterator.remaining()),
{
    let ghost key = iterator.remaining();
    let mut rest = iterator;
    let mut hasher = hasher_with_seed(HASH_SEED);
    let mut buffer = [0u8;32];
    let mut buffer_pos: usize = 0;
    let ghost mut written: int = 0;
    proof {
        assert(key.skip(0) =~= key);
    }
    loop
        invariant_except_break
            rest.remaining() == key.skip(written + buffer_pos),
        invariant
            key == iterator.remaining(),
            key.len() <= u64::MAX,
            rest.wf(),
            0 <= written,
            buffer_pos <= HASH_BLOCK,
            written + buffer_pos <= key.len(),
            hasher_state(hasher).1 == written,
            buffer@.subrange(0, buffer_pos as int) == key.subrange(written, written + buffer_pos),
            absorbed_in_blocks(HASH_SEED, key) == absorbed_in_blocks(
                hasher_state(hasher).0,
                key.skip(written),
            ),
        ensures
            written + buffer_pos == key.len(),
        decreases rest.remaining().len(),
    {
        match rest.next() {
            None => {
                break ;
            },
            Some(byte) => {
                if buffer_pos >= HASH_BLOCK {
                    proof {
                        assert(buffer@ =~= buffer@.subrange(0, HASH_BLOCK as int));
                        assert(key.skip(written).subrange(0, HASH_BLOCK as int) =~= key.subrange(
                            written,
                            written + HASH_BLOCK,
                        ));
                        assert(key.skip(written).skip(HASH_BLOCK as int) =~= key.skip(
                            written + HASH_BLOCK,
                        ));
                    }
                    hasher_write(&mut hasher, buffer.as_slice());
                    buffer_pos = 0;
                    proof {
                        written = written + HASH_BLOCK;
                    }
                }
                buffer[buffer_pos] = byte;
                buffer_pos += 1;
            },
        }
    }
    let block = vstd::slice::slice_subrange(buffer.as_slice(), 0, buffer_pos);
    hasher_write(&mut hasher, block);
    hasher_finish(&hasher)
}

/// The bucket of the key that `iterator` has still to give.
pub fn get_bucket_index_from_iterator<K: ByteIterator>(iterator: K, buckets: &[usize]) -> (index:
    usize)
    requires
        iterator.wf(),
        iterator.remaining().len() <= u64::MAX,
        buckets@.len() > 0,
    ensures
        index == bucket_of(iterator.remaining(), buckets@.len() as int),
        index < buckets@.len(),
{
    let hash = hash_key(iterator);
    (hash % (buckets.len() as u64)) as usize
}

/// The bucket of the key `string`.
pub fn get_bucket_index(string: &[u8], buckets: &[usize]) -> (index: usize)
    requires
        buckets@.len() > 0,
    ensures
        index == bucket_of(string@, buckets@.len() as int),
        index < buckets@.len(),
{
    assert(string@.len() == string.len());
    get_bucket_index_from_iterator(SliceBytes::new(string), buckets)
}

} // verus!
