//! Building a table from its keys.
//!
//! The keys are read more than once and never stored outside the table: a
//! first pass counts them and their bytes, so that the table's memory can be
//! sized; three more passes size the buckets, lay them out, and place the
//! entries.

use crate::error::{ErrorKind, InternalError};
use crate::hashing::{bucket_of, get_bucket_index_from_iterator};
use crate::hashtable::{
    bucket_end,
    entry_bytes,
    is_bucket,
    used_length,
    HashTable,
    ENTRY_OVERHEAD,
    MAX_ENTRY_LENGTH,
    UNSET,
};
use crate::keys::{count_up_to, ByteIterator, KeyIterator};
use crate::layout::{
    bucket_start,
    entry_in_place,
    entry_length,
    entry_offset,
    fill_of,
    holds_first,
    is_table_of,
    keys_fit,
    lemma_bucket_bounds,
    lemma_bucket_of,
    lemma_bucket_order,
    lemma_bucket_structure,
    lemma_entry_region,
    lemma_next_in_bucket,
    lemma_size_below_ends,
    lemma_size_below_next,
    lemma_sizes,
    size_in,
    slot_marked,
    total_size,
};
use crate::records::{header_of, le16};
use vstd::prelude::*;

verus! {

/// The number of entries for each bucket, unless another is set.
pub const DEFAULT_LOAD_FACTOR: usize = 10;

/// The most bytes that the data of one table may hold: every offset into it
/// fits a value, and is none of `UNSET`.
pub const MAX_DATA_SIZE: usize = 0xFFFF_FFFE;

/// The longest key: its entry is no longer than `MAX_ENTRY_LENGTH`.
pub const MAX_KEY_LENGTH: usize = 0xFFF8;

/// `count` values, none of them set.
pub open spec fn unset_values(count: int) -> Seq<u32> {
    Seq::new(count as nat, |index: int| UNSET)
}

/// The number of buckets for `entries` entries: as many as hold
/// `load_factor` entries each, and one at least.
pub open spec fn buckets_for(entries: int, load_factor: int) -> int {
    if entries / load_factor == 0 {
        1
    } else {
        entries / load_factor
    }
}

/// The error on which sizing the first `count` keys stops: an entry that does
/// not fit its header, or data that grows over `MAX_DATA_SIZE`, whichever is
/// met first.
pub open spec fn sizing_error(keys: Seq<Seq<u8>>, count: int) -> Option<ErrorKind>
    decreases count,
{
    if count <= 0 {
        None
    } else if sizing_error(keys, count - 1) is Some {
        sizing_error(keys, count - 1)
    } else if entry_length(keys[count - 1]) > MAX_ENTRY_LENGTH {
        Some(ErrorKind::EntryTooLong)
    } else if total_size(keys, count) > MAX_DATA_SIZE {
        Some(ErrorKind::ImageTooLarge)
    } else {
        None
    }
}

/// Keys that are sized without an error fit.
pub proof fn lemma_sizing_error(keys: Seq<Seq<u8>>, count: int)
    requires
        0 <= count <= keys.len(),
        sizing_error(keys, count) is None,
    ensures
        total_size(keys, count) <= MAX_DATA_SIZE,
        forall|index: int| 0 <= index < count ==> entry_length(#[trigger] keys[index])
            <= MAX_ENTRY_LENGTH,
    decreases count,
{
    if count > 0 {
        lemma_sizing_error(keys, count - 1);
    }
}

/// The sizes of a table, taken from its keys before the table is made.
pub struct HashTableMaker<I: KeyIterator> {
    num_entries: usize,
    num_keybytes_total: usize,
    load_factor: usize,
    keys: I,
}

/// Finds the empty slot of the bucket that `data` holds from `start` to
/// `end`: the place behind its entries.
fn find_empty_slot(data: &[u8], start: usize, end: usize) -> (slot: usize)
    requires
        start <= end <= data@.len(),
        is_bucket(data@.subrange(start as int, end as int)),
        used_length(data@.subrange(start as int, end as int)) < end - start,
    ensures
        slot == start + used_length(data@.subrange(start as int, end as int)),
        slot + 2 <= end,
        data@[slot as int] == 0,
        data@[slot + 1] == 0,
{
    let mut offset = start;
    loop
        invariant
            start <= offset <= end <= data@.len(),
            is_bucket(data@.subrange(offset as int, end as int)),
            used_length(data@.subrange(offset as int, end as int)) < end - offset,
            offset + used_length(data@.subrange(offset as int, end as int)) == start
                + used_length(data@.subrange(start as int, end as int)),
        decreases end - offset,
    {
        let ghost bytes = data@.subrange(offset as int, end as int);
        let length = data[offset] as usize + 0x100 * (data[offset + 1] as usize);
        assert(length == header_of(bytes));
        if length == 0 {
            return offset;
        }
        assert(bytes.skip(length as int) =~= data@.subrange(offset + length, end as int));
        offset += length;
    }
}

/// Writes the entry of the key that `key` has still to give, without a value,
/// at `offset`.
fn write_entry<K: ByteIterator>(data: &mut [u8], offset: usize, key: K, key_length: usize)
    requires
        key.wf(),
        key.remaining().len() == key_length,
        key_length + ENTRY_OVERHEAD <= MAX_ENTRY_LENGTH,
        offset + key_length + ENTRY_OVERHEAD <= old(data)@.len(),
    ensures
        final(data)@ == old(data)@.subrange(0, offset as int) + entry_bytes(
            key.remaining(),
            UNSET,
        ) + old(data)@.subrange(offset + key_length + ENTRY_OVERHEAD, old(data)@.len() as int),
{
    let ghost before = data@;
    let ghost bytes = key.remaining();
    assert(data.len() == data@.len());
    let length = ENTRY_OVERHEAD + key_length;
    data[offset] = (length % 256) as u8;
    data[offset + 1] = (length / 256) as u8;
    let mut rest = key;
    let mut write_pos = offset + 2;
    proof {
        assert(bytes.skip(0) =~= bytes);
    }
    loop
        invariant_except_break
            rest.remaining() == bytes.skip(write_pos - offset - 2),
        invariant
            bytes == key.remaining(),
            bytes.len() == key_length,
            before.len() == data@.len(),
            offset + key_length + ENTRY_OVERHEAD <= data@.len(),
            rest.wf(),
            offset + 2 <= write_pos <= offset + 2 + key_length,
            forall|i: int| 0 <= i < offset ==> data@[i] == before[i],
            forall|i: int| write_pos <= i < before.len() ==> data@[i] == before[i],
            data@[offset as int] == le16(key_length + ENTRY_OVERHEAD)[0],
            data@[offset + 1] == le16(key_length + ENTRY_OVERHEAD)[1],
            forall|j: int| 0 <= j < write_pos - offset - 2 ==> data@[offset + 2 + j] == bytes[j],
        ensures
            write_pos == offset + 2 + key_length,
        decreases rest.remaining().len(),
    {
        match rest.next() {
            None => {
                break ;
            },
            Some(byte) => {
                assert(bytes.skip(write_pos - offset - 2).skip(1) =~= bytes.skip(
                    write_pos - offset - 1,
                ));
                data[write_pos] = byte;
                write_pos += 1;
            },
        }
    }
    data[write_pos] = 0xFF;
    data[write_pos + 1] = 0xFF;
    data[write_pos + 2] = 0xFF;
    data[write_pos + 3] = 0xFF;
    proof {
        assert(data@ =~= before.subrange(0, offset as int) + entry_bytes(bytes, UNSET)
            + before.subrange(offset + key_length + ENTRY_OVERHEAD, before.len() as int));
    }
}

/// Sizes the buckets: each bucket gets the length of the entries that go
/// into it.
fn measure_buckets<I: KeyIterator>(keys: I, buckets: &mut [usize])
    requires
        keys.wf(),
        keys_fit(keys.remaining()),
        total_size(keys.remaining(), keys.remaining().len() as int) <= MAX_DATA_SIZE,
        old(buckets)@.len() > 0,
    ensures
        final(buckets)@.len() == old(buckets)@.len(),
        forall|bucket: int|
            0 <= bucket < final(buckets)@.len() ==> #[trigger] final(buckets)@[bucket] == size_in(
                keys.remaining(),
                final(buckets)@.len() as int,
                bucket,
                keys.remaining().len() as int,
            ),
{
    let ghost all = keys.remaining();
    let count = buckets.len();
    let mut index: usize = 0;
    while index < count
        invariant
            count == buckets@.len(),
            index <= count,
            forall|bucket: int| 0 <= bucket < index ==> buckets@[bucket] == 0,
        decreases count - index,
    {
        buckets[index] = 0;
        index += 1;
    }
    let mut rest = keys;
    let ghost mut done: int = 0;
    proof {
        assert(all.skip(0) =~= all);
    }
    loop
        invariant_except_break
            rest.remaining() == all.skip(done),
        invariant
            all == keys.remaining(),
            keys_fit(all),
            total_size(all, all.len() as int) <= MAX_DATA_SIZE,
            rest.wf(),
            0 <= done <= all.len(),
            count == buckets@.len(),
            count > 0,
            forall|bucket: int|
                0 <= bucket < count ==> #[trigger] buckets@[bucket] == size_in(
                    all,
                    count as int,
                    bucket,
                    done,
                ),
        ensures
            done == all.len(),
        decreases all.len() - done,
    {
        match rest.next() {
            None => {
                break ;
            },
            Some(key) => {
                proof {
                    assert(all.skip(done).skip(1) =~= all.skip(done + 1));
                    assert(all.skip(done)[0] == all[done]);
                    assert(entry_length(all[done]) <= MAX_ENTRY_LENGTH);
                }
                let key_length = count_up_to(key, MAX_KEY_LENGTH).unwrap();
                let total_size = ENTRY_OVERHEAD + key_length;
                let index = get_bucket_index_from_iterator(key, buckets);
                proof {
                    lemma_sizes(all, count as int, index as int, done + 1, all.len() as int);
                    lemma_sizes(all, count as int, index as int, done, done + 1);
                }
                let size = buckets[index];
                buckets[index] = size + total_size;
                proof {
                    done = done + 1;
                }
            },
        }
    }
}

/// A bucket that holds anything holds an entry at least, and where it grows
/// it grows by an entry at least.
proof fn lemma_room(keys: Seq<Seq<u8>>, buckets: int, bucket: int, from: int, to: int)
    requires
        0 <= from <= to <= keys.len(),
        size_in(keys, buckets, bucket, from) < size_in(keys, buckets, bucket, to),
    ensures
        size_in(keys, buckets, bucket, from) + ENTRY_OVERHEAD <= size_in(keys, buckets, bucket, to),
{
    let next = lemma_next_in_bucket(keys, buckets, bucket, from, to);
    lemma_sizes(keys, buckets, bucket, next + 1, to);
}

/// Lays the buckets out: each bucket gets its start in place of its size, and
/// each bucket that will hold anything the zero header of an empty slot.
fn lay_out_buckets(buckets: &mut [usize], data: &mut [u8], Ghost(keys): Ghost<Seq<Seq<u8>>>)
    requires
        old(buckets)@.len() > 0,
        keys_fit(keys),
        old(data)@.len() == total_size(keys, keys.len() as int),
        forall|bucket: int|
            0 <= bucket < old(buckets)@.len() ==> #[trigger] old(buckets)@[bucket] == size_in(
                keys,
                old(buckets)@.len() as int,
                bucket,
                keys.len() as int,
            ),
    ensures
        holds_first(final(buckets)@, final(data)@, keys, unset_values(keys.len() as int), 0),
        final(buckets)@.len() == old(buckets)@.len(),
        final(data)@.len() == old(data)@.len(),
{
    let count = buckets.len();
    let ghost all = keys.len() as int;
    let mut offset: usize = 0;
    let mut index: usize = 0;
    proof {
        lemma_size_below_ends(keys, count as int, all);
    }
    assert(data.len() == data@.len());
    while index < count
        invariant
            count == buckets@.len(),
            count > 0,
            all == keys.len(),
            data@.len() == total_size(keys, all),
            data@.len() <= usize::MAX,
            index <= count,
            offset == bucket_start(keys, count as int, index as int),
            forall|bucket: int|
                0 <= bucket < index ==> #[trigger] buckets@[bucket] == bucket_start(
                    keys,
                    count as int,
                    bucket,
                ),
            forall|bucket: int|
                index <= bucket < count ==> #[trigger] buckets@[bucket] == size_in(
                    keys,
                    count as int,
                    bucket,
                    all,
                ),
            forall|bucket: int|
                0 <= bucket < index ==> #[trigger] slot_marked(
                    data@,
                    keys,
                    count as int,
                    bucket,
                    0,
                ),
        decreases count - index,
    {
        let ghost before = data@;
        let bucket_size = buckets[index];
        buckets[index] = offset;
        proof {
            lemma_size_below_next(keys, count as int, index as int, all);
            lemma_sizes(keys, count as int, index as int, all, all);
            lemma_sizes(keys, count as int, index + 1, all, all);
            lemma_size_below_ends(keys, count as int, all);
            if index + 1 < count {
                lemma_bucket_order(keys, count as int, index + 1, count as int);
            }
            if bucket_size > 0 {
                lemma_room(keys, count as int, index as int, 0, all);
            }
        }
        if bucket_size > 0 {
            data[offset] = 0;
            data[offset + 1] = 0;
        }
        proof {
            assert forall|bucket: int| 0 <= bucket < index + 1 implies #[trigger] slot_marked(
                data@,
                keys,
                count as int,
                bucket,
                0,
            ) by {
                if bucket < index {
                    // The slot of an earlier bucket lies before this bucket,
                    // and was not written to.
                    assert(slot_marked(before, keys, count as int, bucket, 0));
                    if 0 < size_in(keys, count as int, bucket, all) {
                        lemma_room(keys, count as int, bucket, 0, all);
                        lemma_bucket_order(keys, count as int, bucket, index as int);
                        lemma_sizes(keys, count as int, bucket, all, all);
                        let slot = fill_of(keys, count as int, bucket, 0);
                        assert(0 <= slot && slot + ENTRY_OVERHEAD <= offset);
                    }
                }
            }
        }
        offset += bucket_size;
        index += 1;
    }
}

/// What placing one entry does to a table in the making: the entry of the
/// next key written into its bucket's empty slot, and the slot behind it
/// marked as empty where the bucket is not full, make the table with one key
/// more placed.
proof fn lemma_entry_placed(
    table_buckets: Seq<usize>,
    before: Seq<u8>,
    after: Seq<u8>,
    keys: Seq<Seq<u8>>,
    values: Seq<u32>,
    count: int,
)
    requires
        holds_first(table_buckets, before, keys, values, count),
        count < keys.len(),
        after.len() == before.len(),
        entry_in_place(after, keys, values, table_buckets.len() as int, count),
        ({
            let buckets = table_buckets.len() as int;
            let bucket = bucket_of(keys[count], buckets);
            let end = entry_offset(keys, buckets, count) + entry_length(keys[count]);
            let full = end == bucket_end(table_buckets, before.len() as int, bucket);
            &&& forall|i: int|
                0 <= i < entry_offset(keys, buckets, count) ==> after[i] == before[i]
            &&& forall|i: int|
                end + (if full { 0int } else { 2int }) <= i < before.len() ==> after[i]
                    == before[i]
            &&& !full ==> after[end] == 0 && after[end + 1] == 0
        }),
    ensures
        holds_first(table_buckets, after, keys, values, count + 1),
{
    let buckets = table_buckets.len() as int;
    let all = keys.len() as int;
    let bucket = bucket_of(keys[count], buckets);
    let start = entry_offset(keys, buckets, count);
    let end = start + entry_length(keys[count]);
    let full = end == bucket_end(table_buckets, before.len() as int, bucket);
    let written = end + (if full { 0int } else { 2int });
    lemma_bucket_of(keys[count], buckets);
    lemma_bucket_bounds(table_buckets, before.len() as int, keys, bucket);
    lemma_entry_region(keys, buckets, count, count + 1);
    if !full {
        lemma_room(keys, buckets, bucket, count + 1, all);
    }
    assert forall|index: int| 0 <= index < count + 1 implies #[trigger] entry_in_place(
        after,
        keys,
        values,
        buckets,
        index,
    ) by {
        if index < count {
            let other = bucket_of(keys[index], buckets);
            lemma_bucket_of(keys[index], buckets);
            lemma_entry_region(keys, buckets, index, count);
            assert(entry_in_place(before, keys, values, buckets, index));
            let from = entry_offset(keys, buckets, index);
            let to = from + entry_length(keys[index]);
            if other < bucket {
                lemma_bucket_order(keys, buckets, other, bucket);
            } else if other > bucket {
                lemma_bucket_order(keys, buckets, bucket, other);
            }
            assert(to <= start || written <= from);
            assert(after.subrange(from, to) =~= before.subrange(from, to));
        }
    }
    assert forall|other: int| 0 <= other < buckets implies #[trigger] slot_marked(
        after,
        keys,
        buckets,
        other,
        count + 1,
    ) by {
        if size_in(keys, buckets, other, count + 1) < size_in(keys, buckets, other, all) {
            if other != bucket {
                assert(slot_marked(before, keys, buckets, other, count));
                lemma_room(keys, buckets, other, count, all);
                lemma_bucket_bounds(table_buckets, before.len() as int, keys, other);
                lemma_sizes(keys, buckets, other, count, count);
                if other < bucket {
                    lemma_bucket_order(keys, buckets, other, bucket);
                } else {
                    lemma_bucket_order(keys, buckets, bucket, other);
                }
            }
        }
    }
}

/// Places the entry of key number `count`, which `key` has still to give.
fn place_entry<K: ByteIterator>(
    key: K,
    buckets: &[usize],
    data: &mut [u8],
    Ghost(keys): Ghost<Seq<Seq<u8>>>,
    Ghost(count): Ghost<int>,
)
    requires
        holds_first(buckets@, old(data)@, keys, unset_values(keys.len() as int), count),
        count < keys.len(),
        key.wf(),
        key.remaining() == keys[count],
    ensures
        holds_first(buckets@, final(data)@, keys, unset_values(keys.len() as int), count + 1),
{
    let ghost before = data@;
    let ghost values = unset_values(keys.len() as int);
    let ghost all = keys.len() as int;
    let ghost total = buckets@.len() as int;
    assert(data.len() == data@.len());
    assert(entry_length(keys[count]) <= MAX_ENTRY_LENGTH);
    let index = get_bucket_index_from_iterator(key, buckets);
    let start = buckets[index];
    let end = if index + 1 < buckets.len() {
        buckets[index + 1]
    } else {
        data.len()
    };
    proof {
        lemma_bucket_structure(buckets@, before, keys, values, count, index as int, 0);
        lemma_bucket_bounds(buckets@, before.len() as int, keys, index as int);
        lemma_entry_region(keys, total, count, count + 1);
        lemma_sizes(keys, total, index as int, count + 1, all);
        assert(buckets@[index as int] == bucket_start(keys, total, index as int));
        assert(size_in(keys, total, index as int, 0) == 0);
    }
    let offset = find_empty_slot(data, start, end);
    let key_length = count_up_to(key, MAX_KEY_LENGTH).unwrap();
    write_entry(data, offset, key, key_length);
    let entry_end = offset + key_length + ENTRY_OVERHEAD;
    let ghost written = data@;
    if entry_end != end {
        proof {
            lemma_room(keys, total, index as int, count + 1, all);
        }
        data[entry_end] = 0;
        data[entry_end + 1] = 0;
    }
    proof {
        assert(data@.subrange(offset as int, entry_end as int) =~= written.subrange(
            offset as int,
            entry_end as int,
        ));
        assert(written.subrange(offset as int, entry_end as int) =~= entry_bytes(
            keys[count],
            UNSET,
        ));
        lemma_entry_placed(buckets@, before, data@, keys, values, count);
    }
}

/// Places the entries of all keys.
fn place_entries<I: KeyIterator>(keys: I, buckets: &[usize], data: &mut [u8])
    requires
        keys.wf(),
        holds_first(
            buckets@,
            old(data)@,
            keys.remaining(),
            unset_values(keys.remaining().len() as int),
            0,
        ),
    ensures
        is_table_of(
            buckets@,
            final(data)@,
            keys.remaining(),
            unset_values(keys.remaining().len() as int),
        ),
{
    let ghost all = keys.remaining();
    let mut rest = keys;
    let ghost mut done: int = 0;
    proof {
        assert(all.skip(0) =~= all);
    }
    loop
        invariant_except_break
            rest.remaining() == all.skip(done),
        invariant
            all == keys.remaining(),
            rest.wf(),
            0 <= done <= all.len(),
            holds_first(buckets@, data@, all, unset_values(all.len() as int), done),
        ensures
            done == all.len(),
        decreases all.len() - done,
    {
        match rest.next() {
            None => {
                break ;
            },
            Some(key) => {
                proof {
                    assert(all.skip(done).skip(1) =~= all.skip(done + 1));
                    assert(all.skip(done)[0] == all[done]);
                }
                place_entry(key, buckets, data, Ghost(all), Ghost(done));
                proof {
                    done = done + 1;
                }
            },
        }
    }
}

impl<I: KeyIterator> HashTableMaker<I> {
    /// The keys of the table to be made.
    pub closed spec fn keys_view(&self) -> Seq<Seq<u8>> {
        self.keys.remaining()
    }

    /// The number of entries for each bucket.
    pub closed spec fn load_factor_view(&self) -> usize {
        self.load_factor
    }

    /// The maker's own invariant: it holds the sizes of its keys, and they are
    /// within the limits of a table.
    pub closed spec fn wf(&self) -> bool {
        &&& self.keys.wf()
        &&& keys_fit(self.keys_view())
        &&& self.load_factor > 0
        &&& self.num_entries == self.keys_view().len()
        &&& ENTRY_OVERHEAD * self.num_entries + self.num_keybytes_total == total_size(
            self.keys_view(),
            self.keys_view().len() as int,
        )
        &&& total_size(self.keys_view(), self.keys_view().len() as int) <= MAX_DATA_SIZE
    }

    /// Counts the keys and their bytes. Fails where a key is too long for an
    /// entry or the keys are too many for a table.
    pub fn initialize(keys: I) -> (result: Result<HashTableMaker<I>, InternalError>)
        requires
            keys.wf(),
        ensures
            match sizing_error(keys.remaining(), keys.remaining().len() as int) {
                None => result matches Ok(maker) && maker.wf() && maker.keys_view()
                    == keys.remaining() && maker.load_factor_view() == DEFAULT_LOAD_FACTOR,
                Some(kind) => result matches Err(error) && error.kind == kind,
            },
    {
        let ghost all = keys.remaining();
        let mut keys_firstpass = keys;
        let mut num_entries: usize = 0;
        let mut num_keybytes_total: usize = 0;
        let ghost mut done: int = 0;
        proof {
            assert(all.skip(0) =~= all);
        }
        loop
            invariant_except_break
                keys_firstpass.remaining() == all.skip(done),
            invariant
                all == keys.remaining(),
                keys_firstpass.wf(),
                0 <= done <= all.len(),
                sizing_error(all, done) is None,
                num_entries == done,
                ENTRY_OVERHEAD * num_entries + num_keybytes_total == total_size(all, done),
                total_size(all, done) <= MAX_DATA_SIZE,
            ensures
                done == all.len(),
            decreases all.len() - done,
        {
            match keys_firstpass.next() {
                None => {
                    break ;
                },
                Some(key) => {
                    proof {
                        assert(all.skip(done).skip(1) =~= all.skip(done + 1));
                        assert(all.skip(done)[0] == all[done]);
                    }
                    let key_length = match count_up_to(key, MAX_KEY_LENGTH) {
                        Some(length) => length,
                        None => {
                            proof {
                                lemma_sizing_error_stays(all, done + 1, all.len() as int);
                            }
                            return Err(InternalError::new(ErrorKind::EntryTooLong));
                        },
                    };
                    let so_far = ENTRY_OVERHEAD * num_entries + num_keybytes_total;
                    if ENTRY_OVERHEAD + key_length > MAX_DATA_SIZE - so_far {
                        proof {
                            lemma_sizing_error_stays(all, done + 1, all.len() as int);
                        }
                        return Err(InternalError::new(ErrorKind::ImageTooLarge));
                    }
                    num_entries += 1;
                    num_keybytes_total += key_length;
                    proof {
                        done = done + 1;
                    }
                },
            }
        }
        proof {
            lemma_sizing_error(all, all.len() as int);
        }
        Ok(
            HashTableMaker {
                num_entries,
                num_keybytes_total,
                load_factor: DEFAULT_LOAD_FACTOR,
                keys,
            },
        )
    }

    /// Sets the number of entries for each bucket.
    pub fn set_load_factor(&mut self, load_factor: usize)
        requires
            old(self).wf(),
            load_factor > 0,
        ensures
            final(self).wf(),
            final(self).keys_view() == old(self).keys_view(),
            final(self).load_factor_view() == load_factor,
    {
        self.load_factor = load_factor;
    }

    /// The number of buckets of the table.
    pub fn get_buckets_length(&self) -> (length: usize)
        requires
            self.wf(),
        ensures
            length == buckets_for(self.keys_view().len() as int, self.load_factor_view() as int),
            0 < length <= MAX_DATA_SIZE / ENTRY_OVERHEAD,
    {
        let num_buckets = self.num_entries / self.load_factor;
        assert(self.num_entries / self.load_factor <= self.num_entries) by (nonlinear_arith)
            requires
                self.load_factor >= 1,
        ;
        if num_buckets == 0 {
            1
        } else {
            num_buckets
        }
    }

    /// The number of bytes of the table's data: for each entry its header, its
    /// key and its value.
    pub fn get_data_length(&self) -> (length: usize)
        requires
            self.wf(),
        ensures
            length == total_size(self.keys_view(), self.keys_view().len() as int),
            length <= MAX_DATA_SIZE,
            keys_fit(self.keys_view()),
    {
        let num_overhead_total = self.num_entries * ENTRY_OVERHEAD;
        num_overhead_total + self.num_keybytes_total
    }

    /// Makes the table in the memory given: every key gets its entry, and no
    /// entry a value yet.
    pub fn make_hash_table<'b>(
        self,
        buckets_memory: &'b mut [usize],
        data_memory: &'b mut [u8],
    ) -> (table: HashTable<'b>)
        requires
            self.wf(),
            old(buckets_memory)@.len() == buckets_for(
                self.keys_view().len() as int,
                self.load_factor_view() as int,
            ),
            old(data_memory)@.len() == total_size(
                self.keys_view(),
                self.keys_view().len() as int,
            ),
        ensures
            is_table_of(
                table.buckets@,
                table.data@,
                self.keys_view(),
                unset_values(self.keys_view().len() as int),
            ),
            table.buckets@.len() == old(buckets_memory)@.len(),
            table.data@.len() == old(data_memory)@.len(),
            final(buckets_memory)@ == table.buckets@,
            final(data_memory)@ == final(table.data)@,
    {
        let buckets = buckets_memory;
        let data = data_memory;
        measure_buckets(self.keys, buckets);
        lay_out_buckets(buckets, data, Ghost(self.keys.remaining()));
        place_entries(self.keys, buckets, data);
        HashTable { buckets, data }
    }
}

/// An error met while sizing stays the error of sizing more keys.
pub proof fn lemma_sizing_error_stays(keys: Seq<Seq<u8>>, fewer: int, more: int)
    requires
        fewer <= more,
        sizing_error(keys, fewer) is Some,
    ensures
        sizing_error(keys, more) == sizing_error(keys, fewer),
    decreases more - fewer,
{
    if fewer < more {
        lemma_sizing_error_stays(keys, fewer, more - 1);
    }
}

} // verus!
