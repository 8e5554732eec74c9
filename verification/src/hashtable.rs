//! The hash table: an array of bucket offsets and a byte array in which each
//! bucket is a packed run of entries.
//!
//! An entry is a two-byte header with the length of the whole entry, the
//! bytes of the key, and a four-byte value. All numbers are stored low byte
//! first.

use crate::hashing::{bucket_of, get_bucket_index, get_bucket_index_from_iterator};
use crate::keys::{compare_with_iterator, ByteIterator, SliceBytes};
use crate::records::{header_of, le16};
use vstd::prelude::*;

verus! {

/// The bytes of an entry beside its key: the header and the value.
pub const ENTRY_OVERHEAD: usize = 6;

/// The value of an entry that was not linked yet.
pub const UNSET: u32 = 0xFFFF_FFFF;

/// The longest entry: its length is stored in 16 bits, and stays below their
/// largest value.
pub const MAX_ENTRY_LENGTH: usize = 0xFFFE;

/// A 32-bit number as four bytes, low byte first.
pub open spec fn le32(value: u32) -> Seq<u8> {
    seq![
        (value % 256) as u8,
        (value / 0x100 % 256) as u8,
        (value / 0x1_0000 % 256) as u8,
        (value / 0x100_0000 % 256) as u8,
    ]
}

/// The number that four bytes hold, low byte first.
pub open spec fn le32_value(bytes: Seq<u8>) -> u32 {
    (bytes[0] as int + 0x100 * (bytes[1] as int) + 0x1_0000 * (bytes[2] as int) + 0x100_0000 * (
    bytes[3] as int)) as u32
}

/// The bytes of the entry for `key` with the value `value`.
pub open spec fn entry_bytes(key: Seq<u8>, value: u32) -> Seq<u8> {
    le16(key.len() as int + ENTRY_OVERHEAD) + key + le32(value)
}

/// An entry as the contracts see it: where it starts in the table's data, its
/// key and its value.
pub struct EntryView {
    pub offset: int,
    pub key: Seq<u8>,
    pub value: u32,
}

/// Whether `bytes` is a bucket: entries one after the other, and then either
/// nothing or the zero header of an empty slot.
pub open spec fn is_bucket(bytes: Seq<u8>) -> bool
    decreases bytes.len(),
{
    bytes.len() == 0 || (bytes.len() >= 2 && (header_of(bytes) == 0 || (ENTRY_OVERHEAD
        <= header_of(bytes) <= bytes.len() && is_bucket(bytes.skip(header_of(bytes))))))
}

/// Whether `bytes` is a full bucket: entries one after the other, and nothing
/// else.
pub open spec fn is_packed(bytes: Seq<u8>) -> bool
    decreases bytes.len(),
{
    bytes.len() == 0 || (bytes.len() >= 2 && ENTRY_OVERHEAD <= header_of(bytes) <= bytes.len()
        && is_packed(bytes.skip(header_of(bytes))))
}

/// The entries of a bucket that starts at `base` in the table's data, up to
/// its end or its first empty slot.
pub open spec fn entries_in(bytes: Seq<u8>, base: int) -> Seq<EntryView>
    decreases bytes.len(),
{
    if bytes.len() < 2 || header_of(bytes) < ENTRY_OVERHEAD || header_of(bytes) > bytes.len() {
        Seq::empty()
    } else {
        seq![
            EntryView {
                offset: base,
                key: bytes.subrange(2, header_of(bytes) - 4),
                value: le32_value(bytes.subrange(header_of(bytes) - 4, header_of(bytes))),
            },
        ] + entries_in(bytes.skip(header_of(bytes)), base + header_of(bytes))
    }
}

/// The length of the entries of a bucket, up to its end or its first empty
/// slot.
pub open spec fn used_length(bytes: Seq<u8>) -> int
    decreases bytes.len(),
{
    if bytes.len() < 2 || header_of(bytes) < ENTRY_OVERHEAD || header_of(bytes) > bytes.len() {
        0
    } else {
        header_of(bytes) + used_length(bytes.skip(header_of(bytes)))
    }
}

/// The values of those of `entries` that have the key `key`, in their order.
pub open spec fn values_of(entries: Seq<EntryView>, key: Seq<u8>) -> Seq<u32>
    decreases entries.len(),
{
    if entries.len() == 0 {
        Seq::empty()
    } else if entries[0].key == key {
        seq![entries[0].value] + values_of(entries.skip(1), key)
    } else {
        values_of(entries.skip(1), key)
    }
}

/// The index of the first of `entries` that has the key `key` and no value
/// yet; the number of entries where there is none.
pub open spec fn first_unset(entries: Seq<EntryView>, key: Seq<u8>) -> int
    decreases entries.len(),
{
    if entries.len() == 0 {
        0
    } else if entries[0].key == key && entries[0].value == UNSET {
        0
    } else {
        1 + first_unset(entries.skip(1), key)
    }
}

/// Where bucket `index` ends: where the next one starts, and the last one at
/// the end of the data.
pub open spec fn bucket_end(buckets: Seq<usize>, data_len: int, index: int) -> int {
    if index + 1 < buckets.len() {
        buckets[index + 1] as int
    } else {
        data_len
    }
}

/// The bytes of bucket `index`.
pub open spec fn bucket_bytes(buckets: Seq<usize>, data: Seq<u8>, index: int) -> Seq<u8> {
    data.subrange(buckets[index] as int, bucket_end(buckets, data.len() as int, index))
}

/// Whether bucket `index` lies in the data and is a run of entries.
pub open spec fn bucket_is_sound(buckets: Seq<usize>, data: Seq<u8>, index: int) -> bool {
    &&& buckets[index] <= bucket_end(buckets, data.len() as int, index) <= data.len()
    &&& is_bucket(bucket_bytes(buckets, data, index))
}

/// Whether `buckets` and `data` make a table: there is a bucket, each bucket
/// lies in the data, and each is a run of entries.
pub open spec fn is_table(buckets: Seq<usize>, data: Seq<u8>) -> bool {
    &&& buckets.len() > 0
    &&& forall|index: int|
        0 <= index < buckets.len() ==> #[trigger] bucket_is_sound(buckets, data, index)
}

/// Four bytes written from a number are read back as that number.
pub proof fn lemma_le32(value: u32)
    ensures
        le32(value).len() == 4,
        le32_value(le32(value)) == value,
{
}

/// One entry of a table, borrowed from its data.
pub struct Entry<'a> {
    pub offset: usize,
    pub length: usize,
    pub key: &'a [u8],
    pub value: u32,
}

/// The place of an entry, without a borrow of the table: enough to set the
/// entry's value.
pub struct EntryHandle {
    pub offset: usize,
    pub length: usize,
}

impl<'a> Entry<'a> {
    /// What the contracts see of the entry.
    pub open spec fn view(&self) -> EntryView {
        EntryView { offset: self.offset as int, key: self.key@, value: self.value }
    }

    /// Reads the entry of `length` bytes at `offset`.
    pub fn new_with_length(data: &'a [u8], offset: usize, length: usize) -> (entry: Entry<'a>)
        requires
            ENTRY_OVERHEAD <= length,
            offset + length <= data@.len(),
        ensures
            entry.offset == offset,
            entry.length == length,
            entry.key@ == data@.subrange(offset + 2, offset + length - 4),
            entry.value == le32_value(data@.subrange(offset + length - 4, offset + length)),
    {
        assert(data.len() == data@.len());
        let key_start = offset + 2;
        let key_end = offset + length - 4;
        let value_start = key_end;
        let key = vstd::slice::slice_subrange(data, key_start, key_end);
        let value = data[value_start] as u32 + 0x100 * (data[value_start + 1] as u32) + 0x1_0000
            * (data[value_start + 2] as u32) + 0x100_0000 * (data[value_start + 3] as u32);
        Entry { length, offset, key, value }
    }

    /// Reads the entry at `offset`, by the length in its header.
    pub fn new(data: &'a [u8], offset: usize) -> (entry: Entry<'a>)
        requires
            offset + ENTRY_OVERHEAD <= data@.len(),
            ENTRY_OVERHEAD <= header_of(data@.skip(offset as int)),
            offset + header_of(data@.skip(offset as int)) <= data@.len(),
        ensures
            entry.offset == offset,
            entry.length == header_of(data@.skip(offset as int)),
            entry.key@ == data@.subrange(offset + 2, offset + entry.length - 4),
            entry.value == le32_value(
                data@.subrange(offset + entry.length - 4, offset + entry.length),
            ),
    {
        let length = data[offset] as usize + 0x100 * (data[offset + 1] as usize);
        Entry::new_with_length(data, offset, length)
    }

    /// Where the entry starts in the table's data.
    pub fn get_offset(&self) -> (offset: usize)
        ensures
            offset == self.offset,
    {
        self.offset
    }

    /// The place of the entry, without its borrow of the table.
    pub fn to_handle(self) -> (handle: EntryHandle)
        ensures
            handle.offset == self.offset,
            handle.length == self.length,
    {
        EntryHandle { offset: self.offset, length: self.length }
    }
}

/// The entries of one bucket, one after the other.
pub struct BucketEntryIterator<'a> {
    pub starting_offset: usize,
    pub offset: usize,
    pub end: usize,
    pub data: &'a [u8],
}

impl<'a> BucketEntryIterator<'a> {
    /// The iterator's own invariant: what is left of the bucket is a bucket.
    pub open spec fn wf(&self) -> bool {
        &&& self.offset <= self.end <= self.data@.len()
        &&& is_bucket(self.data@.subrange(self.offset as int, self.end as int))
    }

    /// The entries that are still to come.
    pub open spec fn remaining(&self) -> Seq<EntryView> {
        entries_in(self.data@.subrange(self.offset as int, self.end as int), self.offset as int)
    }

    /// The iterator over bucket `bucket_index` of the table that `buckets` and
    /// `data` make.
    pub fn new(bucket_index: usize, buckets: &[usize], data: &'a [u8]) -> (iterator:
        BucketEntryIterator<'a>)
        requires
            bucket_index < buckets@.len(),
            buckets@[bucket_index as int] <= bucket_end(
                buckets@,
                data@.len() as int,
                bucket_index as int,
            ) <= data@.len(),
            is_bucket(bucket_bytes(buckets@, data@, bucket_index as int)),
        ensures
            iterator.wf(),
            iterator.data@ == data@,
            iterator.offset == buckets@[bucket_index as int],
            iterator.end == bucket_end(buckets@, data@.len() as int, bucket_index as int),
            iterator.remaining() == entries_in(
                bucket_bytes(buckets@, data@, bucket_index as int),
                buckets@[bucket_index as int] as int,
            ),
    {
        let offset = buckets[bucket_index];
        let end = if bucket_index + 1 < buckets.len() {
            buckets[bucket_index + 1]
        } else {
            data.len()
        };
        BucketEntryIterator { starting_offset: offset, offset, end, data }
    }

    /// Hands out the next entry, if there is one.
    pub fn next(&mut self) -> (entry: Option<Entry<'a>>)
        requires
            old(self).wf(),
        ensures
            final(self).wf(),
            final(self).data@ == old(self).data@,
            final(self).end == old(self).end,
            old(self).remaining().len() == 0 ==> entry is None && final(self).remaining().len()
                == 0,
            old(self).remaining().len() > 0 ==> {
                &&& entry is Some
                &&& entry->0@ == old(self).remaining()[0]
                &&& entry->0.length == entry->0.key@.len() + ENTRY_OVERHEAD
                &&& entry->0.offset + entry->0.length <= old(self).end
                &&& final(self).offset == entry->0.offset + entry->0.length
                &&& final(self).remaining() == old(self).remaining().skip(1)
            },
    {
        if self.offset >= self.end {
            return None;
        }
        let ghost bytes = self.data@.subrange(self.offset as int, self.end as int);
        let length = self.data[self.offset] as usize + 0x100 * (self.data[self.offset + 1] as usize);
        if length == 0 {
            return None;
        }
        let entry_offset = self.offset;
        self.offset += length;
        let entry = Entry::new_with_length(self.data, entry_offset, length);
        proof {
            let rest = self.data@.subrange(self.offset as int, self.end as int);
            assert(rest =~= bytes.skip(length as int));
            assert(entry.key@ =~= bytes.subrange(2, length - 4));
        }
        Some(entry)
    }
}

/// A table: keys are bytes, values are 32-bit numbers.
pub struct HashTable<'a> {
    pub buckets: &'a [usize],
    pub data: &'a mut [u8],
}

impl<'a> HashTable<'a> {
    /// The table's own invariant.
    pub open spec fn wf(&self) -> bool {
        is_table(self.buckets@, self.data@)
    }

    /// The bytes of the table's data.
    pub open spec fn bytes(&self) -> Seq<u8> {
        self.data@
    }

    /// The entries of the bucket that `key` selects.
    pub open spec fn bucket_entries(&self, key: Seq<u8>) -> Seq<EntryView> {
        let index = bucket_of(key, self.buckets@.len() as int);
        entries_in(
            bucket_bytes(self.buckets@, self.data@, index),
            self.buckets@[index] as int,
        )
    }

    /// The iterator over the bucket that `key` selects.
    pub fn get_bucket_iterator<'b, 'c>(&'c self, key: &'b [u8]) -> (iterator: BucketEntryIterator<
        'c,
    >)
        requires
            self.wf(),
        ensures
            iterator.wf(),
            iterator.data@ == self.bytes(),
            iterator.remaining() == self.bucket_entries(key@),
    {
        let index = get_bucket_index(key, self.buckets);
        assert(bucket_is_sound(self.buckets@, self.data@, index as int));
        BucketEntryIterator::new(index, self.buckets, self.data)
    }

    /// The iterator over the bucket that the key selects that `key` has still
    /// to give.
    pub fn get_bucket_iterator_from_key_iterator<'c, K: ByteIterator>(
        &'c self,
        key: K,
    ) -> (iterator: BucketEntryIterator<'c>)
        requires
            self.wf(),
            key.wf(),
            key.remaining().len() <= u64::MAX,
        ensures
            iterator.wf(),
            iterator.data@ == self.bytes(),
            iterator.remaining() == self.bucket_entries(key.remaining()),
    {
        let index = get_bucket_index_from_iterator(key, self.buckets);
        assert(bucket_is_sound(self.buckets@, self.data@, index as int));
        BucketEntryIterator::new(index, self.buckets, self.data)
    }

    /// The values of all entries with the key `key`, in the order of their
    /// bucket.
    pub fn get_values<'c>(&'c self, key: &'c [u8]) -> (values: Vec<u32>)
        requires
            self.wf(),
        ensures
            values@ == values_of(self.bucket_entries(key@), key@),
    {
        let mut iterator = self.get_bucket_iterator(key);
        let ghost entries = iterator.remaining();
        let mut values: Vec<u32> = Vec::new();
        loop
            invariant_except_break
                values@ + values_of(iterator.remaining(), key@) == values_of(entries, key@),
            invariant
                iterator.wf(),
            ensures
                values@ == values_of(entries, key@),
            decreases iterator.remaining().len(),
        {
            match iterator.next() {
                None => {
                    break ;
                },
                Some(entry) => {
                    if slices_equal(entry.key, key) {
                        values.push(entry.value);
                    }
                },
            }
        }
        values
    }

    /// The value of the first entry with the key `key`.
    pub fn get_value(&self, key: &[u8]) -> (value: Option<u32>)
        requires
            self.wf(),
        ensures
            value == if values_of(self.bucket_entries(key@), key@).len() > 0 {
                Some(values_of(self.bucket_entries(key@), key@)[0])
            } else {
                None
            },
    {
        let values = self.get_values(key);
        if values.len() > 0 {
            Some(values[0])
        } else {
            None
        }
    }

    /// The first entry with the key that `key` has still to give and with no
    /// value yet.
    pub fn find_unset_entry<'c, K: ByteIterator>(&'c self, key: K) -> (entry: Option<Entry<'c>>)
        requires
            self.wf(),
            key.wf(),
            key.remaining().len() <= u64::MAX,
        ensures
            ({
                let entries = self.bucket_entries(key.remaining());
                let index = first_unset(entries, key.remaining());
                if index < entries.len() {
                    &&& entry is Some
                    &&& entry->0@ == entries[index]
                    &&& entry->0.length == entries[index].key.len() + ENTRY_OVERHEAD
                    &&& entry->0.offset + entry->0.length <= self.bytes().len()
                } else {
                    entry is None
                }
            }),
    {
        let mut iterator = self.get_bucket_iterator_from_key_iterator(key);
        let ghost entries = iterator.remaining();
        let ghost mut seen: int = 0;
        loop
            invariant
                iterator.wf(),
                iterator.data@ == self.bytes(),
                entries == self.bucket_entries(key.remaining()),
                key.wf(),
                0 <= seen <= entries.len(),
                iterator.remaining() == entries.skip(seen),
                first_unset(entries, key.remaining()) == seen + first_unset(
                    iterator.remaining(),
                    key.remaining(),
                ),
            decreases entries.len() - seen,
        {
            match iterator.next() {
                None => {
                    return None;
                },
                Some(entry) => {
                    if entry.value == UNSET && compare_with_iterator(entry.key, key) {
                        return Some(entry);
                    }
                    proof {
                        seen = seen + 1;
                    }
                },
            }
        }
    }

    /// Gives the first entry with the key `key` and with no value yet the
    /// value `value`. Tells whether there was one.
    pub fn set_unset_value(&mut self, key: &[u8], value: u32) -> (found: Option<()>)
        requires
            old(self).wf(),
        ensures
            final(self).buckets@ == old(self).buckets@,
            final(final(self).data)@ == final(old(self).data)@,
            ({
                let entries = old(self).bucket_entries(key@);
                let index = first_unset(entries, key@);
                if index < entries.len() {
                    let value_at = entries[index].offset + 2 + entries[index].key.len();
                    &&& found is Some
                    &&& final(self).data@ == old(self).data@.subrange(0, value_at) + le32(value)
                        + old(self).data@.subrange(value_at + 4, old(self).data@.len() as int)
                } else {
                    &&& found is None
                    &&& final(self).data@ == old(self).data@
                }
            }),
    {
        assert(key@.len() == key.len());
        let handle = match self.find_unset_entry(SliceBytes::new(key)) {
            None => {
                return None;
            },
            Some(entry) => entry.to_handle(),
        };
        self.set_value(handle, value);
        Some(())
    }

    /// Writes `value` into the entry that `entry_handle` stands for.
    pub fn set_value(&mut self, entry_handle: EntryHandle, value: u32)
        requires
            4 <= entry_handle.length,
            entry_handle.offset + entry_handle.length <= old(self).data@.len(),
        ensures
            final(self).buckets@ == old(self).buckets@,
            final(final(self).data)@ == final(old(self).data)@,
            final(self).data@ == old(self).data@.subrange(
                0,
                entry_handle.offset + entry_handle.length - 4,
            ) + le32(value) + old(self).data@.subrange(
                entry_handle.offset + entry_handle.length,
                old(self).data@.len() as int,
            ),
    {
        assert(self.data.len() == self.data@.len());
        let entry_end = entry_handle.offset + entry_handle.length;
        self.data[entry_end - 4] = (value % 256) as u8;
        self.data[entry_end - 3] = (value / 0x100 % 256) as u8;
        self.data[entry_end - 2] = (value / 0x1_0000 % 256) as u8;
        self.data[entry_end - 1] = (value / 0x100_0000 % 256) as u8;
    }
}

/// Whether two slices hold the same bytes.
pub fn slices_equal(first: &[u8], second: &[u8]) -> (equal: bool)
    ensures
        equal == (first@ == second@),
{
    if first.len() != second.len() {
        return false;
    }
    let mut index: usize = 0;
    while index < first.len()
        invariant
            first@.len() == second@.len(),
            index <= first@.len(),
            forall|i: int| 0 <= i < index ==> first@[i] == second@[i],
        decreases first@.len() - index,
    {
        if first[index] != second[index] {
            return false;
        }
        index += 1;
    }
    assert(first@ =~= second@);
    true
}

} // verus!
