//! Where a table keeps what: the layout of buckets and entries that a list of
//! keys determines, and the laws of that layout.
//!
//! The keys are numbered in the order in which they are given. A key goes
//! into the bucket that its hash selects. The buckets lie one behind the other
//! in the data, and in a bucket the entries lie in the order of their keys.

use crate::hashing::bucket_of;
use crate::hashtable::{
    bucket_bytes,
    bucket_end,
    bucket_is_sound,
    entries_in,
    entry_bytes,
    first_unset,
    is_bucket,
    is_packed,
    is_table,
    le32,
    le32_value,
    lemma_le32,
    used_length,
    values_of,
    EntryView,
    ENTRY_OVERHEAD,
    MAX_ENTRY_LENGTH,
    UNSET,
};
use crate::records::{header_of, le16};
use vstd::prelude::*;

verus! {

/// The length of the entry for `key`.
pub open spec fn entry_length(key: Seq<u8>) -> int {
    key.len() + ENTRY_OVERHEAD
}

/// The length of the entries of the first `count` keys.
pub open spec fn total_size(keys: Seq<Seq<u8>>, count: int) -> int
    decreases count,
{
    if count <= 0 {
        0
    } else {
        total_size(keys, count - 1) + entry_length(keys[count - 1])
    }
}

/// The length of the entries of those of the first `count` keys that go into
/// bucket `bucket`.
pub open spec fn size_in(keys: Seq<Seq<u8>>, buckets: int, bucket: int, count: int) -> int
    decreases count,
{
    if count <= 0 {
        0
    } else {
        size_in(keys, buckets, bucket, count - 1) + if bucket_of(keys[count - 1], buckets)
            == bucket {
            entry_length(keys[count - 1])
        } else {
            0
        }
    }
}

/// The length of the entries of those of the first `count` keys that go into
/// a bucket before `bucket`.
pub open spec fn size_below(keys: Seq<Seq<u8>>, buckets: int, bucket: int, count: int) -> int
    decreases count,
{
    if count <= 0 {
        0
    } else {
        size_below(keys, buckets, bucket, count - 1) + if bucket_of(keys[count - 1], buckets)
            < bucket {
            entry_length(keys[count - 1])
        } else {
            0
        }
    }
}

/// Where bucket `bucket` starts in the data: behind all entries of the
/// buckets before it.
pub open spec fn bucket_start(keys: Seq<Seq<u8>>, buckets: int, bucket: int) -> int {
    size_below(keys, buckets, bucket, keys.len() as int)
}

/// Where the entry of key `index` starts in the data: in its bucket, behind
/// the entries of the keys before it.
pub open spec fn entry_offset(keys: Seq<Seq<u8>>, buckets: int, index: int) -> int {
    bucket_start(keys, buckets, bucket_of(keys[index], buckets)) + size_in(
        keys,
        buckets,
        bucket_of(keys[index], buckets),
        index,
    )
}

/// Where the entries of bucket `bucket` end once the first `count` keys are
/// placed.
pub open spec fn fill_of(keys: Seq<Seq<u8>>, buckets: int, bucket: int, count: int) -> int {
    bucket_start(keys, buckets, bucket) + size_in(keys, buckets, bucket, count)
}

/// Whether the entry of key `index` stands in `data`, with the value
/// `values[index]`.
pub open spec fn entry_in_place(
    data: Seq<u8>,
    keys: Seq<Seq<u8>>,
    values: Seq<u32>,
    buckets: int,
    index: int,
) -> bool {
    data.subrange(
        entry_offset(keys, buckets, index),
        entry_offset(keys, buckets, index) + entry_length(keys[index]),
    ) == entry_bytes(keys[index], values[index])
}

/// Whether bucket `bucket`, where it is not full once the first `count` keys
/// are placed, holds the zero header of an empty slot behind its entries.
pub open spec fn slot_marked(
    data: Seq<u8>,
    keys: Seq<Seq<u8>>,
    buckets: int,
    bucket: int,
    count: int,
) -> bool {
    size_in(keys, buckets, bucket, count) < size_in(keys, buckets, bucket, keys.len() as int) ==> {
        &&& data[fill_of(keys, buckets, bucket, count)] == 0
        &&& data[fill_of(keys, buckets, bucket, count) + 1] == 0
    }
}

/// Whether every key's entry fits its header.
pub open spec fn keys_fit(keys: Seq<Seq<u8>>) -> bool {
    forall|index: int| 0 <= index < keys.len() ==> entry_length(#[trigger] keys[index])
        <= MAX_ENTRY_LENGTH
}

/// Whether `table_buckets` and `data` are the table of `keys` in which the
/// first `count` keys are placed, with their `values`, and the next slot of
/// each bucket is marked as empty.
pub open spec fn holds_first(
    table_buckets: Seq<usize>,
    data: Seq<u8>,
    keys: Seq<Seq<u8>>,
    values: Seq<u32>,
    count: int,
) -> bool {
    let buckets = table_buckets.len() as int;
    &&& buckets > 0
    &&& 0 <= count <= keys.len()
    &&& values.len() == keys.len()
    &&& keys_fit(keys)
    &&& data.len() == total_size(keys, keys.len() as int)
    &&& forall|bucket: int|
        0 <= bucket < buckets ==> #[trigger] table_buckets[bucket] == bucket_start(
            keys,
            buckets,
            bucket,
        )
    &&& forall|index: int|
        0 <= index < count ==> #[trigger] entry_in_place(data, keys, values, buckets, index)
    &&& forall|bucket: int|
        0 <= bucket < buckets ==> #[trigger] slot_marked(data, keys, buckets, bucket, count)
}

/// Whether `table_buckets` and `data` are the table of `keys` with `values`:
/// bucket by bucket, and in each bucket key by key, the entry of each key with
/// its value, and nothing else.
pub open spec fn is_table_of(
    table_buckets: Seq<usize>,
    data: Seq<u8>,
    keys: Seq<Seq<u8>>,
    values: Seq<u32>,
) -> bool {
    holds_first(table_buckets, data, keys, values, keys.len() as int)
}

/// The entries of bucket `bucket` for the keys from `from` up to `to`, as a
/// table of `keys` with `values` holds them.
pub open spec fn bucket_views(
    keys: Seq<Seq<u8>>,
    values: Seq<u32>,
    buckets: int,
    bucket: int,
    from: int,
    to: int,
) -> Seq<EntryView>
    decreases to - from,
{
    if from >= to {
        Seq::empty()
    } else if bucket_of(keys[from], buckets) == bucket {
        seq![
            EntryView {
                offset: entry_offset(keys, buckets, from),
                key: keys[from],
                value: values[from],
            },
        ] + bucket_views(keys, values, buckets, bucket, from + 1, to)
    } else {
        bucket_views(keys, values, buckets, bucket, from + 1, to)
    }
}

/// The bucket of a key is one of the buckets.
pub proof fn lemma_bucket_of(key: Seq<u8>, buckets: int)
    requires
        buckets > 0,
    ensures
        0 <= bucket_of(key, buckets) < buckets,
{
    vstd::arithmetic::div_mod::lemma_mod_pos_bound(crate::hashing::key_hash(key) as int, buckets);
}

/// Sizes grow with the number of keys, and a bucket's size stays within the
/// size of all.
pub proof fn lemma_sizes(keys: Seq<Seq<u8>>, buckets: int, bucket: int, fewer: int, more: int)
    requires
        fewer <= more,
    ensures
        0 <= size_in(keys, buckets, bucket, fewer) <= size_in(keys, buckets, bucket, more),
        0 <= size_below(keys, buckets, bucket, fewer) <= size_below(keys, buckets, bucket, more),
        0 <= total_size(keys, fewer) <= total_size(keys, more),
        size_in(keys, buckets, bucket, more) <= total_size(keys, more),
        size_below(keys, buckets, bucket, more) + size_in(keys, buckets, bucket, more)
            <= total_size(keys, more),
    decreases more,
{
    if more > 0 {
        if fewer < more {
            lemma_sizes(keys, buckets, bucket, fewer, more - 1);
        } else {
            lemma_sizes(keys, buckets, bucket, fewer - 1, more - 1);
        }
    }
}

/// The buckets lie one behind the other.
pub proof fn lemma_size_below_next(keys: Seq<Seq<u8>>, buckets: int, bucket: int, count: int)
    ensures
        size_below(keys, buckets, bucket + 1, count) == size_below(keys, buckets, bucket, count)
            + size_in(keys, buckets, bucket, count),
    decreases count,
{
    if count > 0 {
        lemma_size_below_next(keys, buckets, bucket, count - 1);
    }
}

/// Before the first bucket lies nothing, and the buckets together hold all
/// entries.
pub proof fn lemma_size_below_ends(keys: Seq<Seq<u8>>, buckets: int, count: int)
    requires
        buckets > 0,
    ensures
        size_below(keys, buckets, 0, count) == 0,
        size_below(keys, buckets, buckets, count) == total_size(keys, count),
    decreases count,
{
    if count > 0 {
        lemma_size_below_ends(keys, buckets, count - 1);
        lemma_bucket_of(keys[count - 1], buckets);
    }
}

/// A later bucket starts where an earlier one ends, or later.
pub proof fn lemma_bucket_order(keys: Seq<Seq<u8>>, buckets: int, earlier: int, later: int)
    requires
        earlier < later,
    ensures
        bucket_start(keys, buckets, earlier) + size_in(
            keys,
            buckets,
            earlier,
            keys.len() as int,
        ) <= bucket_start(keys, buckets, later),
    decreases later - earlier,
{
    let count = keys.len() as int;
    lemma_size_below_next(keys, buckets, later - 1, count);
    lemma_sizes(keys, buckets, later - 1, count, count);
    if earlier < later - 1 {
        lemma_bucket_order(keys, buckets, earlier, later - 1);
    }
}

/// Where a table's buckets start and end.
pub proof fn lemma_bucket_bounds(
    table_buckets: Seq<usize>,
    data_len: int,
    keys: Seq<Seq<u8>>,
    bucket: int,
)
    requires
        0 <= bucket < table_buckets.len(),
        data_len == total_size(keys, keys.len() as int),
        forall|index: int|
            0 <= index < table_buckets.len() ==> #[trigger] table_buckets[index] == bucket_start(
                keys,
                table_buckets.len() as int,
                index,
            ),
    ensures
        0 <= bucket_start(keys, table_buckets.len() as int, bucket),
        bucket_end(table_buckets, data_len, bucket) == bucket_start(
            keys,
            table_buckets.len() as int,
            bucket,
        ) + size_in(keys, table_buckets.len() as int, bucket, keys.len() as int),
        bucket_end(table_buckets, data_len, bucket) <= data_len,
{
    let buckets = table_buckets.len() as int;
    let count = keys.len() as int;
    lemma_size_below_next(keys, buckets, bucket, count);
    lemma_sizes(keys, buckets, bucket, count, count);
    lemma_sizes(keys, buckets, bucket + 1, count, count);
    if bucket + 1 < buckets {
        assert(table_buckets[bucket + 1] == bucket_start(keys, buckets, bucket + 1));
    } else {
        lemma_size_below_ends(keys, buckets, count);
    }
}

/// The entry of a key lies in its bucket, behind the entries of the keys
/// before it and before those of the keys behind it.
pub proof fn lemma_entry_region(keys: Seq<Seq<u8>>, buckets: int, index: int, count: int)
    requires
        buckets > 0,
        0 <= index < count <= keys.len(),
    ensures
        0 <= bucket_start(keys, buckets, bucket_of(keys[index], buckets)) <= entry_offset(
            keys,
            buckets,
            index,
        ),
        entry_offset(keys, buckets, index) + entry_length(keys[index]) == fill_of(
            keys,
            buckets,
            bucket_of(keys[index], buckets),
            index + 1,
        ),
        fill_of(keys, buckets, bucket_of(keys[index], buckets), index + 1) <= fill_of(
            keys,
            buckets,
            bucket_of(keys[index], buckets),
            count,
        ),
        fill_of(keys, buckets, bucket_of(keys[index], buckets), count) <= fill_of(
            keys,
            buckets,
            bucket_of(keys[index], buckets),
            keys.len() as int,
        ),
        fill_of(keys, buckets, bucket_of(keys[index], buckets), keys.len() as int) <= total_size(
            keys,
            keys.len() as int,
        ),
{
    let bucket = bucket_of(keys[index], buckets);
    let all = keys.len() as int;
    lemma_sizes(keys, buckets, bucket, index, index + 1);
    lemma_sizes(keys, buckets, bucket, index + 1, count);
    lemma_sizes(keys, buckets, bucket, count, all);
    lemma_sizes(keys, buckets, bucket, all, all);
}

/// Where a bucket grows between two counts of keys, a key between them goes
/// into it; the first such key is returned.
pub proof fn lemma_next_in_bucket(
    keys: Seq<Seq<u8>>,
    buckets: int,
    bucket: int,
    from: int,
    to: int,
) -> (next: int)
    requires
        0 <= from <= to <= keys.len(),
        size_in(keys, buckets, bucket, from) < size_in(keys, buckets, bucket, to),
    ensures
        from <= next < to,
        bucket_of(keys[next], buckets) == bucket,
        size_in(keys, buckets, bucket, next) == size_in(keys, buckets, bucket, from),
        forall|index: int| from <= index < next ==> bucket_of(#[trigger] keys[index], buckets)
            != bucket,
    decreases to - from,
{
    if bucket_of(keys[from], buckets) == bucket {
        from
    } else {
        lemma_next_in_bucket(keys, buckets, bucket, from + 1, to)
    }
}

/// The entries of a bucket: what the bytes of a table hold from the end of
/// the entries of the first `from` keys on is a bucket, and its entries are
/// those of the keys from `from` on that were placed.
pub proof fn lemma_bucket_structure(
    table_buckets: Seq<usize>,
    data: Seq<u8>,
    keys: Seq<Seq<u8>>,
    values: Seq<u32>,
    count: int,
    bucket: int,
    from: int,
)
    requires
        holds_first(table_buckets, data, keys, values, count),
        0 <= bucket < table_buckets.len(),
        0 <= from <= count,
    ensures
        ({
            let buckets = table_buckets.len() as int;
            let start = fill_of(keys, buckets, bucket, from);
            let end = bucket_end(table_buckets, data.len() as int, bucket);
            &&& 0 <= start <= end <= data.len()
            &&& is_bucket(data.subrange(start, end))
            &&& count == keys.len() ==> is_packed(data.subrange(start, end))
            &&& used_length(data.subrange(start, end)) == size_in(keys, buckets, bucket, count)
                - size_in(keys, buckets, bucket, from)
            &&& entries_in(data.subrange(start, end), start) == bucket_views(
                keys,
                values,
                buckets,
                bucket,
                from,
                count,
            )
        }),
    decreases count - from,
{
    let buckets = table_buckets.len() as int;
    let all = keys.len() as int;
    let start = fill_of(keys, buckets, bucket, from);
    let end = bucket_end(table_buckets, data.len() as int, bucket);
    let bytes = data.subrange(start, end);
    lemma_bucket_bounds(table_buckets, data.len() as int, keys, bucket);
    lemma_sizes(keys, buckets, bucket, from, count);
    lemma_sizes(keys, buckets, bucket, count, all);
    if from == count {
        assert(slot_marked(data, keys, buckets, bucket, count));
        if size_in(keys, buckets, bucket, count) < size_in(keys, buckets, bucket, all) {
            let next = lemma_next_in_bucket(keys, buckets, bucket, count, all);
            lemma_sizes(keys, buckets, bucket, next + 1, all);
            assert(bytes.len() >= 2);
            assert(header_of(bytes) == 0);
        } else {
            assert(bytes.len() == 0);
        }
    } else if bucket_of(keys[from], buckets) == bucket {
        lemma_bucket_structure(table_buckets, data, keys, values, count, bucket, from + 1);
        lemma_entry_region(keys, buckets, from, count);
        assert(entry_in_place(data, keys, values, buckets, from));
        let length = entry_length(keys[from]);
        let entry = entry_bytes(keys[from], values[from]);
        assert(entry == data.subrange(start, start + length));
        lemma_entry_bytes(keys[from], values[from]);
        assert(bytes[0] == entry[0]);
        assert(bytes[1] == entry[1]);
        assert(header_of(bytes) == length);
        assert(bytes.skip(length) =~= data.subrange(start + length, end));
        assert(bytes.subrange(2, length - 4) =~= entry.subrange(2, length - 4));
        assert(bytes.subrange(length - 4, length) =~= entry.subrange(length - 4, length));
    } else {
        lemma_bucket_structure(table_buckets, data, keys, values, count, bucket, from + 1);
    }
}

/// How the bytes of an entry read.
pub proof fn lemma_entry_bytes(key: Seq<u8>, value: u32)
    requires
        entry_length(key) <= MAX_ENTRY_LENGTH,
    ensures
        entry_bytes(key, value).len() == entry_length(key),
        header_of(entry_bytes(key, value)) == entry_length(key),
        entry_bytes(key, value).subrange(2, entry_length(key) - 4) == key,
        entry_bytes(key, value).subrange(entry_length(key) - 4, entry_length(key)) == le32(value),
        le32_value(le32(value)) == value,
{
    let entry = entry_bytes(key, value);
    let length = entry_length(key);
    lemma_le32(value);
    assert(entry[0] == le16(length)[0]);
    assert(entry[1] == le16(length)[1]);
    assert(entry.subrange(2, length - 4) =~= key);
    assert(entry.subrange(length - 4, length) =~= le32(value));
}

/// What a table of keys is as a table: its buckets are full, and each holds
/// the entries of its keys, in the order of the keys.
pub proof fn lemma_table_structure(
    table_buckets: Seq<usize>,
    data: Seq<u8>,
    keys: Seq<Seq<u8>>,
    values: Seq<u32>,
)
    requires
        is_table_of(table_buckets, data, keys, values),
    ensures
        is_table(table_buckets, data),
        forall|bucket: int|
            0 <= bucket < table_buckets.len() ==> {
                &&& is_packed(#[trigger] bucket_bytes(table_buckets, data, bucket))
                &&& entries_in(
                    bucket_bytes(table_buckets, data, bucket),
                    table_buckets[bucket] as int,
                ) == bucket_views(
                    keys,
                    values,
                    table_buckets.len() as int,
                    bucket,
                    0,
                    keys.len() as int,
                )
            },
{
    let buckets = table_buckets.len() as int;
    assert forall|index: int| 0 <= index < table_buckets.len() implies #[trigger] bucket_is_sound(
        table_buckets,
        data,
        index,
    ) by {
        lemma_bucket_structure(table_buckets, data, keys, values, keys.len() as int, index, 0);
        assert(size_in(keys, buckets, index, 0) == 0);
        assert(table_buckets[index] == bucket_start(keys, buckets, index));
    }
    assert forall|bucket: int| 0 <= bucket < buckets implies {
        &&& is_packed(#[trigger] bucket_bytes(table_buckets, data, bucket))
        &&& entries_in(bucket_bytes(table_buckets, data, bucket), table_buckets[bucket] as int)
            == bucket_views(keys, values, buckets, bucket, 0, keys.len() as int)
    } by {
        lemma_bucket_structure(table_buckets, data, keys, values, keys.len() as int, bucket, 0);
        assert(size_in(keys, buckets, bucket, 0) == 0);
        assert(table_buckets[bucket] == bucket_start(keys, buckets, bucket));
    }
}

/// How the entry of a key reads in a table of keys.
pub proof fn lemma_entry_at(
    table_buckets: Seq<usize>,
    data: Seq<u8>,
    keys: Seq<Seq<u8>>,
    values: Seq<u32>,
    index: int,
)
    requires
        is_table_of(table_buckets, data, keys, values),
        0 <= index < keys.len(),
    ensures
        ({
            let offset = entry_offset(keys, table_buckets.len() as int, index);
            let length = entry_length(keys[index]);
            &&& 0 <= offset
            &&& offset + length <= data.len()
            &&& header_of(data.skip(offset)) == length
            &&& data.subrange(offset + 2, offset + length - 4) == keys[index]
            &&& data.subrange(offset + length - 4, offset + length) == le32(values[index])
            &&& le32_value(data.subrange(offset + length - 4, offset + length)) == values[index]
        }),
{
    let buckets = table_buckets.len() as int;
    let offset = entry_offset(keys, buckets, index);
    let length = entry_length(keys[index]);
    let entry = entry_bytes(keys[index], values[index]);
    lemma_entry_region(keys, buckets, index, keys.len() as int);
    lemma_entry_bytes(keys[index], values[index]);
    assert(entry_in_place(data, keys, values, buckets, index));
    let held = data.subrange(offset, offset + length);
    assert(data.skip(offset)[0] == held[0]);
    assert(data.skip(offset)[1] == held[1]);
    assert(data.subrange(offset + 2, offset + length - 4) =~= held.subrange(2, length - 4));
    assert(data.subrange(offset + length - 4, offset + length) =~= held.subrange(
        length - 4,
        length,
    ));
}

/// The entry that a search for key `index` without a value finds: where all
/// keys before it have their values and it has none, its own.
pub proof fn lemma_first_unset(
    keys: Seq<Seq<u8>>,
    values: Seq<u32>,
    buckets: int,
    index: int,
    from: int,
)
    requires
        0 <= from <= index < keys.len(),
        values.len() == keys.len(),
        values[index] == UNSET,
        forall|i: int| from <= i < index ==> #[trigger] values[i] != UNSET,
    ensures
        ({
            let views = bucket_views(
                keys,
                values,
                buckets,
                bucket_of(keys[index], buckets),
                from,
                keys.len() as int,
            );
            let at = first_unset(views, keys[index]);
            &&& 0 <= at < views.len()
            &&& views[at] == EntryView {
                offset: entry_offset(keys, buckets, index),
                key: keys[index],
                value: UNSET,
            }
        }),
    decreases index - from,
{
    let bucket = bucket_of(keys[index], buckets);
    let all = keys.len() as int;
    let views = bucket_views(keys, values, buckets, bucket, from, all);
    if from < index {
        lemma_first_unset(keys, values, buckets, index, from + 1);
        let rest = bucket_views(keys, values, buckets, bucket, from + 1, all);
        if bucket_of(keys[from], buckets) == bucket {
            assert(views.skip(1) =~= rest);
            assert(views[0].value == values[from]);
        }
    }
}

/// The values of the keys from `from` on that equal `key`, in their order.
pub open spec fn values_for(keys: Seq<Seq<u8>>, values: Seq<u32>, key: Seq<u8>, from: int) -> Seq<
    u32,
>
    decreases keys.len() - from,
{
    if from < 0 || from >= keys.len() {
        Seq::empty()
    } else if keys[from] == key {
        seq![values[from]] + values_for(keys, values, key, from + 1)
    } else {
        values_for(keys, values, key, from + 1)
    }
}

/// The values that a key has in its bucket are the values that it has among
/// all keys.
pub proof fn lemma_values_of(
    keys: Seq<Seq<u8>>,
    values: Seq<u32>,
    buckets: int,
    key: Seq<u8>,
    from: int,
)
    requires
        0 <= from <= keys.len(),
    ensures
        values_of(
            bucket_views(keys, values, buckets, bucket_of(key, buckets), from, keys.len() as int),
            key,
        ) == values_for(keys, values, key, from),
    decreases keys.len() - from,
{
    let bucket = bucket_of(key, buckets);
    let all = keys.len() as int;
    let views = bucket_views(keys, values, buckets, bucket, from, all);
    if from < all {
        lemma_values_of(keys, values, buckets, key, from + 1);
        let rest = bucket_views(keys, values, buckets, bucket, from + 1, all);
        if bucket_of(keys[from], buckets) == bucket {
            assert(views.skip(1) =~= rest);
        }
    }
}

/// The entries of two keys do not overlap.
pub proof fn lemma_entries_apart(keys: Seq<Seq<u8>>, buckets: int, first: int, second: int)
    requires
        buckets > 0,
        0 <= first < keys.len(),
        0 <= second < keys.len(),
        first != second,
    ensures
        entry_offset(keys, buckets, first) + entry_length(keys[first]) <= entry_offset(
            keys,
            buckets,
            second,
        ) || entry_offset(keys, buckets, second) + entry_length(keys[second]) <= entry_offset(
            keys,
            buckets,
            first,
        ),
{
    let all = keys.len() as int;
    let ours = bucket_of(keys[first], buckets);
    let theirs = bucket_of(keys[second], buckets);
    lemma_entry_region(keys, buckets, first, all);
    lemma_entry_region(keys, buckets, second, all);
    if ours < theirs {
        lemma_bucket_order(keys, buckets, ours, theirs);
    } else if theirs < ours {
        lemma_bucket_order(keys, buckets, theirs, ours);
    } else if first < second {
        lemma_entry_region(keys, buckets, first, second);
    } else {
        lemma_entry_region(keys, buckets, second, first);
    }
}

/// An entry with another value: the same bytes but for the last four.
proof fn lemma_entry_revalued(key: Seq<u8>, old_value: u32, value: u32)
    requires
        entry_length(key) <= MAX_ENTRY_LENGTH,
    ensures
        entry_bytes(key, value) == entry_bytes(key, old_value).subrange(0, entry_length(key) - 4)
            + le32(value),
{
    assert(entry_bytes(key, value) =~= entry_bytes(key, old_value).subrange(
        0,
        entry_length(key) - 4,
    ) + le32(value));
}

/// A value written into the entry of a key makes the table of the same keys
/// with that one value changed.
pub proof fn lemma_value_set(
    table_buckets: Seq<usize>,
    before: Seq<u8>,
    after: Seq<u8>,
    keys: Seq<Seq<u8>>,
    values: Seq<u32>,
    index: int,
    value: u32,
)
    requires
        is_table_of(table_buckets, before, keys, values),
        0 <= index < keys.len(),
        ({
            let end = entry_offset(keys, table_buckets.len() as int, index) + entry_length(
                keys[index],
            );
            after == before.subrange(0, end - 4) + le32(value) + before.subrange(
                end,
                before.len() as int,
            )
        }),
    ensures
        is_table_of(table_buckets, after, keys, values.update(index, value)),
{
    let buckets = table_buckets.len() as int;
    let all = keys.len() as int;
    let start = entry_offset(keys, buckets, index);
    let end = start + entry_length(keys[index]);
    let changed = values.update(index, value);
    lemma_entry_region(keys, buckets, index, all);
    assert(0 <= start && end <= before.len());
    assert(after.len() == before.len());
    assert forall|other: int| 0 <= other < all implies #[trigger] entry_in_place(
        after,
        keys,
        changed,
        buckets,
        other,
    ) by {
        assert(entry_in_place(before, keys, values, buckets, other));
        let from = entry_offset(keys, buckets, other);
        let to = from + entry_length(keys[other]);
        if other == index {
            lemma_entry_revalued(keys[index], values[index], value);
            assert(after.subrange(start, end) =~= before.subrange(start, end).subrange(
                0,
                end - start - 4,
            ) + le32(value));
        } else {
            lemma_entry_region(keys, buckets, other, all);
            lemma_entries_apart(keys, buckets, other, index);
            assert(after.subrange(from, to) =~= before.subrange(from, to));
        }
    }
    assert forall|other: int| 0 <= other < buckets implies #[trigger] slot_marked(
        after,
        keys,
        buckets,
        other,
        all,
    ) by {}
}

/// Every byte of a table's data belongs to the entry of a key: that key is
/// returned.
pub proof fn lemma_covered(keys: Seq<Seq<u8>>, buckets: int, position: int) -> (index: int)
    requires
        buckets > 0,
        0 <= position < total_size(keys, keys.len() as int),
    ensures
        0 <= index < keys.len(),
        entry_offset(keys, buckets, index) <= position < entry_offset(keys, buckets, index)
            + entry_length(keys[index]),
{
    lemma_size_below_ends(keys, buckets, keys.len() as int);
    let bucket = lemma_covering_bucket(keys, buckets, position, buckets);
    lemma_covering_entry(keys, buckets, bucket, position, keys.len() as int)
}

/// Every byte before the start of a bucket belongs to a bucket before it.
proof fn lemma_covering_bucket(keys: Seq<Seq<u8>>, buckets: int, position: int, below: int) -> (bucket:
    int)
    requires
        buckets > 0,
        0 <= below,
        0 <= position < bucket_start(keys, buckets, below),
    ensures
        0 <= bucket < below,
        bucket_start(keys, buckets, bucket) <= position < bucket_start(keys, buckets, bucket)
            + size_in(keys, buckets, bucket, keys.len() as int),
    decreases below,
{
    let all = keys.len() as int;
    if below == 0 {
        lemma_size_below_ends(keys, buckets, all);
        0
    } else {
        lemma_size_below_next(keys, buckets, below - 1, all);
        if position >= bucket_start(keys, buckets, below - 1) {
            below - 1
        } else {
            lemma_covering_bucket(keys, buckets, position, below - 1)
        }
    }
}

/// Every byte of the filled part of a bucket belongs to an entry in it.
proof fn lemma_covering_entry(
    keys: Seq<Seq<u8>>,
    buckets: int,
    bucket: int,
    position: int,
    count: int,
) -> (index: int)
    requires
        0 <= count <= keys.len(),
        bucket_start(keys, buckets, bucket) <= position < bucket_start(keys, buckets, bucket)
            + size_in(keys, buckets, bucket, count),
    ensures
        0 <= index < count,
        bucket_of(keys[index], buckets) == bucket,
        entry_offset(keys, buckets, index) <= position < entry_offset(keys, buckets, index)
            + entry_length(keys[index]),
    decreases count,
{
    if position >= bucket_start(keys, buckets, bucket) + size_in(
        keys,
        buckets,
        bucket,
        count - 1,
    ) {
        count - 1
    } else {
        lemma_covering_entry(keys, buckets, bucket, position, count - 1)
    }
}

/// The keys and their values determine the table.
pub proof fn lemma_table_unique(
    first_buckets: Seq<usize>,
    first_data: Seq<u8>,
    second_buckets: Seq<usize>,
    second_data: Seq<u8>,
    keys: Seq<Seq<u8>>,
    values: Seq<u32>,
)
    requires
        is_table_of(first_buckets, first_data, keys, values),
        is_table_of(second_buckets, second_data, keys, values),
        first_buckets.len() == second_buckets.len(),
    ensures
        first_buckets == second_buckets,
        first_data == second_data,
{
    let buckets = first_buckets.len() as int;
    assert(first_buckets =~= second_buckets);
    assert forall|position: int| 0 <= position < first_data.len() implies first_data[position]
        == second_data[position] by {
        let index = lemma_covered(keys, buckets, position);
        let from = entry_offset(keys, buckets, index);
        let to = from + entry_length(keys[index]);
        lemma_entry_region(keys, buckets, index, keys.len() as int);
        assert(entry_in_place(first_data, keys, values, buckets, index));
        assert(entry_in_place(second_data, keys, values, buckets, index));
        assert(first_data.subrange(from, to)[position - from] == first_data[position]);
        assert(second_data.subrange(from, to)[position - from] == second_data[position]);
    }
    assert(first_data =~= second_data);
}

/// A full bucket is as long as its entries together.
pub proof fn lemma_packed_length(bytes: Seq<u8>)
    requires
        is_packed(bytes),
    ensures
        used_length(bytes) == bytes.len(),
        is_bucket(bytes),
    decreases bytes.len(),
{
    if bytes.len() > 0 {
        lemma_packed_length(bytes.skip(header_of(bytes)));
    }
}

/// Each entry that a bucket holds is the entry of one of its keys: the
/// number of that key is returned.
pub proof fn lemma_bucket_views_member(
    keys: Seq<Seq<u8>>,
    values: Seq<u32>,
    buckets: int,
    bucket: int,
    from: int,
    to: int,
    number: int,
) -> (index: int)
    requires
        0 <= from,
        0 <= number < bucket_views(keys, values, buckets, bucket, from, to).len(),
    ensures
        from <= index < to,
        bucket_of(keys[index], buckets) == bucket,
        bucket_views(keys, values, buckets, bucket, from, to)[number] == (EntryView {
            offset: entry_offset(keys, buckets, index),
            key: keys[index],
            value: values[index],
        }),
    decreases to - from,
{
    if bucket_of(keys[from], buckets) == bucket {
        if number == 0 {
            from
        } else {
            lemma_bucket_views_member(keys, values, buckets, bucket, from + 1, to, number - 1)
        }
    } else {
        lemma_bucket_views_member(keys, values, buckets, bucket, from + 1, to, number)
    }
}

/// The buckets of a table of keys lie one behind the other from the start of
/// the data to its end, and each is exactly as long as the entries that it
/// holds.
pub proof fn lemma_buckets_are_packed(
    table_buckets: Seq<usize>,
    data: Seq<u8>,
    keys: Seq<Seq<u8>>,
    values: Seq<u32>,
    bucket: int,
)
    requires
        is_table_of(table_buckets, data, keys, values),
        0 <= bucket < table_buckets.len(),
    ensures
        table_buckets[0] == 0,
        table_buckets[bucket] <= bucket_end(table_buckets, data.len() as int, bucket) <= data.len(),
        is_packed(bucket_bytes(table_buckets, data, bucket)),
        used_length(bucket_bytes(table_buckets, data, bucket)) == bucket_end(
            table_buckets,
            data.len() as int,
            bucket,
        ) - table_buckets[bucket],
{
    let buckets = table_buckets.len() as int;
    lemma_table_structure(table_buckets, data, keys, values);
    assert(bucket_is_sound(table_buckets, data, bucket));
    lemma_packed_length(bucket_bytes(table_buckets, data, bucket));
    lemma_size_below_ends(keys, buckets, keys.len() as int);
    assert(table_buckets[0] == bucket_start(keys, buckets, 0));
}

} // verus!
