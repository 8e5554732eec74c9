//! The image: what a container holds once a dictionary is loaded.
//!
//! The words are the number of buckets of the strokes table, the length of
//! its data, its buckets, and the buckets of the strings table. The bytes are
//! the data of the strokes table, then the data of the strings table. The
//! value of an entry is the offset of its partner in the data of the other
//! table.

use crate::error::ErrorKind;
use crate::hashtable::{
    bucket_bytes,
    bucket_end,
    entries_in,
    is_packed,
    le32_value,
    used_length,
    UNSET,
};
use crate::layout::{
    bucket_views,
    entry_offset,
    is_table_of,
    lemma_bucket_views_member,
    lemma_buckets_are_packed,
    lemma_entry_at,
    lemma_entry_region,
    lemma_table_structure,
    lemma_table_unique,
    total_size,
};
use crate::maker::{buckets_for, sizing_error, DEFAULT_LOAD_FACTOR, MAX_DATA_SIZE};
use crate::records::{header_of, strokes_of, translations_of};
use crate::transcode::dictionary_records;
use vstd::prelude::*;

verus! {

/// The values of a table whose first `count` entries are linked: the value of
/// entry `index` is the offset of the entry of key `index` of `partners`, in a
/// table of `buckets` buckets.
pub open spec fn links_until(partners: Seq<Seq<u8>>, buckets: int, count: int) -> Seq<u32> {
    Seq::new(
        partners.len(),
        |index: int|
            if index < count {
                entry_offset(partners, buckets, index) as u32
            } else {
                UNSET
            },
    )
}

/// The values of a table whose entries are all linked.
pub open spec fn links_to(partners: Seq<Seq<u8>>, buckets: int) -> Seq<u32> {
    links_until(partners, buckets, partners.len() as int)
}

/// The number of buckets of either table of the image of `records`.
pub open spec fn image_buckets(records: Seq<Seq<u8>>) -> int {
    buckets_for(strokes_of(records).len() as int, DEFAULT_LOAD_FACTOR as int)
}

/// The length of the data of the strokes table of the image of `records`.
pub open spec fn strokes_size(records: Seq<Seq<u8>>) -> int {
    total_size(strokes_of(records), strokes_of(records).len() as int)
}

/// The length of the data of the strings table of the image of `records`.
pub open spec fn strings_size(records: Seq<Seq<u8>>) -> int {
    total_size(translations_of(records), translations_of(records).len() as int)
}

/// The buckets of the strokes table in the words of an image.
pub open spec fn strokes_buckets(words: Seq<usize>) -> Seq<usize> {
    words.subrange(2, 2 + words[0])
}

/// The buckets of the strings table in the words of an image.
pub open spec fn strings_buckets(words: Seq<usize>) -> Seq<usize> {
    words.subrange(2 + words[0], words.len() as int)
}

/// The data of the strokes table in the bytes of an image.
pub open spec fn strokes_data(words: Seq<usize>, bytes: Seq<u8>) -> Seq<u8> {
    bytes.subrange(0, words[1] as int)
}

/// The data of the strings table in the bytes of an image.
pub open spec fn strings_data(words: Seq<usize>, bytes: Seq<u8>) -> Seq<u8> {
    bytes.subrange(words[1] as int, bytes.len() as int)
}

/// Whether `words` and `bytes` are the image of the dictionary that holds
/// `records`, a stroke string and its translation in turn.
pub open spec fn is_image_of(words: Seq<usize>, bytes: Seq<u8>, records: Seq<Seq<u8>>) -> bool {
    let buckets = image_buckets(records);
    &&& words.len() == 2 + 2 * buckets
    &&& words[0] == buckets
    &&& words[1] == strokes_size(records)
    &&& strokes_size(records) <= MAX_DATA_SIZE
    &&& strings_size(records) <= MAX_DATA_SIZE
    &&& bytes.len() == strokes_size(records) + strings_size(records)
    &&& is_table_of(
        strokes_buckets(words),
        strokes_data(words, bytes),
        strokes_of(records),
        links_to(translations_of(records), buckets),
    )
    &&& is_table_of(
        strings_buckets(words),
        strings_data(words, bytes),
        translations_of(records),
        links_to(strokes_of(records), buckets),
    )
}

/// What loading `input` comes to: the records of the dictionary that it
/// holds, or the first error met, in the text, then in the sizes of the
/// strokes table, then in those of the strings table, then in the size of
/// both.
pub open spec fn load_outcome(input: Seq<u8>) -> Result<Seq<Seq<u8>>, ErrorKind> {
    match dictionary_records(input) {
        Err(kind) => Err(kind),
        Ok(records) => {
            let strokes = strokes_of(records);
            let translations = translations_of(records);
            if sizing_error(strokes, strokes.len() as int) is Some {
                Err(sizing_error(strokes, strokes.len() as int)->0)
            } else if sizing_error(translations, translations.len() as int) is Some {
                Err(sizing_error(translations, translations.len() as int)->0)
            } else if strokes_size(records) + strings_size(records) > usize::MAX {
                Err(ErrorKind::ImageTooLarge)
            } else {
                Ok(records)
            }
        },
    }
}

/// Of each pair of records one key goes into each table.
pub proof fn lemma_pairs(records: Seq<Seq<u8>>)
    ensures
        strokes_of(records).len() == records.len() / 2,
        translations_of(records).len() == records.len() / 2,
    decreases records.len(),
{
    if records.len() >= 2 {
        lemma_pairs(records.skip(2));
    }
}

/// The dictionary determines its image: two images of the same records are
/// the same words and the same bytes.
pub proof fn lemma_image_unique(
    first_words: Seq<usize>,
    first_bytes: Seq<u8>,
    second_words: Seq<usize>,
    second_bytes: Seq<u8>,
    records: Seq<Seq<u8>>,
)
    requires
        is_image_of(first_words, first_bytes, records),
        is_image_of(second_words, second_bytes, records),
    ensures
        first_words == second_words,
        first_bytes == second_bytes,
{
    let buckets = image_buckets(records);
    let size = strokes_size(records);
    lemma_table_unique(
        strokes_buckets(first_words),
        strokes_data(first_words, first_bytes),
        strokes_buckets(second_words),
        strokes_data(second_words, second_bytes),
        strokes_of(records),
        links_to(translations_of(records), buckets),
    );
    lemma_table_unique(
        strings_buckets(first_words),
        strings_data(first_words, first_bytes),
        strings_buckets(second_words),
        strings_data(second_words, second_bytes),
        translations_of(records),
        links_to(strokes_of(records), buckets),
    );
    assert forall|index: int| 0 <= index < first_words.len() implies first_words[index]
        == second_words[index] by {
        if 2 <= index < 2 + buckets {
            assert(strokes_buckets(first_words)[index - 2] == first_words[index]);
            assert(strokes_buckets(second_words)[index - 2] == second_words[index]);
        } else if 2 + buckets <= index {
            assert(strings_buckets(first_words)[index - 2 - buckets] == first_words[index]);
            assert(strings_buckets(second_words)[index - 2 - buckets] == second_words[index]);
        }
    }
    assert(first_words =~= second_words);
    assert forall|index: int| 0 <= index < first_bytes.len() implies first_bytes[index]
        == second_bytes[index] by {
        if index < size {
            assert(strokes_data(first_words, first_bytes)[index] == first_bytes[index]);
            assert(strokes_data(second_words, second_bytes)[index] == second_bytes[index]);
        } else {
            assert(strings_data(first_words, first_bytes)[index - size] == first_bytes[index]);
            assert(strings_data(second_words, second_bytes)[index - size] == second_bytes[index]);
        }
    }
    assert(first_bytes =~= second_bytes);
}

/// Loading is a function of the text: whatever two loads of the same text
/// leave in their containers is the same, word for word and byte for byte.
pub proof fn lemma_load_is_determined(
    input: Seq<u8>,
    first_words: Seq<usize>,
    first_bytes: Seq<u8>,
    second_words: Seq<usize>,
    second_bytes: Seq<u8>,
)
    requires
        load_outcome(input) matches Ok(records) && is_image_of(first_words, first_bytes, records)
            && is_image_of(second_words, second_bytes, records),
    ensures
        first_words == second_words,
        first_bytes == second_bytes,
{
    lemma_image_unique(
        first_words,
        first_bytes,
        second_words,
        second_bytes,
        load_outcome(input)->Ok_0,
    );
}

/// In an image every bucket of either table is packed: the buckets lie one
/// behind the other from the start of their data to its end, and the lengths
/// of the entries of a bucket add up to the length of the bucket.
pub proof fn lemma_image_is_packed(
    words: Seq<usize>,
    bytes: Seq<u8>,
    records: Seq<Seq<u8>>,
    bucket: int,
)
    requires
        is_image_of(words, bytes, records),
        0 <= bucket < words[0],
    ensures
        ({
            let buckets = strokes_buckets(words);
            let data = strokes_data(words, bytes);
            &&& buckets[0] == 0
            &&& buckets[bucket] <= bucket_end(buckets, data.len() as int, bucket) <= data.len()
            &&& is_packed(bucket_bytes(buckets, data, bucket))
            &&& used_length(bucket_bytes(buckets, data, bucket)) == bucket_end(
                buckets,
                data.len() as int,
                bucket,
            ) - buckets[bucket]
        }),
        ({
            let buckets = strings_buckets(words);
            let data = strings_data(words, bytes);
            &&& buckets[0] == 0
            &&& buckets[bucket] <= bucket_end(buckets, data.len() as int, bucket) <= data.len()
            &&& is_packed(bucket_bytes(buckets, data, bucket))
            &&& used_length(bucket_bytes(buckets, data, bucket)) == bucket_end(
                buckets,
                data.len() as int,
                bucket,
            ) - buckets[bucket]
        }),
{
    let count = image_buckets(records);
    lemma_buckets_are_packed(
        strokes_buckets(words),
        strokes_data(words, bytes),
        strokes_of(records),
        links_to(translations_of(records), count),
        bucket,
    );
    lemma_buckets_are_packed(
        strings_buckets(words),
        strings_data(words, bytes),
        translations_of(records),
        links_to(strokes_of(records), count),
        bucket,
    );
}

/// In an image every entry of either table is linked: none has the value
/// that stands for no value.
pub proof fn lemma_image_is_linked(
    words: Seq<usize>,
    bytes: Seq<u8>,
    records: Seq<Seq<u8>>,
    bucket: int,
    number: int,
)
    requires
        is_image_of(words, bytes, records),
        0 <= bucket < words[0],
    ensures
        ({
            let buckets = strokes_buckets(words);
            let entries = entries_in(
                bucket_bytes(buckets, strokes_data(words, bytes), bucket),
                buckets[bucket] as int,
            );
            0 <= number < entries.len() ==> entries[number].value != UNSET
        }),
        ({
            let buckets = strings_buckets(words);
            let entries = entries_in(
                bucket_bytes(buckets, strings_data(words, bytes), bucket),
                buckets[bucket] as int,
            );
            0 <= number < entries.len() ==> entries[number].value != UNSET
        }),
{
    let count = image_buckets(records);
    let strokes = strokes_of(records);
    let translations = translations_of(records);
    lemma_pairs(records);
    lemma_table_structure(
        strokes_buckets(words),
        strokes_data(words, bytes),
        strokes,
        links_to(translations, count),
    );
    lemma_table_structure(
        strings_buckets(words),
        strings_data(words, bytes),
        translations,
        links_to(strokes, count),
    );
    let held = bucket_bytes(strokes_buckets(words), strokes_data(words, bytes), bucket);
    assert(entries_in(held, strokes_buckets(words)[bucket] as int) == bucket_views(
        strokes,
        links_to(translations, count),
        count,
        bucket,
        0,
        strokes.len() as int,
    ));
    if 0 <= number < entries_in(held, strokes_buckets(words)[bucket] as int).len() {
        let index = lemma_bucket_views_member(
            strokes,
            links_to(translations, count),
            count,
            bucket,
            0,
            strokes.len() as int,
            number,
        );
        lemma_entry_region(translations, count, index, translations.len() as int);
    }
    let other = bucket_bytes(strings_buckets(words), strings_data(words, bytes), bucket);
    assert(entries_in(other, strings_buckets(words)[bucket] as int) == bucket_views(
        translations,
        links_to(strokes, count),
        count,
        bucket,
        0,
        translations.len() as int,
    ));
    if 0 <= number < entries_in(other, strings_buckets(words)[bucket] as int).len() {
        let index = lemma_bucket_views_member(
            translations,
            links_to(strokes, count),
            count,
            bucket,
            0,
            translations.len() as int,
            number,
        );
        lemma_entry_region(strokes, count, index, strokes.len() as int);
    }
}

/// The key of the entry at `offset`.
pub open spec fn key_at(data: Seq<u8>, offset: int) -> Seq<u8> {
    data.subrange(offset + 2, offset + header_of(data.skip(offset)) - 4)
}

/// The value of the entry at `offset`.
pub open spec fn value_at(data: Seq<u8>, offset: int) -> u32 {
    le32_value(
        data.subrange(
            offset + header_of(data.skip(offset)) - 4,
            offset + header_of(data.skip(offset)),
        ),
    )
}

/// In an image the links are mutual: each pair of the dictionary has an entry
/// in either table, the entry in the strokes table holds the packed strokes
/// and the offset of the entry in the strings table, and that entry holds the
/// translation and the offset of the entry in the strokes table.
pub proof fn lemma_links_are_mutual(
    words: Seq<usize>,
    bytes: Seq<u8>,
    records: Seq<Seq<u8>>,
    index: int,
)
    requires
        is_image_of(words, bytes, records),
        0 <= index < strokes_of(records).len(),
    ensures
        ({
            let strokes_at = entry_offset(strokes_of(records), words[0] as int, index);
            let translation_at = entry_offset(translations_of(records), words[0] as int, index);
            &&& 0 <= strokes_at < strokes_data(words, bytes).len()
            &&& 0 <= translation_at < strings_data(words, bytes).len()
            &&& key_at(strokes_data(words, bytes), strokes_at) == strokes_of(records)[index]
            &&& value_at(strokes_data(words, bytes), strokes_at) == translation_at
            &&& key_at(strings_data(words, bytes), translation_at) == translations_of(
                records,
            )[index]
            &&& value_at(strings_data(words, bytes), translation_at) == strokes_at
        }),
{
    let count = image_buckets(records);
    let strokes = strokes_of(records);
    let translations = translations_of(records);
    lemma_pairs(records);
    lemma_entry_at(
        strokes_buckets(words),
        strokes_data(words, bytes),
        strokes,
        links_to(translations, count),
        index,
    );
    lemma_entry_at(
        strings_buckets(words),
        strings_data(words, bytes),
        translations,
        links_to(strokes, count),
        index,
    );
    lemma_entry_region(strokes, count, index, strokes.len() as int);
    lemma_entry_region(translations, count, index, translations.len() as int);
}

} // verus!
