//! Queries against a loaded image: the strokes for a translation, and the
//! translations for strokes. A query reads the image and leaves it as it is.

use crate::container::DataStructuresContainer;
use crate::error::{ErrorKind, InternalError};
use crate::hashing::bucket_of;
use crate::hashtable::{bucket_bytes, entries_in, values_of, Entry, HashTable, ENTRY_OVERHEAD};
use crate::image::{
    image_buckets,
    is_image_of,
    key_at,
    lemma_pairs,
    links_to,
    strings_buckets,
    strings_data,
    strokes_buckets,
    strokes_data,
    strokes_size,
};
use crate::keys::ByteIterator;
use crate::layout::{
    bucket_views,
    entry_offset,
    is_table_of,
    lemma_bucket_of,
    lemma_entry_at,
    lemma_entry_region,
    lemma_table_structure,
    lemma_values_of,
    values_for,
};
use crate::maker::MAX_DATA_SIZE;
use crate::records::{header_of, strokes_of, translations_of};
use crate::stroke::{chords_from, lemma_packed_len, packed_strokes, ParseStrokesIterator};
use vstd::prelude::*;

verus! {

/// The number of strokes that a stroke query may hold.
pub const MAX_QUERY_STROKES: usize = 32;

/// The numbers of the keys from `from` on that equal `key`, in their order.
pub open spec fn positions_of(keys: Seq<Seq<u8>>, key: Seq<u8>, from: int) -> Seq<int>
    decreases keys.len() - from,
{
    if from < 0 || from >= keys.len() {
        Seq::empty()
    } else if keys[from] == key {
        seq![from] + positions_of(keys, key, from + 1)
    } else {
        positions_of(keys, key, from + 1)
    }
}

/// What a query for the translation `query` yields from the dictionary that
/// holds `records`: for each entry with that translation, in the order of the
/// dictionary, its packed strokes and the translation.
pub open spec fn translation_matches(records: Seq<Seq<u8>>, query: Seq<u8>) -> Seq<
    (Seq<u8>, Seq<u8>),
> {
    let positions = positions_of(translations_of(records), query, 0);
    Seq::new(positions.len(), |number: int| (strokes_of(records)[positions[number]], query))
}

/// What a query for the packed strokes `query` yields from the dictionary
/// that holds `records`: for each entry with those strokes, in the order of
/// the dictionary, the strokes and its translation.
pub open spec fn stroke_matches(records: Seq<Seq<u8>>, query: Seq<u8>) -> Seq<(Seq<u8>, Seq<u8>)> {
    let positions = positions_of(strokes_of(records), query, 0);
    Seq::new(positions.len(), |number: int| (query, translations_of(records)[positions[number]]))
}

/// Whether `words` and `bytes` are the image of a dictionary.
pub open spec fn holds_image(words: Seq<usize>, bytes: Seq<u8>) -> bool {
    exists|records: Seq<Seq<u8>>| is_image_of(words, bytes, records)
}

/// What a vector of results holds.
pub open spec fn results_view(results: Seq<(Vec<u8>, Vec<u8>)>) -> Seq<(Seq<u8>, Seq<u8>)> {
    Seq::new(results.len(), |number: int| (results[number].0@, results[number].1@))
}

/// Whether an entry stands at `offset`, as far as its header tells.
pub open spec fn entry_fits(data: Seq<u8>, offset: int) -> bool {
    &&& 0 <= offset
    &&& offset + ENTRY_OVERHEAD <= data.len()
    &&& ENTRY_OVERHEAD <= header_of(data.skip(offset))
    &&& offset + header_of(data.skip(offset)) <= data.len()
}

/// The positions of a key are numbers of keys that equal it, in rising order,
/// and all of them.
pub proof fn lemma_positions_of(keys: Seq<Seq<u8>>, key: Seq<u8>, from: int)
    requires
        0 <= from,
    ensures
        forall|number: int|
            0 <= number < positions_of(keys, key, from).len() ==> from <= (#[trigger] positions_of(
                keys,
                key,
                from,
            )[number]) < keys.len() && keys[positions_of(keys, key, from)[number]] == key,
        forall|index: int|
            from <= index < keys.len() && keys[index] == key ==> positions_of(
                keys,
                key,
                from,
            ).contains(index),
    decreases keys.len() - from,
{
    let positions = positions_of(keys, key, from);
    if from < keys.len() {
        lemma_positions_of(keys, key, from + 1);
        let rest = positions_of(keys, key, from + 1);
        assert forall|index: int| from <= index < keys.len() && keys[index] == key implies positions.contains(
            index,
        ) by {
            if index == from {
                assert(positions[0] == from);
            } else {
                let number = choose|number: int| 0 <= number < rest.len() && rest[number] == index;
                if keys[from] == key {
                    assert(positions[number + 1] == index);
                } else {
                    assert(positions[number] == index);
                }
            }
        }
    }
}

/// The values of a key are the values at its positions.
pub proof fn lemma_values_for(keys: Seq<Seq<u8>>, values: Seq<u32>, key: Seq<u8>, from: int)
    requires
        0 <= from,
    ensures
        values_for(keys, values, key, from) == Seq::new(
            positions_of(keys, key, from).len(),
            |number: int| values[positions_of(keys, key, from)[number]],
        ),
    decreases keys.len() - from,
{
    if from < keys.len() {
        lemma_values_for(keys, values, key, from + 1);
        assert(values_for(keys, values, key, from) =~= Seq::new(
            positions_of(keys, key, from).len(),
            |number: int| values[positions_of(keys, key, from)[number]],
        ));
    } else {
        assert(values_for(keys, values, key, from) =~= Seq::new(
            positions_of(keys, key, from).len(),
            |number: int| values[positions_of(keys, key, from)[number]],
        ));
    }
}

/// The keys of pair `index` of a dictionary: its strokes, packed, and its
/// translation.
pub proof fn lemma_pair_keys(records: Seq<Seq<u8>>, index: int)
    requires
        0 <= index,
        2 * index + 1 < records.len(),
    ensures
        index < strokes_of(records).len(),
        index < translations_of(records).len(),
        strokes_of(records)[index] == packed_strokes(records[2 * index]),
        translations_of(records)[index] == records[2 * index + 1],
    decreases index,
{
    lemma_pairs(records);
    lemma_pairs(records.skip(2));
    if index > 0 {
        lemma_pair_keys(records.skip(2), index - 1);
    }
}

/// Queries are complete: for every pair of the dictionary, the query for its
/// translation yields its packed strokes, and the query for its strokes
/// yields its translation.
pub proof fn lemma_queries_are_complete(records: Seq<Seq<u8>>, index: int)
    requires
        0 <= index,
        2 * index + 1 < records.len(),
    ensures
        translation_matches(records, records[2 * index + 1]).contains(
            (packed_strokes(records[2 * index]), records[2 * index + 1]),
        ),
        stroke_matches(records, packed_strokes(records[2 * index])).contains(
            (packed_strokes(records[2 * index]), records[2 * index + 1]),
        ),
{
    let strokes = strokes_of(records);
    let translations = translations_of(records);
    lemma_pair_keys(records, index);
    lemma_positions_of(translations, translations[index], 0);
    lemma_positions_of(strokes, strokes[index], 0);
    let first = positions_of(translations, translations[index], 0);
    let number = choose|number: int| 0 <= number < first.len() && first[number] == index;
    assert(translation_matches(records, translations[index])[number] == (
        strokes[index],
        translations[index],
    ));
    let second = positions_of(strokes, strokes[index], 0);
    let other = choose|other: int| 0 <= other < second.len() && second[other] == index;
    assert(stroke_matches(records, strokes[index])[other] == (strokes[index], translations[index]));
}

/// Translation queries are sound: whatever a query for a translation yields
/// is a pair of the dictionary with that translation. The number of the pair
/// is returned.
pub proof fn lemma_translation_matches_are_pairs(
    records: Seq<Seq<u8>>,
    query: Seq<u8>,
    number: int,
) -> (index: int)
    requires
        0 <= number < translation_matches(records, query).len(),
    ensures
        0 <= index,
        2 * index + 1 < records.len(),
        records[2 * index + 1] == query,
        translation_matches(records, query)[number] == (
            packed_strokes(records[2 * index]),
            records[2 * index + 1],
        ),
{
    let translations = translations_of(records);
    lemma_pairs(records);
    lemma_positions_of(translations, query, 0);
    let index = positions_of(translations, query, 0)[number];
    lemma_pair_keys(records, index);
    index
}

/// Stroke queries are sound: whatever a query for packed strokes yields is a
/// pair of the dictionary with those strokes. The number of the pair is
/// returned.
pub proof fn lemma_stroke_matches_are_pairs(records: Seq<Seq<u8>>, query: Seq<u8>, number: int) -> (index:
    int)
    requires
        0 <= number < stroke_matches(records, query).len(),
    ensures
        0 <= index,
        2 * index + 1 < records.len(),
        packed_strokes(records[2 * index]) == query,
        stroke_matches(records, query)[number] == (
            packed_strokes(records[2 * index]),
            records[2 * index + 1],
        ),
{
    let strokes = strokes_of(records);
    lemma_pairs(records);
    lemma_positions_of(strokes, query, 0);
    let index = positions_of(strokes, query, 0)[number];
    lemma_pair_keys(records, index);
    index
}

/// What a search finds in one table of an image and reads in the other: the
/// values that the key has in the table of `keys` are the offsets of the
/// entries of its partners, and each of these entries holds the partner's key.
pub proof fn lemma_partners(
    table_buckets: Seq<usize>,
    data: Seq<u8>,
    keys: Seq<Seq<u8>>,
    partner_buckets: Seq<usize>,
    partner_data: Seq<u8>,
    partners: Seq<Seq<u8>>,
    key: Seq<u8>,
)
    requires
        keys.len() == partners.len(),
        partner_data.len() <= MAX_DATA_SIZE,
        is_table_of(table_buckets, data, keys, links_to(partners, partner_buckets.len() as int)),
        is_table_of(
            partner_buckets,
            partner_data,
            partners,
            links_to(keys, table_buckets.len() as int),
        ),
    ensures
        ({
            let bucket = bucket_of(key, table_buckets.len() as int);
            let found = values_of(
                entries_in(
                    bucket_bytes(table_buckets, data, bucket),
                    table_buckets[bucket] as int,
                ),
                key,
            );
            let positions = positions_of(keys, key, 0);
            &&& found.len() == positions.len()
            &&& forall|number: int|
                0 <= number < found.len() ==> {
                    &&& 0 <= positions[number] < keys.len()
                    &&& keys[positions[number]] == key
                    &&& entry_fits(partner_data, #[trigger] found[number] as int)
                    &&& key_at(partner_data, found[number] as int) == partners[positions[number]]
                }
        }),
{
    let buckets = table_buckets.len() as int;
    let bucket = bucket_of(key, buckets);
    let links = links_to(partners, partner_buckets.len() as int);
    let positions = positions_of(keys, key, 0);
    lemma_bucket_of(key, buckets);
    lemma_table_structure(table_buckets, data, keys, links);
    assert(entries_in(bucket_bytes(table_buckets, data, bucket), table_buckets[bucket] as int)
        == bucket_views(keys, links, buckets, bucket, 0, keys.len() as int));
    lemma_values_of(keys, links, buckets, key, 0);
    lemma_values_for(keys, links, key, 0);
    lemma_positions_of(keys, key, 0);
    let found = values_for(keys, links, key, 0);
    assert forall|number: int| 0 <= number < found.len() implies {
        &&& 0 <= positions[number] < keys.len()
        &&& keys[positions[number]] == key
        &&& entry_fits(partner_data, #[trigger] found[number] as int)
        &&& key_at(partner_data, found[number] as int) == partners[positions[number]]
    } by {
        let index = positions[number];
        lemma_entry_at(
            partner_buckets,
            partner_data,
            partners,
            links_to(keys, buckets),
            index,
        );
        lemma_entry_region(partners, partner_buckets.len() as int, index, partners.len() as int);
        assert(found[number] == entry_offset(partners, partner_buckets.len() as int, index));
    }
}

/// The two tables of the image that `container` holds: the strokes table,
/// then the strings table.
pub fn get_hashtables_from_container<'a, ContainerType: DataStructuresContainer>(
    container: &'a mut ContainerType,
) -> (result: Result<(HashTable<'a>, HashTable<'a>), InternalError>)
    requires
        old(container).usize_view().len() >= 2,
        old(container).usize_view()[0] + 2 <= old(container).usize_view().len(),
        old(container).usize_view()[1] <= old(container).u8_view().len(),
    ensures
        final(container).usize_view() == old(container).usize_view(),
        result matches Ok(tables) && {
            let words = old(container).usize_view();
            let bytes = old(container).u8_view();
            &&& tables.0.buckets@ == words.subrange(2, 2 + words[0])
            &&& tables.1.buckets@ == words.subrange(2 + words[0], words.len() as int)
            &&& tables.0.data@ == bytes.subrange(0, words[1] as int)
            &&& tables.1.data@ == bytes.subrange(words[1] as int, bytes.len() as int)
            &&& final(container).u8_view() == final(tables.0.data)@ + final(tables.1.data)@
        },
{
    let (usize_buffer, u8_buffer) = container.get_both_buffers_mut();
    assert(usize_buffer.len() == usize_buffer@.len());
    let strokes_buckets_length = usize_buffer[0];
    let strokes_data_length = usize_buffer[1];
    let words: &[usize] = usize_buffer;
    let strokes_buckets = vstd::slice::slice_subrange(words, 2, 2 + strokes_buckets_length);
    let strings_buckets = vstd::slice::slice_subrange(
        words,
        2 + strokes_buckets_length,
        words.len(),
    );
    let (strokes_data, strings_data) = u8_buffer.split_at_mut(strokes_data_length);
    Ok(
        (
            HashTable { buckets: strokes_buckets, data: strokes_data },
            HashTable { buckets: strings_buckets, data: strings_data },
        ),
    )
}

/// Reads in `partner` the keys of the entries at the offsets `values`, and
/// pairs each of them with `query`: the key first where `query_first` is not
/// set, and `query` first where it is.
fn collect_matches(partner: &HashTable, values: &Vec<u32>, query: &[u8], query_first: bool) -> (results:
    Vec<(Vec<u8>, Vec<u8>)>)
    requires
        forall|number: int|
            0 <= number < values@.len() ==> entry_fits(
                partner.bytes(),
                #[trigger] values@[number] as int,
            ),
    ensures
        results@.len() == values@.len(),
        forall|number: int|
            0 <= number < results@.len() ==> (#[trigger] results_view(results@)[number]) == if query_first {
                (query@, key_at(partner.bytes(), values@[number] as int))
            } else {
                (key_at(partner.bytes(), values@[number] as int), query@)
            },
{
    let mut results: Vec<(Vec<u8>, Vec<u8>)> = Vec::new();
    let mut number: usize = 0;
    while number < values.len()
        invariant
            number <= values@.len(),
            results@.len() == number,
            forall|other: int|
                0 <= other < values@.len() ==> entry_fits(
                    partner.bytes(),
                    #[trigger] values@[other] as int,
                ),
            forall|other: int|
                0 <= other < number ==> (#[trigger] results_view(results@)[other]) == if query_first {
                    (query@, key_at(partner.bytes(), values@[other] as int))
                } else {
                    (key_at(partner.bytes(), values@[other] as int), query@)
                },
        decreases values@.len() - number,
    {
        let value = values[number];
        assert(entry_fits(partner.bytes(), values@[number as int] as int));
        let entry = Entry::new(partner.data, value as usize);
        let found = vstd::slice::slice_to_vec(entry.key);
        let asked = vstd::slice::slice_to_vec(query);
        let ghost before = results@;
        if query_first {
            results.push((asked, found));
        } else {
            results.push((found, asked));
        }
        proof {
            assert forall|other: int| 0 <= other < number + 1 implies (#[trigger] results_view(
                results@,
            )[other]) == if query_first {
                (query@, key_at(partner.bytes(), values@[other] as int))
            } else {
                (key_at(partner.bytes(), values@[other] as int), query@)
            } by {
                if other < number {
                    assert(results@[other] == before[other]);
                    assert(results_view(before)[other] == (before[other].0@, before[other].1@));
                }
            }
        }
        number += 1;
    }
    results
}

/// What the image of a dictionary tells of where its tables lie.
proof fn lemma_image_parts(words: Seq<usize>, bytes: Seq<u8>, records: Seq<Seq<u8>>)
    requires
        is_image_of(words, bytes, records),
    ensures
        words.len() >= 2,
        words[0] > 0,
        2 + 2 * words[0] == words.len(),
        words[1] <= bytes.len(),
        bytes.len() - words[1] <= MAX_DATA_SIZE,
        words[1] <= MAX_DATA_SIZE,
        words[0] == image_buckets(records),
        words[1] == strokes_size(records),
        strokes_of(records).len() == translations_of(records).len(),
        bytes.subrange(0, words[1] as int) + bytes.subrange(words[1] as int, bytes.len() as int)
            == bytes,
{
    lemma_pairs(records);
    assert(bytes.subrange(0, words[1] as int) + bytes.subrange(words[1] as int, bytes.len() as int)
        =~= bytes);
}

/// Looks up the translation `query`: for each entry of the dictionary with
/// that translation, in the order of the dictionary, its packed strokes and
/// the translation.
pub fn query_internal<ContainerType: DataStructuresContainer>(
    query: &[u8],
    container: &mut ContainerType,
) -> (result: Result<Vec<(Vec<u8>, Vec<u8>)>, InternalError>)
    requires
        holds_image(old(container).usize_view(), old(container).u8_view()),
    ensures
        final(container).usize_view() == old(container).usize_view(),
        final(container).u8_view() == old(container).u8_view(),
        result matches Ok(results) && forall|records: Seq<Seq<u8>>|
            is_image_of(old(container).usize_view(), old(container).u8_view(), records)
                ==> results_view(results@) == translation_matches(records, query@),
{
    let ghost words = container.usize_view();
    let ghost bytes = container.u8_view();
    let ghost witness = choose|records: Seq<Seq<u8>>| is_image_of(words, bytes, records);
    proof {
        lemma_image_parts(words, bytes, witness);
    }
    let (strokes_table, strings_table) = get_hashtables_from_container(container)?;
    proof {
        lemma_partners(
            strings_table.buckets@,
            strings_table.data@,
            translations_of(witness),
            strokes_table.buckets@,
            strokes_table.data@,
            strokes_of(witness),
            query@,
        );
        lemma_table_structure(
            strings_table.buckets@,
            strings_table.data@,
            translations_of(witness),
            links_to(strokes_of(witness), strokes_table.buckets@.len() as int),
        );
    }
    let values = strings_table.get_values(query);
    let results = collect_matches(&strokes_table, &values, query, false);
    proof {
        assert forall|records: Seq<Seq<u8>>| is_image_of(words, bytes, records) implies results_view(
            results@,
        ) == translation_matches(records, query@) by {
            lemma_image_parts(words, bytes, records);
            lemma_partners(
                strings_table.buckets@,
                strings_table.data@,
                translations_of(records),
                strokes_table.buckets@,
                strokes_table.data@,
                strokes_of(records),
                query@,
            );
            assert(results_view(results@) =~= translation_matches(records, query@));
        }
    }
    Ok(results)
}

/// Packs the stroke query `query` into `parsed_strokes_buffer`, and gives the
/// number of bytes that it takes. Fails where the buffer is too short.
pub fn parse_strokes_query(query: &[u8], parsed_strokes_buffer: &mut [u8]) -> (result: Result<
    usize,
    InternalError,
>)
    ensures
        final(parsed_strokes_buffer)@.len() == old(parsed_strokes_buffer)@.len(),
        if packed_strokes(query@).len() <= old(parsed_strokes_buffer)@.len() {
            result matches Ok(length) && length == packed_strokes(query@).len()
                && final(parsed_strokes_buffer)@.subrange(0, length as int) == packed_strokes(
                query@,
            )
        } else {
            result matches Err(error) && error.kind == ErrorKind::QueryTooLong
        },
{
    let ghost packed = packed_strokes(query@);
    let mut iterator = ParseStrokesIterator::new(query);
    let mut pos: usize = 0;
    proof {
        assert(packed.skip(0) =~= packed);
    }
    loop
        invariant_except_break
            iterator.remaining() == packed.skip(pos as int),
        invariant
            packed == packed_strokes(query@),
            iterator.wf(),
            parsed_strokes_buffer@.len() == old(parsed_strokes_buffer)@.len(),
            pos <= parsed_strokes_buffer@.len(),
            pos <= packed.len(),
            parsed_strokes_buffer@.subrange(0, pos as int) == packed.subrange(0, pos as int),
        ensures
            pos == packed.len(),
        decreases packed.len() - pos,
    {
        match iterator.next() {
            None => {
                break ;
            },
            Some(strokes_byte) => {
                if pos >= parsed_strokes_buffer.len() {
                    return Err(InternalError::new(ErrorKind::QueryTooLong));
                }
                let ghost before = parsed_strokes_buffer@;
                parsed_strokes_buffer[pos] = strokes_byte;
                proof {
                    assert(packed.skip(pos as int).skip(1) =~= packed.skip(pos + 1));
                    assert(parsed_strokes_buffer@.subrange(0, pos + 1) =~= before.subrange(
                        0,
                        pos as int,
                    ).push(strokes_byte));
                    assert(packed.subrange(0, pos + 1) =~= packed.subrange(0, pos as int).push(
                        strokes_byte,
                    ));
                }
                pos += 1;
            },
        }
    }
    proof {
        assert(packed.subrange(0, pos as int) =~= packed);
    }
    Ok(pos)
}

/// Looks up the strokes that `query` writes out: for each entry of the
/// dictionary with those strokes, in the order of the dictionary, the packed
/// strokes and its translation. Fails where the query holds more than
/// `MAX_QUERY_STROKES` strokes.
pub fn find_strokes_internal<ContainerType: DataStructuresContainer>(
    query: &[u8],
    container: &mut ContainerType,
) -> (result: Result<Vec<(Vec<u8>, Vec<u8>)>, InternalError>)
    requires
        holds_image(old(container).usize_view(), old(container).u8_view()),
    ensures
        final(container).usize_view() == old(container).usize_view(),
        final(container).u8_view() == old(container).u8_view(),
        if chords_from(query@, 0) <= MAX_QUERY_STROKES {
            result matches Ok(results) && forall|records: Seq<Seq<u8>>|
                is_image_of(old(container).usize_view(), old(container).u8_view(), records)
                    ==> results_view(results@) == stroke_matches(records, packed_strokes(query@))
        } else {
            result matches Err(error) && error.kind == ErrorKind::QueryTooLong
        },
{
    let ghost words = container.usize_view();
    let ghost bytes = container.u8_view();
    let ghost witness = choose|records: Seq<Seq<u8>>| is_image_of(words, bytes, records);
    proof {
        lemma_image_parts(words, bytes, witness);
    }
    proof {
        lemma_packed_len(query@, 0);
    }
    let mut parsed_query_buffer = [0u8;96];
    let parsed_len = parse_strokes_query(query, &mut parsed_query_buffer)?;
    let parsed_query = vstd::slice::slice_subrange(parsed_query_buffer.as_slice(), 0, parsed_len);
    let (strokes_table, strings_table) = get_hashtables_from_container(container)?;
    proof {
        lemma_partners(
            strokes_table.buckets@,
            strokes_table.data@,
            strokes_of(witness),
            strings_table.buckets@,
            strings_table.data@,
            translations_of(witness),
            parsed_query@,
        );
        lemma_table_structure(
            strokes_table.buckets@,
            strokes_table.data@,
            strokes_of(witness),
            links_to(translations_of(witness), strings_table.buckets@.len() as int),
        );
    }
    let values = strokes_table.get_values(parsed_query);
    let results = collect_matches(&strings_table, &values, parsed_query, true);
    proof {
        assert forall|records: Seq<Seq<u8>>| is_image_of(words, bytes, records) implies results_view(
            results@,
        ) == stroke_matches(records, packed_strokes(query@)) by {
            lemma_image_parts(words, bytes, records);
            lemma_partners(
                strokes_table.buckets@,
                strokes_table.data@,
                strokes_of(records),
                strings_table.buckets@,
                strings_table.data@,
                translations_of(records),
                parsed_query@,
            );
            assert(results_view(results@) =~= stroke_matches(records, packed_strokes(query@)));
        }
    }
    Ok(results)
}

} // verus!
