//! Loading a dictionary: the text is rewritten as records, the two tables are
//! sized and made from the records, and a last pass over the records writes
//! into each entry where its partner stands in the other table.

use crate::container::DataStructuresContainer;
use crate::error::{ErrorKind, InternalError};
use crate::hashtable::{HashTable, UNSET};
use crate::image::{is_image_of, lemma_pairs, links_to, links_until, load_outcome};
use crate::keys::{ByteIterator, KeyIterator};
use crate::layout::{
    is_table_of,
    lemma_entry_region,
    lemma_first_unset,
    lemma_table_structure,
    lemma_value_set,
};
use crate::maker::{unset_values, HashTableMaker, DEFAULT_LOAD_FACTOR, MAX_DATA_SIZE};
use crate::records::{lemma_stream_of, AllStrokesIterator, AllTranslationsIterator};
use crate::transcode::{dictionary_records, lemma_entries_from, skip_spaces, transcode};
use vstd::prelude::*;

verus! {

/// Links the entry of key `index` of either table to its partner in the other
/// table: finds both entries by their keys, among the entries without a
/// value, and writes into each the offset of the other.
fn link_pair<S: ByteIterator, T: ByteIterator>(
    strokes_table: &mut HashTable,
    strings_table: &mut HashTable,
    strokes: S,
    translation: T,
    Ghost(strokes_keys): Ghost<Seq<Seq<u8>>>,
    Ghost(translation_keys): Ghost<Seq<Seq<u8>>>,
    Ghost(index): Ghost<int>,
)
    requires
        strokes.wf(),
        translation.wf(),
        0 <= index < strokes_keys.len() == translation_keys.len(),
        strokes.remaining() == strokes_keys[index],
        translation.remaining() == translation_keys[index],
        old(strokes_table).data@.len() <= MAX_DATA_SIZE,
        old(strings_table).data@.len() <= MAX_DATA_SIZE,
        is_table_of(
            old(strokes_table).buckets@,
            old(strokes_table).data@,
            strokes_keys,
            links_until(translation_keys, old(strings_table).buckets@.len() as int, index),
        ),
        is_table_of(
            old(strings_table).buckets@,
            old(strings_table).data@,
            translation_keys,
            links_until(strokes_keys, old(strokes_table).buckets@.len() as int, index),
        ),
    ensures
        final(strokes_table).buckets@ == old(strokes_table).buckets@,
        final(strings_table).buckets@ == old(strings_table).buckets@,
        final(final(strokes_table).data)@ == final(old(strokes_table).data)@,
        final(final(strings_table).data)@ == final(old(strings_table).data)@,
        final(strokes_table).data@.len() == old(strokes_table).data@.len(),
        final(strings_table).data@.len() == old(strings_table).data@.len(),
        is_table_of(
            final(strokes_table).buckets@,
            final(strokes_table).data@,
            strokes_keys,
            links_until(translation_keys, old(strings_table).buckets@.len() as int, index + 1),
        ),
        is_table_of(
            final(strings_table).buckets@,
            final(strings_table).data@,
            translation_keys,
            links_until(strokes_keys, old(strokes_table).buckets@.len() as int, index + 1),
        ),
{
    let ghost strokes_buckets = strokes_table.buckets@.len() as int;
    let ghost strings_buckets = strings_table.buckets@.len() as int;
    let ghost strokes_values = links_until(translation_keys, strings_buckets, index);
    let ghost strings_values = links_until(strokes_keys, strokes_buckets, index);
    let ghost strokes_before = strokes_table.data@;
    let ghost strings_before = strings_table.data@;
    proof {
        lemma_table_structure(
            strokes_table.buckets@,
            strokes_before,
            strokes_keys,
            strokes_values,
        );
        lemma_table_structure(
            strings_table.buckets@,
            strings_before,
            translation_keys,
            strings_values,
        );
        assert forall|i: int| 0 <= i < index implies #[trigger] strokes_values[i] != UNSET by {
            lemma_entry_region(translation_keys, strings_buckets, i, translation_keys.len() as int);
        }
        assert forall|i: int| 0 <= i < index implies #[trigger] strings_values[i] != UNSET by {
            lemma_entry_region(strokes_keys, strokes_buckets, i, strokes_keys.len() as int);
        }
        lemma_first_unset(strokes_keys, strokes_values, strokes_buckets, index, 0);
        lemma_first_unset(translation_keys, strings_values, strings_buckets, index, 0);
    }
    let strokes_entry = strokes_table.find_unset_entry(strokes).unwrap();
    let translation_entry = strings_table.find_unset_entry(translation).unwrap();
    let translation_offset = translation_entry.get_offset();
    let strokes_offset = strokes_entry.get_offset();
    let strokes_entry_handle = strokes_entry.to_handle();
    let translation_entry_handle = translation_entry.to_handle();
    strokes_table.set_value(strokes_entry_handle, translation_offset as u32);
    strings_table.set_value(translation_entry_handle, strokes_offset as u32);
    proof {
        lemma_value_set(
            strokes_table.buckets@,
            strokes_before,
            strokes_table.data@,
            strokes_keys,
            strokes_values,
            index,
            translation_offset as u32,
        );
        lemma_value_set(
            strings_table.buckets@,
            strings_before,
            strings_table.data@,
            translation_keys,
            strings_values,
            index,
            strokes_offset as u32,
        );
        assert(strokes_values.update(index, translation_offset as u32) =~= links_until(
            translation_keys,
            strings_buckets,
            index + 1,
        ));
        assert(strings_values.update(index, strokes_offset as u32) =~= links_until(
            strokes_keys,
            strokes_buckets,
            index + 1,
        ));
    }
}

/// Links the entries of both tables, pair by pair, in the order of the keys.
fn link_tables<S: KeyIterator, T: KeyIterator>(
    strokes_table: &mut HashTable,
    strings_table: &mut HashTable,
    strokes_iterator: S,
    strings_iterator: T,
)
    requires
        strokes_iterator.wf(),
        strings_iterator.wf(),
        strokes_iterator.remaining().len() == strings_iterator.remaining().len(),
        old(strokes_table).data@.len() <= MAX_DATA_SIZE,
        old(strings_table).data@.len() <= MAX_DATA_SIZE,
        is_table_of(
            old(strokes_table).buckets@,
            old(strokes_table).data@,
            strokes_iterator.remaining(),
            unset_values(strokes_iterator.remaining().len() as int),
        ),
        is_table_of(
            old(strings_table).buckets@,
            old(strings_table).data@,
            strings_iterator.remaining(),
            unset_values(strings_iterator.remaining().len() as int),
        ),
    ensures
        final(strokes_table).buckets@ == old(strokes_table).buckets@,
        final(strings_table).buckets@ == old(strings_table).buckets@,
        final(final(strokes_table).data)@ == final(old(strokes_table).data)@,
        final(final(strings_table).data)@ == final(old(strings_table).data)@,
        final(strokes_table).data@.len() == old(strokes_table).data@.len(),
        final(strings_table).data@.len() == old(strings_table).data@.len(),
        is_table_of(
            final(strokes_table).buckets@,
            final(strokes_table).data@,
            strokes_iterator.remaining(),
            links_to(strings_iterator.remaining(), old(strings_table).buckets@.len() as int),
        ),
        is_table_of(
            final(strings_table).buckets@,
            final(strings_table).data@,
            strings_iterator.remaining(),
            links_to(strokes_iterator.remaining(), old(strokes_table).buckets@.len() as int),
        ),
{
    let ghost strokes_keys = strokes_iterator.remaining();
    let ghost translation_keys = strings_iterator.remaining();
    let ghost strokes_buckets = strokes_table.buckets@.len() as int;
    let ghost strings_buckets = strings_table.buckets@.len() as int;
    let mut strokes_rest = strokes_iterator;
    let mut strings_rest = strings_iterator;
    let ghost mut done: int = 0;
    proof {
        assert(unset_values(strokes_keys.len() as int) =~= links_until(
            translation_keys,
            strings_buckets,
            0,
        ));
        assert(unset_values(translation_keys.len() as int) =~= links_until(
            strokes_keys,
            strokes_buckets,
            0,
        ));
    }
    loop
        invariant_except_break
            strokes_rest.remaining() == strokes_keys.skip(done),
            strings_rest.remaining() == translation_keys.skip(done),
        invariant
            strokes_keys == strokes_iterator.remaining(),
            translation_keys == strings_iterator.remaining(),
            strokes_keys.len() == translation_keys.len(),
            strokes_rest.wf(),
            strings_rest.wf(),
            0 <= done <= strokes_keys.len(),
            strokes_table.buckets@ == old(strokes_table).buckets@,
            strings_table.buckets@ == old(strings_table).buckets@,
            final(strokes_table.data)@ == final(old(strokes_table).data)@,
            final(strings_table.data)@ == final(old(strings_table).data)@,
            strokes_buckets == strokes_table.buckets@.len(),
            strings_buckets == strings_table.buckets@.len(),
            strokes_table.data@.len() == old(strokes_table).data@.len(),
            strings_table.data@.len() == old(strings_table).data@.len(),
            strokes_table.data@.len() <= MAX_DATA_SIZE,
            strings_table.data@.len() <= MAX_DATA_SIZE,
            is_table_of(
                strokes_table.buckets@,
                strokes_table.data@,
                strokes_keys,
                links_until(translation_keys, strings_buckets, done),
            ),
            is_table_of(
                strings_table.buckets@,
                strings_table.data@,
                translation_keys,
                links_until(strokes_keys, strokes_buckets, done),
            ),
        ensures
            done == strokes_keys.len(),
        decreases strokes_keys.len() - done,
    {
        let strokes = strokes_rest.next();
        let translation = strings_rest.next();
        match (strokes, translation) {
            (Some(strokes), Some(translation)) => {
                link_pair(
                    strokes_table,
                    strings_table,
                    strokes,
                    translation,
                    Ghost(strokes_keys),
                    Ghost(translation_keys),
                    Ghost(done),
                );
                proof {
                    done = done + 1;
                }
            },
            _ => {
                break ;
            },
        }
    }
}

/// Loads the dictionary that `buffer` holds as JSON into a container of its
/// own. The buffer is used as working memory, and is of no use afterwards.
pub fn load_json_internal<ContainerType: DataStructuresContainer>(buffer: &mut [u8]) -> (result:
    Result<ContainerType, InternalError>)
    ensures
        final(buffer)@.len() == old(buffer)@.len(),
        match load_outcome(old(buffer)@) {
            Ok(records) => result matches Ok(container) && is_image_of(
                container.usize_view(),
                container.u8_view(),
                records,
            ),
            Err(kind) => result matches Err(error) && error.kind == kind,
        },
{
    let ghost input = buffer@;
    let write_pos = transcode(buffer)?;
    let ghost records = dictionary_records(input)->Ok_0;
    let stream = vstd::slice::slice_subrange(buffer, 0, write_pos);
    proof {
        lemma_entries_from(input, skip_spaces(input, 0) + 1);
        lemma_stream_of(records, Seq::empty());
        lemma_pairs(records);
    }
    let strokes_iterator = AllStrokesIterator::new(stream);
    let mut strokes_table_maker = HashTableMaker::initialize(strokes_iterator)?;
    strokes_table_maker.set_load_factor(DEFAULT_LOAD_FACTOR);
    let strings_iterator = AllTranslationsIterator::new(stream);
    let mut strings_table_maker = HashTableMaker::initialize(strings_iterator)?;
    strings_table_maker.set_load_factor(DEFAULT_LOAD_FACTOR);
    let strokes_buckets_length = strokes_table_maker.get_buckets_length();
    let strings_buckets_length = strings_table_maker.get_buckets_length();
    let strokes_data_length = strokes_table_maker.get_data_length();
    let strings_data_length = strings_table_maker.get_data_length();
    let usize_buffer_length = 2 + strokes_buckets_length + strings_buckets_length;
    if strings_data_length > usize::MAX - strokes_data_length {
        return Err(InternalError::new(ErrorKind::ImageTooLarge));
    }
    let u8_buffer_length = strokes_data_length + strings_data_length;
    let mut container = ContainerType::allocate(usize_buffer_length, u8_buffer_length);
    let (usize_buffer, u8_buffer) = container.get_both_buffers_mut();
    usize_buffer[0] = strokes_buckets_length;
    usize_buffer[1] = strokes_data_length;
    let (sizes, buckets) = usize_buffer.split_at_mut(2);
    let (strokes_buckets, strings_buckets) = buckets.split_at_mut(strokes_buckets_length);
    let (strokes_data, strings_data) = u8_buffer.split_at_mut(strokes_data_length);
    let mut strokes_table = strokes_table_maker.make_hash_table(strokes_buckets, strokes_data);
    let mut strings_table = strings_table_maker.make_hash_table(strings_buckets, strings_data);
    link_tables(&mut strokes_table, &mut strings_table, strokes_iterator, strings_iterator);
    let ghost strokes_buckets_view = strokes_table.buckets@;
    let ghost strings_buckets_view = strings_table.buckets@;
    let ghost strokes_data_view = strokes_table.data@;
    let ghost strings_data_view = strings_table.data@;
    proof {
        // What the container holds once the borrows of its buffers have ended.
        let words = sizes@ + (strokes_buckets_view + strings_buckets_view);
        let bytes = strokes_data_view + strings_data_view;
        assert(crate::image::strokes_buckets(words) =~= strokes_buckets_view);
        assert(crate::image::strings_buckets(words) =~= strings_buckets_view);
        assert(crate::image::strokes_data(words, bytes) =~= strokes_data_view);
        assert(crate::image::strings_data(words, bytes) =~= strings_data_view);
        assert(is_image_of(words, bytes, records));
    }
    Ok(container)
}

} // verus!
