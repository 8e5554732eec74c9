//! The intermediate stream: length-prefixed records, a stroke record and a
//! translation record in turn, and the iterators that read it.

use crate::keys::{KeyIterator, SliceBytes};
use crate::stroke::{packed_strokes, ParseStrokesIterator};
use vstd::prelude::*;

verus! {

/// A 16-bit number as two bytes, low byte first.
pub open spec fn le16(value: int) -> Seq<u8> {
    seq![(value % 256) as u8, (value / 256 % 256) as u8]
}

/// The number that the first two bytes of `bytes` hold, low byte first.
pub open spec fn header_of(bytes: Seq<u8>) -> int {
    bytes[0] as int + 256 * (bytes[1] as int)
}

/// One record: a header with the length of the whole record, then the payload.
pub open spec fn record(payload: Seq<u8>) -> Seq<u8> {
    le16(payload.len() as int + 2) + payload
}

/// Whether a payload fits a record: the length of the record fits 16 bits.
pub open spec fn fits_record(payload: Seq<u8>) -> bool {
    payload.len() + 2 <= 0xFFFF
}

/// The stream that holds `payloads`, one record each.
pub open spec fn stream_of(payloads: Seq<Seq<u8>>) -> Seq<u8>
    decreases payloads.len(),
{
    if payloads.len() == 0 {
        Seq::empty()
    } else {
        stream_of(payloads.drop_last()) + record(payloads.last())
    }
}

/// Whether `bytes` is a sequence of whole records.
pub open spec fn is_stream(bytes: Seq<u8>) -> bool
    decreases bytes.len(),
{
    bytes.len() == 0 || (bytes.len() >= 2 && 2 <= header_of(bytes) <= bytes.len() && is_stream(
        bytes.skip(header_of(bytes)),
    ))
}

/// The payloads of the records of `bytes`, in their order.
pub open spec fn records_in(bytes: Seq<u8>) -> Seq<Seq<u8>>
    decreases bytes.len(),
{
    if bytes.len() < 2 || header_of(bytes) < 2 || header_of(bytes) > bytes.len() {
        Seq::empty()
    } else {
        seq![bytes.subrange(2, header_of(bytes))] + records_in(bytes.skip(header_of(bytes)))
    }
}

/// The keys of the strokes table: of each pair of records the first, packed.
pub open spec fn strokes_of(records: Seq<Seq<u8>>) -> Seq<Seq<u8>>
    decreases records.len(),
{
    if records.len() < 2 {
        Seq::empty()
    } else {
        seq![packed_strokes(records[0])] + strokes_of(records.skip(2))
    }
}

/// The keys of the strings table: of each pair of records the second.
pub open spec fn translations_of(records: Seq<Seq<u8>>) -> Seq<Seq<u8>>
    decreases records.len(),
{
    if records.len() < 2 {
        Seq::empty()
    } else {
        seq![records[1]] + translations_of(records.skip(2))
    }
}

/// How a record in front of other bytes reads: its header, its payload, and
/// what follows it.
pub proof fn lemma_header_of_record(payload: Seq<u8>, rest: Seq<u8>)
    requires
        fits_record(payload),
    ensures
        header_of(record(payload) + rest) == payload.len() + 2,
        (record(payload) + rest).subrange(2, payload.len() as int + 2) == payload,
        (record(payload) + rest).skip(payload.len() as int + 2) == rest,
{
    let whole = record(payload) + rest;
    assert(whole[0] == le16(payload.len() as int + 2)[0]);
    assert(whole[1] == le16(payload.len() as int + 2)[1]);
    assert(whole.subrange(2, payload.len() as int + 2) =~= payload);
    assert(whole.skip(payload.len() as int + 2) =~= rest);
}

/// A record in front of a stream makes a stream, with one record more.
pub proof fn lemma_stream_cons(payload: Seq<u8>, rest: Seq<u8>)
    requires
        fits_record(payload),
    ensures
        is_stream(record(payload) + rest) == is_stream(rest),
        records_in(record(payload) + rest) == seq![payload] + records_in(rest),
{
    lemma_header_of_record(payload, rest);
}

/// What is written as a stream is read back as it was written.
pub proof fn lemma_stream_of(payloads: Seq<Seq<u8>>, rest: Seq<u8>)
    requires
        forall|i: int| 0 <= i < payloads.len() ==> fits_record(#[trigger] payloads[i]),
    ensures
        is_stream(stream_of(payloads) + rest) == is_stream(rest),
        records_in(stream_of(payloads) + rest) == payloads + records_in(rest),
    decreases payloads.len(),
{
    if payloads.len() == 0 {
        assert(stream_of(payloads) + rest =~= rest);
        assert(payloads + records_in(rest) =~= records_in(rest));
    } else {
        let front = payloads.drop_last();
        let last = payloads.last();
        lemma_stream_cons(last, rest);
        lemma_stream_of(front, record(last) + rest);
        assert(stream_of(payloads) + rest =~= stream_of(front) + (record(last) + rest));
        assert(front + (seq![last] + records_in(rest)) =~= payloads + records_in(rest));
    }
}

/// The records of a stream, one after the other.
#[derive(Clone, Copy)]
pub struct BufferIterator<'a> {
    offset: usize,
    buffer: &'a [u8],
}

impl<'a> BufferIterator<'a> {
    /// The iterator over the records of `buffer`.
    pub fn new(buffer: &'a [u8]) -> (iterator: BufferIterator<'a>)
        requires
            is_stream(buffer@),
        ensures
            iterator.wf(),
            iterator.remaining() == records_in(buffer@),
    {
        assert(buffer@.skip(0) =~= buffer@);
        BufferIterator { offset: 0, buffer }
    }

    /// The iterator's own invariant: what is left of the buffer is a stream.
    pub closed spec fn wf(&self) -> bool {
        self.offset <= self.buffer@.len() && is_stream(self.buffer@.skip(self.offset as int))
    }

    /// The payloads that are still to come.
    pub closed spec fn remaining(&self) -> Seq<Seq<u8>> {
        records_in(self.buffer@.skip(self.offset as int))
    }

    /// Hands out the payload of the next record, if there is one.
    pub fn next(&mut self) -> (payload: Option<&'a [u8]>)
        requires
            old(self).wf(),
        ensures
            final(self).wf(),
            old(self).remaining().len() == 0 ==> payload is None && final(self).remaining().len()
                == 0,
            old(self).remaining().len() > 0 ==> payload is Some && payload->0@ == old(
                self,
            ).remaining()[0] && final(self).remaining() == old(self).remaining().skip(1),
    {
        if self.offset >= self.buffer.len() {
            return None;
        }
        let ghost rest = self.buffer@.skip(self.offset as int);
        let low = self.buffer[self.offset] as usize;
        let high = self.buffer[self.offset + 1] as usize;
        let length = low + 256 * high;
        assert(length == header_of(rest));
        let data = vstd::slice::slice_subrange(self.buffer, self.offset + 2, self.offset + length);
        proof {
            assert(data@ =~= rest.subrange(2, length as int));
            assert(self.buffer@.skip(self.offset + length) =~= rest.skip(length as int));
            assert((seq![data@] + records_in(rest.skip(length as int))).skip(1) =~= records_in(
                rest.skip(length as int),
            ));
        }
        self.offset += length;
        Some(data)
    }
}

/// The translations of a stream, one for each pair of records.
#[derive(Clone, Copy)]
pub struct AllTranslationsIterator<'a> {
    buffer_iterator: BufferIterator<'a>,
}

impl<'a> AllTranslationsIterator<'a> {
    /// The iterator over the translations of the stream `buffer`.
    pub fn new(buffer: &'a [u8]) -> (iterator: AllTranslationsIterator<'a>)
        requires
            is_stream(buffer@),
        ensures
            iterator.wf(),
            iterator.remaining() == translations_of(records_in(buffer@)),
    {
        AllTranslationsIterator { buffer_iterator: BufferIterator::new(buffer) }
    }
}

impl<'a> KeyIterator for AllTranslationsIterator<'a> {
    type Key = SliceBytes<'a>;

    closed spec fn wf(&self) -> bool {
        self.buffer_iterator.wf()
    }

    closed spec fn remaining(&self) -> Seq<Seq<u8>> {
        translations_of(self.buffer_iterator.remaining())
    }

    fn next(&mut self) -> (key: Option<SliceBytes<'a>>) {
        let ghost records = self.buffer_iterator.remaining();
        let strokes = self.buffer_iterator.next();
        if strokes.is_none() {
            return None;
        }
        match self.buffer_iterator.next() {
            None => {
                assert(self.buffer_iterator.remaining().len() == 0);
                None
            },
            Some(translation) => {
                assert(self.buffer_iterator.remaining() =~= records.skip(2));
                assert((seq![records[1]] + translations_of(records.skip(2))).skip(1)
                    =~= translations_of(records.skip(2)));
                Some(SliceBytes::new(translation))
            },
        }
    }
}

/// The stroke keys of a stream, one for each pair of records.
#[derive(Clone, Copy)]
pub struct AllStrokesIterator<'a> {
    buffer_iterator: BufferIterator<'a>,
}

impl<'a> AllStrokesIterator<'a> {
    /// The iterator over the stroke keys of the stream `buffer`.
    pub fn new(buffer: &'a [u8]) -> (iterator: AllStrokesIterator<'a>)
        requires
            is_stream(buffer@),
        ensures
            iterator.wf(),
            iterator.remaining() == strokes_of(records_in(buffer@)),
    {
        AllStrokesIterator { buffer_iterator: BufferIterator::new(buffer) }
    }
}

impl<'a> KeyIterator for AllStrokesIterator<'a> {
    type Key = ParseStrokesIterator<'a>;

    closed spec fn wf(&self) -> bool {
        self.buffer_iterator.wf()
    }

    closed spec fn remaining(&self) -> Seq<Seq<u8>> {
        strokes_of(self.buffer_iterator.remaining())
    }

    fn next(&mut self) -> (key: Option<ParseStrokesIterator<'a>>) {
        let ghost records = self.buffer_iterator.remaining();
        let strokes = self.buffer_iterator.next();
        let translation = self.buffer_iterator.next();
        if translation.is_none() {
            assert(records.len() < 2);
            return None;
        }
        match strokes {
            None => None,
            Some(raw_stroke_data) => {
                assert(self.buffer_iterator.remaining() =~= records.skip(2));
                assert((seq![packed_strokes(records[0])] + strokes_of(records.skip(2))).skip(1)
                    =~= strokes_of(records.skip(2)));
                Some(ParseStrokesIterator::new(raw_stroke_data))
            },
        }
    }
}

} // verus!
