//! The transcoder: one pass over a JSON object of the shape
//! `{ "strokes": "translation", ... }` that checks it and rewrites it, in the
//! same buffer, as a stream of length-prefixed records.
//!
//! Every string opens and closes with a quote that the output does not hold.
//! These two bytes pay for the two-byte header of the record, so the write
//! position never overtakes the read position.

use crate::error::{ErrorKind, InternalError};
use crate::records::{fits_record, record, stream_of};
use vstd::prelude::*;

verus! {

// The bytes of JSON that the transcoder knows.
pub const QUOTE: u8 = 0x22;

pub const BACKSLASH: u8 = 0x5C;

pub const SLASH: u8 = 0x2F;

pub const COLON: u8 = 0x3A;

pub const COMMA: u8 = 0x2C;

pub const OPEN_BRACE: u8 = 0x7B;

pub const CLOSE_BRACE: u8 = 0x7D;

/// The most strokes that one stroke string may hold.
pub const MAX_STROKES: usize = 1000;

/// Space, tab, carriage return and line feed.
pub open spec fn is_whitespace(byte: u8) -> bool {
    byte == 0x20 || byte == 0x09 || byte == 0x0D || byte == 0x0A
}

/// The first position at or after `pos` that holds no whitespace; the length
/// of `input` where there is none.
pub open spec fn skip_spaces(input: Seq<u8>, pos: int) -> int
    decreases input.len() - pos,
{
    if 0 <= pos < input.len() && is_whitespace(input[pos]) {
        skip_spaces(input, pos + 1)
    } else {
        pos
    }
}

/// How often `byte` occurs in `bytes`.
pub open spec fn count_byte(bytes: Seq<u8>, byte: u8) -> nat
    decreases bytes.len(),
{
    if bytes.len() == 0 {
        0
    } else {
        count_byte(bytes.drop_last(), byte) + if bytes.last() == byte {
            1nat
        } else {
            0nat
        }
    }
}

/// What is read of a string: the payload it stands for, and the position
/// behind its closing quote.
pub struct Scanned {
    pub payload: Seq<u8>,
    pub end: int,
}

/// `scanned` with `bytes` in front of its payload.
pub open spec fn with_front(bytes: Seq<u8>, scanned: Result<Scanned, ErrorKind>) -> Result<
    Scanned,
    ErrorKind,
> {
    match scanned {
        Ok(rest) => Ok(Scanned { payload: bytes + rest.payload, end: rest.end }),
        Err(kind) => Err(kind),
    }
}

/// What an escaped byte stands for: a quote or a backslash for itself, any
/// other byte for the backslash and itself.
pub open spec fn unescaped(byte: u8) -> Seq<u8> {
    if byte == QUOTE || byte == BACKSLASH {
        seq![byte]
    } else {
        seq![BACKSLASH, byte]
    }
}

/// The inside of a string, from `pos` behind its opening quote up to its
/// closing quote. A stroke string holds no backslash.
pub open spec fn string_body(input: Seq<u8>, pos: int, is_strokes: bool) -> Result<
    Scanned,
    ErrorKind,
>
    decreases input.len() - pos,
{
    if pos < 0 || pos >= input.len() {
        Err(ErrorKind::UnterminatedString)
    } else if input[pos] == QUOTE {
        Ok(Scanned { payload: Seq::empty(), end: pos + 1 })
    } else if input[pos] == BACKSLASH {
        if is_strokes {
            Err(ErrorKind::EscapeInStrokes)
        } else if pos + 1 >= input.len() {
            Err(ErrorKind::UnterminatedString)
        } else {
            with_front(unescaped(input[pos + 1]), string_body(input, pos + 2, is_strokes))
        }
    } else {
        with_front(seq![input[pos]], string_body(input, pos + 1, is_strokes))
    }
}

/// The string that opens at `pos`, with the limits on what it may hold: a
/// stroke string at most a thousand strokes, and any string a payload that
/// fits a record.
pub open spec fn string_at(input: Seq<u8>, pos: int, is_strokes: bool) -> Result<
    Scanned,
    ErrorKind,
> {
    if pos < 0 || pos >= input.len() {
        Err(ErrorKind::UnexpectedEnd)
    } else if input[pos] != QUOTE {
        Err(ErrorKind::UnexpectedByte)
    } else {
        match string_body(input, pos + 1, is_strokes) {
            Err(kind) => Err(kind),
            Ok(scanned) => if is_strokes && count_byte(scanned.payload, SLASH) + 1 > MAX_STROKES {
                Err(ErrorKind::TooManyStrokes)
            } else if !fits_record(scanned.payload) {
                Err(ErrorKind::EntryTooLong)
            } else {
                Ok(scanned)
            },
        }
    }
}

/// Where skipping whitespace ends: at or behind where it starts, behind
/// whitespace only, and before a byte that is none.
pub proof fn lemma_skip_spaces(input: Seq<u8>, pos: int)
    requires
        0 <= pos,
    ensures
        pos <= skip_spaces(input, pos),
        pos <= input.len() ==> skip_spaces(input, pos) <= input.len(),
        forall|i: int| pos <= i < skip_spaces(input, pos) ==> is_whitespace(#[trigger] input[i]),
        skip_spaces(input, pos) < input.len() ==> !is_whitespace(
            input[skip_spaces(input, pos)],
        ),
    decreases input.len() - pos,
{
    if pos < input.len() && is_whitespace(input[pos]) {
        lemma_skip_spaces(input, pos + 1);
    }
}

/// A string's payload is shorter than its text by the two quotes at least.
pub proof fn lemma_string_body(input: Seq<u8>, pos: int, is_strokes: bool)
    requires
        0 <= pos,
    ensures
        string_body(input, pos, is_strokes) matches Ok(scanned) ==> pos + scanned.payload.len()
            + 1 <= scanned.end <= input.len(),
    decreases input.len() - pos,
{
    if pos < input.len() && input[pos] != QUOTE {
        if input[pos] == BACKSLASH {
            if !is_strokes && pos + 1 < input.len() {
                lemma_string_body(input, pos + 2, is_strokes);
            }
        } else {
            lemma_string_body(input, pos + 1, is_strokes);
        }
    }
}

/// A byte occurs in a sequence at most as often as the sequence is long.
pub proof fn lemma_count_byte(bytes: Seq<u8>, byte: u8)
    ensures
        count_byte(bytes, byte) <= bytes.len(),
    decreases bytes.len(),
{
    if bytes.len() > 0 {
        lemma_count_byte(bytes.drop_last(), byte);
    }
}

/// What is read from `pos` on depends on the bytes from `pos` on alone.
pub proof fn lemma_skip_spaces_agrees(first: Seq<u8>, second: Seq<u8>, pos: int)
    requires
        0 <= pos,
        first.len() == second.len(),
        forall|i: int| pos <= i < first.len() ==> first[i] == second[i],
    ensures
        skip_spaces(first, pos) == skip_spaces(second, pos),
    decreases first.len() - pos,
{
    if pos < first.len() && is_whitespace(first[pos]) {
        lemma_skip_spaces_agrees(first, second, pos + 1);
    }
}

/// The inside of a string depends on the bytes from its start on alone.
pub proof fn lemma_string_body_agrees(
    first: Seq<u8>,
    second: Seq<u8>,
    pos: int,
    is_strokes: bool,
)
    requires
        0 <= pos,
        first.len() == second.len(),
        forall|i: int| pos <= i < first.len() ==> first[i] == second[i],
    ensures
        string_body(first, pos, is_strokes) == string_body(second, pos, is_strokes),
    decreases first.len() - pos,
{
    if pos < first.len() && first[pos] != QUOTE {
        if first[pos] == BACKSLASH {
            if !is_strokes && pos + 1 < first.len() {
                lemma_string_body_agrees(first, second, pos + 2, is_strokes);
            }
        } else {
            lemma_string_body_agrees(first, second, pos + 1, is_strokes);
        }
    }
}

/// A string depends on the bytes from its opening quote on alone.
pub proof fn lemma_string_at_agrees(first: Seq<u8>, second: Seq<u8>, pos: int, is_strokes: bool)
    requires
        0 <= pos,
        first.len() == second.len(),
        forall|i: int| pos <= i < first.len() ==> first[i] == second[i],
    ensures
        string_at(first, pos, is_strokes) == string_at(second, pos, is_strokes),
{
    if pos < first.len() {
        lemma_string_body_agrees(first, second, pos + 1, is_strokes);
    }
}

/// Moves `*pos` over whitespace. Fails where the input ends before anything
/// else is found.
pub fn skip_whitespace(buffer: &[u8], pos: &mut usize) -> (result: Result<(), InternalError>)
    ensures
        *final(pos) == skip_spaces(buffer@, *old(pos) as int),
        result is Ok <==> *final(pos) < buffer@.len(),
        result matches Err(error) ==> error.kind == ErrorKind::DataIncomplete,
{
    while *pos < buffer.len()
        invariant
            *old(pos) <= *pos,
            skip_spaces(buffer@, *pos as int) == skip_spaces(buffer@, *old(pos) as int),
        decreases buffer@.len() - *pos,
    {
        let byte = buffer[*pos];
        if byte != 0x20 && byte != 0x09 && byte != 0x0D && byte != 0x0A {
            return Ok(());
        }
        *pos += 1;
    }
    Err(InternalError::new(ErrorKind::DataIncomplete))
}

/// Moves `*pos` over the byte `expected`. Fails, and leaves `*pos`, where
/// another byte or none is found.
pub fn expect_char(buffer: &[u8], pos: &mut usize, expected: u8) -> (result: Result<
    (),
    InternalError,
>)
    ensures
        match result {
            Ok(_) => *old(pos) < buffer@.len() && buffer@[*old(pos) as int] == expected
                && *final(pos) == *old(pos) + 1,
            Err(error) => *final(pos) == *old(pos) && if *old(pos) < buffer@.len() {
                buffer@[*old(pos) as int] != expected && error.kind == ErrorKind::UnexpectedByte
            } else {
                error.kind == ErrorKind::UnexpectedEnd
            },
        },
{
    if *pos < buffer.len() {
        if buffer[*pos] == expected {
            *pos += 1;
            Ok(())
        } else {
            Err(InternalError::new(ErrorKind::UnexpectedByte))
        }
    } else {
        Err(InternalError::new(ErrorKind::UnexpectedEnd))
    }
}

/// Rewrites the JSON string that opens at `*read_pos` as one record at
/// `*write_pos`: the escapes `\"` and `\\` become the byte they stand for, any
/// other escape is copied as it is, and the record's header is filled in when
/// the string has closed. Both positions are left behind what was read and
/// written.
///
/// The buffer is changed between the old and the new write position, and
/// nowhere else.
pub fn rewrite_string(
    buffer: &mut [u8],
    read_pos: &mut usize,
    write_pos: &mut usize,
    is_strokes: bool,
) -> (result: Result<(), InternalError>)
    requires
        *old(write_pos) + 1 <= *old(read_pos),
    ensures
        final(buffer)@.len() == old(buffer)@.len(),
        match string_at(old(buffer)@, *old(read_pos) as int, is_strokes) {
            Ok(scanned) => {
                &&& result is Ok
                &&& *final(read_pos) == scanned.end
                &&& *final(write_pos) == *old(write_pos) + 2 + scanned.payload.len()
                &&& *final(write_pos) + 1 <= *final(read_pos)
                &&& final(buffer)@ == old(buffer)@.subrange(0, *old(write_pos) as int) + record(
                    scanned.payload,
                ) + old(buffer)@.subrange(*final(write_pos) as int, old(buffer)@.len() as int)
            },
            Err(kind) => result matches Err(error) && error.kind == kind,
        },
{
    let ghost input = buffer@;
    let ghost start = *read_pos + 1;
    expect_char(buffer, read_pos, QUOTE)?;
    let length_header_offset = *write_pos;
    *write_pos += 2;
    let mut escape_next = false;
    let mut num_strokes: usize = 1;
    let ghost mut payload = Seq::<u8>::empty();
    loop
        invariant_except_break
            *write_pos + if escape_next { 1int } else { 0int } <= *read_pos,
            escape_next ==> !is_strokes && start < *read_pos && input[*read_pos - 1] == BACKSLASH,
            string_body(input, start, is_strokes) == with_front(
                payload,
                string_body(
                    input,
                    if escape_next { *read_pos - 1 } else { *read_pos as int },
                    is_strokes,
                ),
            ),
        invariant
            input == old(buffer)@,
            start == *old(read_pos) + 1,
            start <= input.len(),
            input[*old(read_pos) as int] == QUOTE,
            length_header_offset == *old(write_pos),
            buffer@.len() == input.len(),
            start <= *read_pos <= input.len(),
            *write_pos == length_header_offset + 2 + payload.len(),
            *write_pos <= *read_pos,
            forall|i: int|
                0 <= i < input.len() && (i < length_header_offset + 2 || i >= *write_pos)
                    ==> buffer@[i] == input[i],
            forall|j: int|
                0 <= j < payload.len() ==> buffer@[length_header_offset + 2 + j] == payload[j],
            is_strokes ==> num_strokes == 1 + count_byte(payload, SLASH),
            !is_strokes ==> num_strokes == 1,
        ensures
            string_body(input, start, is_strokes) == Ok::<Scanned, ErrorKind>(
                Scanned { payload, end: *read_pos as int },
            ),
            *write_pos + 1 <= *read_pos,
        decreases input.len() - *read_pos,
    {
        if *read_pos >= buffer.len() {
            return Err(InternalError::new(ErrorKind::UnterminatedString));
        }
        let byte = buffer[*read_pos];
        let ghost here = *read_pos as int;
        *read_pos += 1;
        if escape_next {
            let ghost before = payload;
            if byte == QUOTE || byte == BACKSLASH {
                buffer[*write_pos] = byte;
                *write_pos += 1;
            } else {
                buffer[*write_pos] = BACKSLASH;
                buffer[*write_pos + 1] = byte;
                *write_pos += 2;
            }
            escape_next = false;
            proof {
                payload = before + unescaped(byte);
                let rest = string_body(input, here + 1, is_strokes);
                if rest is Ok {
                    assert(before + (unescaped(byte) + rest->Ok_0.payload) =~= payload
                        + rest->Ok_0.payload);
                }
                lemma_count_byte(payload, SLASH);
            }
        } else {
            if byte == QUOTE {
                proof {
                    assert(payload + Seq::<u8>::empty() =~= payload);
                }
                break ;
            } else if byte == BACKSLASH {
                if is_strokes {
                    return Err(InternalError::new(ErrorKind::EscapeInStrokes));
                }
                escape_next = true;
            } else {
                let ghost before = payload;
                buffer[*write_pos] = byte;
                *write_pos += 1;
                proof {
                    payload = before.push(byte);
                    assert(payload.drop_last() =~= before);
                    let rest = string_body(input, here + 1, is_strokes);
                    if rest is Ok {
                        assert(before + (seq![byte] + rest->Ok_0.payload) =~= payload
                            + rest->Ok_0.payload);
                    }
                    lemma_count_byte(payload, SLASH);
                }
            }
            if is_strokes && byte == SLASH {
                num_strokes += 1;
            }
        }
    }
    if num_strokes > MAX_STROKES {
        return Err(InternalError::new(ErrorKind::TooManyStrokes));
    }
    let length = *write_pos - length_header_offset;
    if length > 0xFFFF {
        return Err(InternalError::new(ErrorKind::EntryTooLong));
    }
    buffer[length_header_offset] = (length % 256) as u8;
    buffer[length_header_offset + 1] = (length / 256) as u8;
    proof {
        assert(buffer@ =~= input.subrange(0, length_header_offset as int) + record(payload)
            + input.subrange(*write_pos as int, input.len() as int));
    }
    Ok(())
}

/// What is read of an entry: the two payloads it stands for, and the position
/// behind the translation's closing quote.
pub struct ScannedEntry {
    pub strokes: Seq<u8>,
    pub translation: Seq<u8>,
    pub end: int,
}

/// The entry at `pos`: a stroke string, a colon and a translation, with
/// whitespace before each of them.
pub open spec fn entry_at(input: Seq<u8>, pos: int) -> Result<ScannedEntry, ErrorKind> {
    let key_at = skip_spaces(input, pos);
    if key_at >= input.len() {
        Err(ErrorKind::DataIncomplete)
    } else {
        match string_at(input, key_at, true) {
            Err(kind) => Err(kind),
            Ok(strokes) => {
                let colon_at = skip_spaces(input, strokes.end);
                if colon_at >= input.len() {
                    Err(ErrorKind::DataIncomplete)
                } else if input[colon_at] != COLON {
                    Err(ErrorKind::UnexpectedByte)
                } else {
                    let value_at = skip_spaces(input, colon_at + 1);
                    if value_at >= input.len() {
                        Err(ErrorKind::DataIncomplete)
                    } else {
                        match string_at(input, value_at, false) {
                            Err(kind) => Err(kind),
                            Ok(translation) => Ok(
                                ScannedEntry {
                                    strokes: strokes.payload,
                                    translation: translation.payload,
                                    end: translation.end,
                                },
                            ),
                        }
                    }
                }
            },
        }
    }
}

/// `rest` with `front` before its records.
pub open spec fn with_records(front: Seq<Seq<u8>>, rest: Result<Seq<Seq<u8>>, ErrorKind>) -> Result<
    Seq<Seq<u8>>,
    ErrorKind,
> {
    match rest {
        Ok(records) => Ok(front + records),
        Err(kind) => Err(kind),
    }
}

/// The payloads of the entries from `pos` on, a stroke string and a
/// translation in turn, up to the closing brace: `pos` stands behind the
/// opening brace or behind a comma.
pub open spec fn entries_from(input: Seq<u8>, pos: int) -> Result<Seq<Seq<u8>>, ErrorKind>
    decreases input.len() - pos,
    via entries_from_decreases
{
    if pos < 0 {
        Err(ErrorKind::DataIncomplete)
    } else {
        match entry_at(input, pos) {
            Err(kind) => Err(kind),
            Ok(entry) => {
                let next_at = skip_spaces(input, entry.end);
                if next_at >= input.len() {
                    Err(ErrorKind::DataIncomplete)
                } else if input[next_at] == CLOSE_BRACE {
                    Ok(seq![entry.strokes, entry.translation])
                } else if input[next_at] != COMMA {
                    Err(ErrorKind::UnexpectedByte)
                } else {
                    with_records(
                        seq![entry.strokes, entry.translation],
                        entries_from(input, next_at + 1),
                    )
                }
            },
        }
    }
}

#[via_fn]
proof fn entries_from_decreases(input: Seq<u8>, pos: int) {
    if pos >= 0 {
        lemma_entry_at(input, pos);
        if let Ok(entry) = entry_at(input, pos) {
            lemma_skip_spaces(input, entry.end);
        }
    }
}

/// An entry ends behind where it starts, is shorter than its text by the four
/// quotes and the colon at least, and both its payloads fit a record.
pub proof fn lemma_entry_at(input: Seq<u8>, pos: int)
    requires
        0 <= pos,
    ensures
        entry_at(input, pos) matches Ok(entry) ==> {
            &&& pos + entry.strokes.len() + entry.translation.len() + 5 <= entry.end <= input.len()
            &&& fits_record(entry.strokes)
            &&& fits_record(entry.translation)
        },
{
    lemma_skip_spaces(input, pos);
    let key_at = skip_spaces(input, pos);
    if let Ok(strokes) = string_at(input, key_at, true) {
        lemma_string_body(input, key_at + 1, true);
        lemma_skip_spaces(input, strokes.end);
        let colon_at = skip_spaces(input, strokes.end);
        lemma_skip_spaces(input, colon_at + 1);
        let value_at = skip_spaces(input, colon_at + 1);
        if let Ok(translation) = string_at(input, value_at, false) {
            lemma_string_body(input, value_at + 1, false);
        }
    }
}

/// An entry depends on the bytes from its start on alone.
pub proof fn lemma_entry_at_agrees(first: Seq<u8>, second: Seq<u8>, pos: int)
    requires
        0 <= pos,
        first.len() == second.len(),
        forall|i: int| pos <= i < first.len() ==> first[i] == second[i],
    ensures
        entry_at(first, pos) == entry_at(second, pos),
{
    lemma_skip_spaces(first, pos);
    lemma_skip_spaces_agrees(first, second, pos);
    let key_at = skip_spaces(first, pos);
    lemma_string_at_agrees(first, second, key_at, true);
    if let Ok(strokes) = string_at(first, key_at, true) {
        lemma_string_body(first, key_at + 1, true);
        lemma_skip_spaces(first, strokes.end);
        lemma_skip_spaces_agrees(first, second, strokes.end);
        let colon_at = skip_spaces(first, strokes.end);
        lemma_skip_spaces(first, colon_at + 1);
        lemma_skip_spaces_agrees(first, second, colon_at + 1);
        let value_at = skip_spaces(first, colon_at + 1);
        lemma_string_at_agrees(first, second, value_at, false);
    }
}

/// The payloads that a dictionary holds, a stroke string and its translation
/// in turn, in the order of the text; or the first error in it.
pub open spec fn dictionary_records(input: Seq<u8>) -> Result<Seq<Seq<u8>>, ErrorKind> {
    let open_at = skip_spaces(input, 0);
    if open_at >= input.len() {
        Err(ErrorKind::NoData)
    } else if input[open_at] != OPEN_BRACE {
        Err(ErrorKind::UnexpectedByte)
    } else {
        entries_from(input, open_at + 1)
    }
}

/// A dictionary that is accepted holds at least one entry, its records come
/// in pairs, and each of them fits a record.
pub proof fn lemma_entries_from(input: Seq<u8>, pos: int)
    ensures
        entries_from(input, pos) matches Ok(records) ==> {
            &&& records.len() >= 2
            &&& records.len() % 2 == 0
            &&& forall|i: int| 0 <= i < records.len() ==> fits_record(#[trigger] records[i])
        },
    decreases input.len() - pos,
{
    if pos >= 0 {
        lemma_entry_at(input, pos);
        if let Ok(entry) = entry_at(input, pos) {
            lemma_skip_spaces(input, entry.end);
            let next_at = skip_spaces(input, entry.end);
            if next_at < input.len() && input[next_at] == COMMA {
                lemma_entries_from(input, next_at + 1);
            }
        }
    }
}

/// Rewrites the entry at `*read_pos`, a stroke string, a colon and a
/// translation, as two records at `*write_pos`.
pub fn rewrite_entry(buffer: &mut [u8], read_pos: &mut usize, write_pos: &mut usize) -> (result:
    Result<(), InternalError>)
    requires
        *old(write_pos) + 1 <= *old(read_pos),
    ensures
        final(buffer)@.len() == old(buffer)@.len(),
        match entry_at(old(buffer)@, *old(read_pos) as int) {
            Ok(entry) => {
                &&& result is Ok
                &&& *final(read_pos) == entry.end
                &&& *final(write_pos) == *old(write_pos) + 4 + entry.strokes.len()
                    + entry.translation.len()
                &&& *final(write_pos) + 1 <= *final(read_pos)
                &&& final(buffer)@ == old(buffer)@.subrange(0, *old(write_pos) as int) + record(
                    entry.strokes,
                ) + record(entry.translation) + old(buffer)@.subrange(
                    *final(write_pos) as int,
                    old(buffer)@.len() as int,
                )
            },
            Err(kind) => result matches Err(error) && error.kind == kind,
        },
{
    let ghost input = buffer@;
    let ghost entry_pos = *read_pos as int;
    let ghost first_at = *write_pos as int;
    proof {
        lemma_skip_spaces(input, entry_pos);
    }
    skip_whitespace(buffer, read_pos)?;
    rewrite_string(buffer, read_pos, write_pos, true)?;
    let ghost strokes = string_at(input, skip_spaces(input, entry_pos), true)->Ok_0;
    let ghost middle = buffer@;
    let ghost second_at = *write_pos as int;
    proof {
        lemma_string_body(input, skip_spaces(input, entry_pos) + 1, true);
        lemma_skip_spaces(input, strokes.end);
        lemma_skip_spaces_agrees(middle, input, *read_pos as int);
    }
    skip_whitespace(buffer, read_pos)?;
    expect_char(buffer, read_pos, COLON)?;
    proof {
        lemma_skip_spaces(input, *read_pos as int);
        lemma_skip_spaces_agrees(middle, input, *read_pos as int);
    }
    skip_whitespace(buffer, read_pos)?;
    let ghost value_at = *read_pos as int;
    proof {
        lemma_string_at_agrees(middle, input, value_at, false);
    }
    rewrite_string(buffer, read_pos, write_pos, false)?;
    proof {
        let translation = string_at(input, value_at, false)->Ok_0;
        lemma_string_body(input, value_at + 1, false);
        assert(buffer@ =~= input.subrange(0, first_at) + record(strokes.payload) + record(
            translation.payload,
        ) + input.subrange(*write_pos as int, input.len() as int));
    }
    Ok(())
}

/// Two records written behind a stream make the stream of two payloads more.
proof fn lemma_entry_appended(
    before: Seq<u8>,
    after: Seq<u8>,
    done: Seq<Seq<u8>>,
    at: int,
    strokes: Seq<u8>,
    translation: Seq<u8>,
)
    requires
        0 <= at,
        at + 4 + strokes.len() + translation.len() <= before.len(),
        before.subrange(0, at) == stream_of(done),
        after == before.subrange(0, at) + record(strokes) + record(translation) + before.subrange(
            at + 4 + strokes.len() + translation.len(),
            before.len() as int,
        ),
    ensures
        after.len() == before.len(),
        after.subrange(0, at + 4 + strokes.len() + translation.len()) == stream_of(
            done + seq![strokes, translation],
        ),
        stream_of(done + seq![strokes, translation]).len() == at + 4 + strokes.len()
            + translation.len(),
        forall|i: int|
            at + 4 + strokes.len() + translation.len() <= i < before.len() ==> after[i]
                == before[i],
{
    let both = done + seq![strokes, translation];
    assert(both.drop_last() =~= done.push(strokes));
    assert(done.push(strokes).drop_last() =~= done);
    assert(stream_of(done.push(strokes)) == stream_of(done) + record(strokes));
    assert(stream_of(both) == stream_of(done.push(strokes)) + record(translation));
    assert(after.subrange(0, at + 4 + strokes.len() + translation.len()) =~= before.subrange(0, at)
        + record(strokes) + record(translation));
}

/// Checks the dictionary in `buffer` and rewrites it in place as a stream of
/// records, from the start of the buffer on. Gives the length of the stream.
pub fn transcode(buffer: &mut [u8]) -> (result: Result<usize, InternalError>)
    ensures
        final(buffer)@.len() == old(buffer)@.len(),
        match dictionary_records(old(buffer)@) {
            Ok(records) => result matches Ok(length) && length == stream_of(records).len()
                && length <= old(buffer)@.len() && final(buffer)@.subrange(0, length as int)
                == stream_of(records),
            Err(kind) => result matches Err(error) && error.kind == kind,
        },
{
    let ghost input = buffer@;
    let mut read_pos: usize = 0;
    let mut write_pos: usize = 0;
    if skip_whitespace(buffer, &mut read_pos).is_err() {
        return Err(InternalError::new(ErrorKind::NoData));
    }
    expect_char(buffer, &mut read_pos, OPEN_BRACE)?;
    let ghost mut done = Seq::<Seq<u8>>::empty();
    proof {
        assert(buffer@.subrange(0, 0) =~= stream_of(done));
        let rest = entries_from(input, read_pos as int);
        if rest is Ok {
            assert(done + rest->Ok_0 =~= rest->Ok_0);
        }
    }
    loop
        invariant_except_break
            dictionary_records(input) == with_records(done, entries_from(input, read_pos as int)),
        invariant
            input == old(buffer)@,
            buffer@.len() == input.len(),
            write_pos + 1 <= read_pos <= input.len(),
            write_pos == stream_of(done).len(),
            buffer@.subrange(0, write_pos as int) == stream_of(done),
            forall|i: int| write_pos <= i < input.len() ==> buffer@[i] == input[i],
        ensures
            dictionary_records(input) == Ok::<Seq<Seq<u8>>, ErrorKind>(done),
        decreases input.len() - read_pos,
    {
        let ghost before = buffer@;
        let ghost entry_pos = read_pos as int;
        let ghost entry_to = write_pos as int;
        proof {
            lemma_entry_at_agrees(before, input, entry_pos);
            lemma_entry_at(input, entry_pos);
        }
        rewrite_entry(buffer, &mut read_pos, &mut write_pos)?;
        let ghost entry = entry_at(input, entry_pos)->Ok_0;
        proof {
            lemma_entry_appended(
                before,
                buffer@,
                done,
                entry_to,
                entry.strokes,
                entry.translation,
            );
            lemma_skip_spaces(input, entry.end);
            lemma_skip_spaces_agrees(buffer@, input, read_pos as int);
            let rest = entries_from(input, skip_spaces(input, entry.end) + 1);
            if rest is Ok {
                assert(done + (seq![entry.strokes, entry.translation] + rest->Ok_0) =~= done
                    + seq![entry.strokes, entry.translation] + rest->Ok_0);
            }
            done = done + seq![entry.strokes, entry.translation];
        }
        skip_whitespace(buffer, &mut read_pos)?;
        let byte = buffer[read_pos];
        if byte == CLOSE_BRACE {
            break ;
        }
        expect_char(buffer, &mut read_pos, COMMA)?;
    }
    Ok(write_pos)
}

} // verus!
