//! The stroke codec: chord notation in ASCII, packed into 24 bits by a
//! table-driven automaton.
//!
//! A chord is written with the keys of the steno machine in their order,
//! `#STKPWHRAO*EUFRPBLGTSDZ`; bit `i` of the packed chord stands for key `i`
//! of that order. Letters that exist on both banks are told apart by the
//! automaton's state: the vowels, the asterisk and the hyphen switch it to the
//! right bank, and nothing switches it back.

use crate::keys::ByteIterator;
use vstd::prelude::*;

verus! {

/// Flag of a table entry: the byte ends the chord.
pub const STOP: u32 = 0x8000_0000;

/// Flag of a table entry: what follows is read on the right bank.
pub const RIGHT_BANK: u32 = 0x4000_0000;

/// The number bar, `#`; a digit sets it too.
pub const NUMBER: u32 = 0x1;

// The keys of the left bank, the vowels with the asterisk, and the keys of the
// right bank, each with its bit.
pub const LEFT_S: u32 = 0x2;

pub const LEFT_T: u32 = 0x4;

pub const LEFT_K: u32 = 0x8;

pub const LEFT_P: u32 = 0x10;

pub const LEFT_W: u32 = 0x20;

pub const LEFT_H: u32 = 0x40;

pub const LEFT_R: u32 = 0x80;

pub const VOWEL_A: u32 = 0x100;

pub const VOWEL_O: u32 = 0x200;

pub const STAR: u32 = 0x400;

pub const VOWEL_E: u32 = 0x800;

pub const VOWEL_U: u32 = 0x1000;

pub const RIGHT_F: u32 = 0x2000;

pub const RIGHT_R: u32 = 0x4000;

pub const RIGHT_P: u32 = 0x8000;

pub const RIGHT_B: u32 = 0x1_0000;

pub const RIGHT_L: u32 = 0x2_0000;

pub const RIGHT_G: u32 = 0x4_0000;

pub const RIGHT_T: u32 = 0x8_0000;

pub const RIGHT_S: u32 = 0x10_0000;

pub const RIGHT_D: u32 = 0x20_0000;

pub const RIGHT_Z: u32 = 0x40_0000;

/// The automaton. Entries 0 to 63 are read on the left bank and stand for the
/// bytes from `' '` to `'_'`; entries 64 to 127 are the same bytes read on the
/// right bank. The low 24 bits of an entry are the keys that the byte adds to
/// the chord, the high 8 bits are the state that it leaves.
pub const PARSE_STROKE_TABLE: [u32; 128] = [
    0,  // ' '
    0,  // '!'
    STOP,  // '"'
    NUMBER,  // '#'
    0,  // '$'
    0,  // '%'
    0,  // '&'
    0,  // '\''
    0,  // '('
    0,  // ')'
    STAR + RIGHT_BANK,  // '*'
    0,  // '+'
    0,  // ','
    RIGHT_BANK,  // '-'
    0,  // '.'
    STOP,  // '/'
    NUMBER + VOWEL_O + RIGHT_BANK,  // '0'
    NUMBER + LEFT_S,  // '1'
    NUMBER + LEFT_T,  // '2'
    NUMBER + LEFT_P,  // '3'
    NUMBER + LEFT_H,  // '4'
    NUMBER + VOWEL_A + RIGHT_BANK,  // '5'
    NUMBER + RIGHT_F,  // '6'
    NUMBER + RIGHT_P,  // '7'
    NUMBER + RIGHT_L,  // '8'
    NUMBER + RIGHT_T,  // '9'
    0,  // ':'
    0,  // ';'
    0,  // '<'
    0,  // '='
    0,  // '>'
    0,  // '?'
    0,  // '@'
    VOWEL_A + RIGHT_BANK,  // 'A'
    0,  // 'B'
    0,  // 'C'
    0,  // 'D'
    VOWEL_E + RIGHT_BANK,  // 'E'
    0,  // 'F'
    0,  // 'G'
    LEFT_H,  // 'H'
    0,  // 'I'
    0,  // 'J'
    LEFT_K,  // 'K'
    0,  // 'L'
    0,  // 'M'
    0,  // 'N'
    VOWEL_O + RIGHT_BANK,  // 'O'
    LEFT_P,  // 'P'
    0,  // 'Q'
    LEFT_R,  // 'R'
    LEFT_S,  // 'S'
    LEFT_T,  // 'T'
    VOWEL_U + RIGHT_BANK,  // 'U'
    0,  // 'V'
    LEFT_W,  // 'W'
    0,  // 'X'
    0,  // 'Y'
    0,  // 'Z'
    0,  // '['
    0,  // '\\'
    0,  // ']'
    0,  // '^'
    0,  // '_'
    RIGHT_BANK,  // ' '
    RIGHT_BANK,  // '!'
    RIGHT_BANK + STOP,  // '"'
    RIGHT_BANK + NUMBER,  // '#'
    RIGHT_BANK,  // '$'
    RIGHT_BANK,  // '%'
    RIGHT_BANK,  // '&'
    RIGHT_BANK,  // '\''
    RIGHT_BANK,  // '('
    RIGHT_BANK,  // ')'
    RIGHT_BANK + STAR,  // '*'
    RIGHT_BANK,  // '+'
    RIGHT_BANK,  // ','
    RIGHT_BANK,  // '-'
    RIGHT_BANK,  // '.'
    RIGHT_BANK + STOP,  // '/'
    RIGHT_BANK + NUMBER + VOWEL_O,  // '0'
    RIGHT_BANK + NUMBER + LEFT_S,  // '1'
    RIGHT_BANK + NUMBER + LEFT_T,  // '2'
    RIGHT_BANK + NUMBER + LEFT_P,  // '3'
    RIGHT_BANK + NUMBER + LEFT_H,  // '4'
    RIGHT_BANK + NUMBER + VOWEL_A,  // '5'
    RIGHT_BANK + NUMBER + RIGHT_F,  // '6'
    RIGHT_BANK + NUMBER + RIGHT_P,  // '7'
    RIGHT_BANK + NUMBER + RIGHT_L,  // '8'
    RIGHT_BANK + NUMBER + RIGHT_T,  // '9'
    RIGHT_BANK,  // ':'
    RIGHT_BANK,  // ';'
    RIGHT_BANK,  // '<'
    RIGHT_BANK,  // '='
    RIGHT_BANK,  // '>'
    RIGHT_BANK,  // '?'
    RIGHT_BANK,  // '@'
    RIGHT_BANK + VOWEL_A,  // 'A'
    RIGHT_BANK + RIGHT_B,  // 'B'
    RIGHT_BANK,  // 'C'
    RIGHT_BANK + RIGHT_D,  // 'D'
    RIGHT_BANK + VOWEL_E,  // 'E'
    RIGHT_BANK + RIGHT_F,  // 'F'
    RIGHT_BANK + RIGHT_G,  // 'G'
    RIGHT_BANK,  // 'H'
    RIGHT_BANK,  // 'I'
    RIGHT_BANK,  // 'J'
    RIGHT_BANK,  // 'K'
    RIGHT_BANK + RIGHT_L,  // 'L'
    RIGHT_BANK,  // 'M'
    RIGHT_BANK,  // 'N'
    RIGHT_BANK + VOWEL_O,  // 'O'
    RIGHT_BANK + RIGHT_P,  // 'P'
    RIGHT_BANK,  // 'Q'
    RIGHT_BANK + RIGHT_R,  // 'R'
    RIGHT_BANK + RIGHT_S,  // 'S'
    RIGHT_BANK + RIGHT_T,  // 'T'
    RIGHT_BANK + VOWEL_U,  // 'U'
    RIGHT_BANK,  // 'V'
    RIGHT_BANK,  // 'W'
    RIGHT_BANK,  // 'X'
    RIGHT_BANK,  // 'Y'
    RIGHT_BANK + RIGHT_Z,  // 'Z'
    RIGHT_BANK,  // '['
    RIGHT_BANK,  // '\\'
    RIGHT_BANK,  // ']'
    RIGHT_BANK,  // '^'
    RIGHT_BANK,  // '_'
];

/// The place of a byte in one half of the table: the byte less 32, cut to six
/// bits. Bytes outside `' '..='_'` fold onto those inside.
pub open spec fn key_index(byte: u8) -> int {
    (byte as int - 32) % 64
}

/// The table entry for a byte, on either bank.
pub open spec fn entry_for(byte: u8, right_bank: bool) -> u32 {
    if right_bank {
        PARSE_STROKE_TABLE[key_index(byte) + 64]
    } else {
        PARSE_STROKE_TABLE[key_index(byte)]
    }
}

/// The keys that an entry adds to the chord: its low 24 bits.
pub open spec fn entry_keys(entry: u32) -> u32 {
    (entry % 0x100_0000) as u32
}

/// Whether an entry leaves the automaton on the right bank: its bit 30.
pub open spec fn entry_right_bank(entry: u32) -> bool {
    (entry / 0x4000_0000) % 2 == 1
}

/// Whether an entry ends the chord: its bit 31.
pub open spec fn entry_stops(entry: u32) -> bool {
    entry >= 0x8000_0000
}

/// The bytes that end a chord: `"` and `/`, and what folds onto them.
pub open spec fn is_terminator(byte: u8) -> bool {
    key_index(byte) == 2 || key_index(byte) == 15
}

/// Whether the automaton is on the right bank after it has read `text` from
/// its initial state.
pub open spec fn right_bank_after(text: Seq<u8>) -> bool
    decreases text.len(),
{
    if text.len() == 0 {
        false
    } else {
        entry_right_bank(entry_for(text.last(), right_bank_after(text.drop_last())))
    }
}

/// The packed chord of `text`: the keys of each of its bytes, read on the bank
/// that the bytes before it have left, or-ed together.
pub open spec fn chord_of(text: Seq<u8>) -> u32
    decreases text.len(),
{
    if text.len() == 0 {
        0
    } else {
        chord_of(text.drop_last()) | entry_keys(
            entry_for(text.last(), right_bank_after(text.drop_last())),
        )
    }
}

/// The index of the first terminator at or after `pos`; the length of
/// `buffer` where there is none.
pub open spec fn terminator_from(buffer: Seq<u8>, pos: int) -> int
    decreases buffer.len() - pos,
{
    if pos < 0 || pos >= buffer.len() {
        buffer.len() as int
    } else if is_terminator(buffer[pos]) {
        pos
    } else {
        terminator_from(buffer, pos + 1)
    }
}

/// Where the chord that starts at `pos` ends: behind its terminator, or at the
/// end of `buffer`. A `pos` behind the end stays where it is.
pub open spec fn chord_end(buffer: Seq<u8>, pos: int) -> int {
    if pos >= buffer.len() {
        pos
    } else if terminator_from(buffer, pos) < buffer.len() {
        terminator_from(buffer, pos) + 1
    } else {
        buffer.len() as int
    }
}

/// The packed chord that starts at `pos`: that of the bytes up to its
/// terminator.
pub open spec fn chord_at(buffer: Seq<u8>, pos: int) -> u32 {
    if pos >= buffer.len() {
        0
    } else {
        chord_of(buffer.subrange(pos, terminator_from(buffer, pos)))
    }
}

/// The first terminator is found where no byte before it is one.
pub proof fn lemma_terminator_from(buffer: Seq<u8>, pos: int, found: int)
    requires
        0 <= pos <= found <= buffer.len(),
        forall|i: int| pos <= i < found ==> !is_terminator(#[trigger] buffer[i]),
        found < buffer.len() ==> is_terminator(buffer[found]),
    ensures
        terminator_from(buffer, pos) == found,
    decreases found - pos,
{
    if pos < found {
        lemma_terminator_from(buffer, pos + 1, found);
    }
}

/// Where the first terminator is found: in the buffer, behind bytes that are
/// none.
pub proof fn lemma_terminator_from_bounds(buffer: Seq<u8>, pos: int)
    requires
        0 <= pos <= buffer.len(),
    ensures
        pos <= terminator_from(buffer, pos) <= buffer.len(),
        forall|i: int| pos <= i < terminator_from(buffer, pos) ==> !is_terminator(#[trigger] buffer[i]),
        terminator_from(buffer, pos) < buffer.len() ==> is_terminator(
            buffer[terminator_from(buffer, pos)],
        ),
    decreases buffer.len() - pos,
{
    if pos < buffer.len() && !is_terminator(buffer[pos]) {
        lemma_terminator_from_bounds(buffer, pos + 1);
    }
}

/// What the table holds, entry by entry: the terminators are the entries 2 and
/// 15 of either half and add no key; the right half never leaves the right
/// bank; no entry sets bit 23.
pub proof fn lemma_table(index: int)
    requires
        0 <= index < 128,
    ensures
        entry_stops(PARSE_STROKE_TABLE[index]) <==> (index % 64 == 2 || index % 64 == 15),
        entry_stops(PARSE_STROKE_TABLE[index]) ==> entry_keys(PARSE_STROKE_TABLE[index]) == 0,
        index >= 64 ==> entry_right_bank(PARSE_STROKE_TABLE[index]),
        entry_keys(PARSE_STROKE_TABLE[index]) < 0x80_0000,
{
}

/// The masks and shifts that take an entry apart, as arithmetic.
proof fn lemma_entry_bits(entry: u32)
    ensures
        entry & 0x00FF_FFFF == entry_keys(entry),
        ((entry >> 24) & 0x80 == 0) <==> !entry_stops(entry),
        ((entry >> 24) & 0x40 == 0x40) <==> entry_right_bank(entry),
        ((entry >> 24) & 0x40 == 0) <==> !entry_right_bank(entry),
{
    assert(entry & 0x00FF_FFFF == entry % 0x100_0000) by (bit_vector);
    assert(((entry >> 24) & 0x80 == 0) <==> entry < 0x8000_0000) by (bit_vector);
    assert(((entry >> 24) & 0x40 == 0x40) <==> (entry / 0x4000_0000) % 2 == 1) by (bit_vector);
    assert(((entry >> 24) & 0x40 == 0) <==> (entry / 0x4000_0000) % 2 == 0) by (bit_vector);
}

/// The index that a folded byte and the bank make, as arithmetic.
proof fn lemma_table_index(folded: u32, bank: u32)
    requires
        bank == 0 || bank == 0x40,
    ensures
        (folded & 63) | bank == folded % 64 + bank,
        (folded & 63) | bank < 128,
{
    assert((folded & 63) | 0 == folded % 64) by (bit_vector);
    assert((folded & 63) | 0x40 == folded % 64 + 0x40) by (bit_vector);
}

/// Reads one chord from `buffer`, from `*pos` on, up to and with its
/// terminator, and leaves `*pos` behind it.
pub fn parse_stroke_fast(buffer: &[u8], pos: &mut usize) -> (stroke: u32)
    ensures
        *final(pos) == chord_end(buffer@, *old(pos) as int),
        stroke == chord_at(buffer@, *old(pos) as int),
{
    let ghost start = *pos as int;
    let ghost mut stopped = false;
    let ghost mut right = false;
    let mut state: u32 = 0;
    let mut stroke: u32 = 0;
    proof {
        assert(0u32 & 0x80 == 0 && 0u32 & 0x40 == 0) by (bit_vector);
        if start <= buffer@.len() {
            assert(buffer@.subrange(start, start) =~= Seq::<u8>::empty());
        }
    }
    while (state & 0x80) == 0 && *pos < buffer.len()
        invariant
            start == *old(pos),
            start <= *pos,
            start <= buffer@.len() ==> *pos <= buffer@.len(),
            start > buffer@.len() ==> *pos == start && stroke == 0,
            (state & 0x80 == 0) <==> !stopped,
            (state & 0x40 == 0x40) <==> right,
            (state & 0x40 == 0) <==> !right,
            !stopped && start <= buffer@.len() ==> {
                &&& forall|i: int| start <= i < *pos ==> !is_terminator(#[trigger] buffer@[i])
                &&& stroke == chord_of(buffer@.subrange(start, *pos as int))
                &&& right == right_bank_after(buffer@.subrange(start, *pos as int))
            },
            stopped ==> {
                &&& start < *pos
                &&& forall|i: int| start <= i < *pos - 1 ==> !is_terminator(#[trigger] buffer@[i])
                &&& is_terminator(buffer@[*pos - 1])
                &&& stroke == chord_of(buffer@.subrange(start, *pos - 1))
            },
        decreases buffer@.len() - *pos,
    {
        let byte = buffer[*pos];
        let ghost before = buffer@.subrange(start, *pos as int);
        *pos += 1;
        let folded = (byte as u32).wrapping_sub(32);
        let index = (folded & 63) | (state & 0x40);
        proof {
            lemma_table_index(folded, state & 0x40);
            assert(folded % 64 == key_index(byte));
            lemma_table(index as int);
        }
        let result = PARSE_STROKE_TABLE[index as usize];
        proof {
            lemma_entry_bits(result);
            assert(result == entry_for(byte, right));
            let after = buffer@.subrange(start, *pos as int);
            assert(after.drop_last() =~= before);
            assert(after.last() == byte);
            assert(stroke | 0u32 == stroke) by (bit_vector);
            stopped = entry_stops(result);
            right = entry_right_bank(result);
        }
        stroke |= result & 0x00FF_FFFF;
        state = result >> 24;
    }
    proof {
        if start < buffer@.len() {
            if stopped {
                lemma_terminator_from(buffer@, start, *pos - 1);
            } else {
                lemma_terminator_from(buffer@, start, *pos as int);
            }
        }
    }
    stroke
}

/// The keys that byte `index` of `text` adds to the chord: those of its table
/// entry on the bank that the bytes before it have left.
pub open spec fn keys_of_byte(text: Seq<u8>, index: int) -> u32 {
    entry_keys(entry_for(text[index], right_bank_after(text.subrange(0, index))))
}

/// A chord written out and closed by a terminator is read as the chord of
/// what is written, and the position is left behind the terminator.
pub proof fn lemma_chord_of_text(text: Seq<u8>, terminator: u8)
    requires
        forall|index: int| 0 <= index < text.len() ==> !is_terminator(#[trigger] text[index]),
        is_terminator(terminator),
    ensures
        chord_at(text.push(terminator), 0) == chord_of(text),
        chord_end(text.push(terminator), 0) == text.len() + 1,
{
    let buffer = text.push(terminator);
    lemma_terminator_from(buffer, 0, text.len() as int);
    assert(buffer.subrange(0, text.len() as int) =~= text);
}

/// The bits of a chord are exactly the keys that its bytes add: a bit is set
/// in the chord if and only if one of the bytes adds it.
pub proof fn lemma_chord_bits(text: Seq<u8>, mask: u32)
    ensures
        (chord_of(text) & mask != 0) <==> exists|index: int|
            0 <= index < text.len() && #[trigger] keys_of_byte(text, index) & mask != 0,
    decreases text.len(),
{
    if text.len() == 0 {
        assert(0u32 & mask == 0) by (bit_vector);
    } else {
        let front = text.drop_last();
        let last = text.len() - 1;
        lemma_chord_bits(front, mask);
        let before = chord_of(front);
        let added = keys_of_byte(text, last);
        assert(text.subrange(0, last) =~= front);
        assert(chord_of(text) == before | added);
        assert(((before | added) & mask != 0) <==> (before & mask != 0 || added & mask != 0))
            by (bit_vector);
        assert forall|index: int| 0 <= index < last implies keys_of_byte(text, index)
            == keys_of_byte(front, index) by {
            assert(text.subrange(0, index) =~= front.subrange(0, index));
        }
        if chord_of(text) & mask != 0 {
            if before & mask != 0 {
                let index = choose|index: int|
                    0 <= index < front.len() && #[trigger] keys_of_byte(front, index) & mask != 0;
                assert(keys_of_byte(text, index) & mask != 0);
            } else {
                assert(keys_of_byte(text, last) & mask != 0);
            }
        }
        if exists|index: int|
            0 <= index < text.len() && #[trigger] keys_of_byte(text, index) & mask != 0 {
            let index = choose|index: int|
                0 <= index < text.len() && #[trigger] keys_of_byte(text, index) & mask != 0;
            if index < last {
                assert(keys_of_byte(front, index) & mask != 0);
            }
        }
    }
}

/// A chord fits 23 bits: bit 23 and the bits above it are never set.
pub proof fn lemma_chord_range(text: Seq<u8>)
    ensures
        chord_of(text) < 0x80_0000,
    decreases text.len(),
{
    if text.len() > 0 {
        lemma_chord_range(text.drop_last());
        let before = chord_of(text.drop_last());
        let right = right_bank_after(text.drop_last());
        let added = entry_keys(entry_for(text.last(), right));
        lemma_table(key_index(text.last()) + if right { 64int } else { 0int });
        assert(before < 0x80_0000 && added < 0x80_0000 ==> (before | added) < 0x80_0000)
            by (bit_vector);
    }
}

/// The right bank latches: the automaton is on the right bank after `text` if
/// and only if one of its bytes, read on the left bank, switches to it.
pub proof fn lemma_right_bank_latches(text: Seq<u8>)
    ensures
        right_bank_after(text) <==> exists|index: int|
            0 <= index < text.len() && entry_right_bank(entry_for(#[trigger] text[index], false)),
    decreases text.len(),
{
    if text.len() > 0 {
        let front = text.drop_last();
        lemma_right_bank_latches(front);
        lemma_table(key_index(text.last()) + 64);
        if right_bank_after(front) {
            let index = choose|index: int|
                0 <= index < front.len() && entry_right_bank(
                    entry_for(#[trigger] front[index], false),
                );
            assert(text[index] == front[index]);
        } else if right_bank_after(text) {
            assert(entry_right_bank(entry_for(text[text.len() - 1], false)));
        }
        if exists|index: int|
            0 <= index < text.len() && entry_right_bank(entry_for(#[trigger] text[index], false)) {
            let index = choose|index: int|
                0 <= index < text.len() && entry_right_bank(
                    entry_for(#[trigger] text[index], false),
                );
            if index < text.len() - 1 {
                assert(front[index] == text[index]);
            }
        }
    }
}

/// The three bytes of a packed chord, low byte first.
pub open spec fn chord_bytes(chord: u32) -> Seq<u8> {
    seq![(chord % 256) as u8, (chord / 256 % 256) as u8, (chord / 65536 % 256) as u8]
}

/// The packed chords of the stroke text of `raw` from `pos` on: three bytes
/// for each chord, in the order of the text.
pub open spec fn packed_from(raw: Seq<u8>, pos: int) -> Seq<u8>
    decreases raw.len() - pos,
    via packed_from_decreases
{
    if pos < 0 || pos >= raw.len() {
        Seq::empty()
    } else {
        chord_bytes(chord_at(raw, pos)) + packed_from(raw, chord_end(raw, pos))
    }
}

#[via_fn]
proof fn packed_from_decreases(raw: Seq<u8>, pos: int) {
    if 0 <= pos < raw.len() {
        lemma_terminator_from_bounds(raw, pos);
    }
}

/// The key under which a stroke string is stored: its chords, packed.
pub open spec fn packed_strokes(raw: Seq<u8>) -> Seq<u8> {
    packed_from(raw, 0)
}

/// The number of chords in the stroke text of `raw` from `pos` on.
pub open spec fn chords_from(raw: Seq<u8>, pos: int) -> nat
    decreases raw.len() - pos,
    via chords_from_decreases
{
    if pos < 0 || pos >= raw.len() {
        0
    } else {
        1 + chords_from(raw, chord_end(raw, pos))
    }
}

#[via_fn]
proof fn chords_from_decreases(raw: Seq<u8>, pos: int) {
    if 0 <= pos < raw.len() {
        lemma_terminator_from_bounds(raw, pos);
    }
}

/// A packed key holds three bytes for each chord.
pub proof fn lemma_packed_len(raw: Seq<u8>, pos: int)
    ensures
        packed_from(raw, pos).len() == 3 * chords_from(raw, pos),
        0 <= pos <= raw.len() ==> chords_from(raw, pos) <= raw.len() - pos,
    decreases raw.len() - pos,
{
    if 0 <= pos < raw.len() {
        lemma_terminator_from_bounds(raw, pos);
        lemma_packed_len(raw, chord_end(raw, pos));
    }
}

/// The packed bytes of a stroke string, chord by chord: a chord is decoded
/// when its first byte is asked for, and its other two bytes wait in the
/// iterator.
#[derive(Clone, Copy)]
pub struct ParseStrokesIterator<'a> {
    raw_strokes_data: &'a [u8],
    read_index: usize,
    current_stroke: u32,
    bytes_left_in_current_stroke: usize,
}

impl<'a> ParseStrokesIterator<'a> {
    /// The iterator over the packed bytes of the stroke string
    /// `raw_strokes_data`.
    pub fn new(raw_strokes_data: &'a [u8]) -> (iterator: ParseStrokesIterator<'a>)
        ensures
            iterator.wf(),
            iterator.remaining() == packed_strokes(raw_strokes_data@),
    {
        let iterator = ParseStrokesIterator {
            raw_strokes_data,
            read_index: 0,
            current_stroke: 0,
            bytes_left_in_current_stroke: 0,
        };
        assert(iterator.pending() + packed_from(raw_strokes_data@, 0) =~= packed_from(
            raw_strokes_data@,
            0,
        ));
        iterator
    }

    /// The bytes of the chord in hand that were not handed out yet.
    closed spec fn pending(&self) -> Seq<u8> {
        if self.bytes_left_in_current_stroke == 2 {
            seq![(self.current_stroke % 256) as u8, (self.current_stroke / 256 % 256) as u8]
        } else if self.bytes_left_in_current_stroke == 1 {
            seq![(self.current_stroke % 256) as u8]
        } else {
            Seq::empty()
        }
    }
}

impl<'a> ByteIterator for ParseStrokesIterator<'a> {
    closed spec fn wf(&self) -> bool {
        self.read_index <= self.raw_strokes_data@.len() && self.bytes_left_in_current_stroke <= 2
    }

    closed spec fn remaining(&self) -> Seq<u8> {
        self.pending() + packed_from(self.raw_strokes_data@, self.read_index as int)
    }

    fn next(&mut self) -> (byte: Option<u8>) {
        if self.bytes_left_in_current_stroke == 0 {
            if self.read_index < self.raw_strokes_data.len() {
                let ghost start = self.read_index as int;
                proof {
                    lemma_terminator_from_bounds(self.raw_strokes_data@, start);
                }
                let stroke = parse_stroke_fast(self.raw_strokes_data, &mut self.read_index);
                self.current_stroke = stroke / 256;
                self.bytes_left_in_current_stroke = 2;
                proof {
                    let rest = packed_from(self.raw_strokes_data@, self.read_index as int);
                    assert(self.pending() =~= chord_bytes(stroke).skip(1));
                    assert((chord_bytes(stroke) + rest).skip(1) =~= chord_bytes(stroke).skip(1)
                        + rest);
                }
                Some((stroke % 256) as u8)
            } else {
                None
            }
        } else {
            let stroke = self.current_stroke;
            let ghost before = self.pending();
            let ghost rest = packed_from(self.raw_strokes_data@, self.read_index as int);
            self.current_stroke = stroke / 256;
            self.bytes_left_in_current_stroke -= 1;
            proof {
                assert(self.pending() =~= before.skip(1));
                assert((before + rest).skip(1) =~= before.skip(1) + rest);
            }
            Some((stroke % 256) as u8)
        }
    }
}

} // verus!
