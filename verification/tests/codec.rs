use query_engine::{parse_stroke_fast, ByteIterator, ParseStrokesIterator, PARSE_STROKE_TABLE};

fn chord(text: &[u8]) -> u32 {
    let mut pos = 0;
    parse_stroke_fast(text, &mut pos)
}

fn packed(text: &[u8]) -> Vec<u8> {
    let mut iterator = ParseStrokesIterator::new(text);
    let mut bytes = Vec::new();
    while let Some(byte) = iterator.next() {
        bytes.push(byte);
    }
    bytes
}

#[test]
fn test_parse_stroke() {
    let mut pos = 0;
    assert_eq!(parse_stroke_fast(b"KPWHREPLGS/", &mut pos), 1476856);
    pos = 0;
    assert_eq!(parse_stroke_fast(b"K-FRBL/", &mut pos), 221192);
    pos = 0;
    assert_eq!(parse_stroke_fast(b"#AO/", &mut pos), 769);
    pos = 0;
    assert_eq!(parse_stroke_fast(b"50/", &mut pos), 769);
}

#[test]
fn parse_stroke_in_hexadecimal() {
    assert_eq!(chord(b"KPWHREPLGS/"), 0x1688F8);
    assert_eq!(chord(b"K-FRBL/"), 0x036008);
    assert_eq!(chord(b"#AO/"), 0x000301);
    assert_eq!(chord(b"50/"), 0x000301);
}

#[test]
fn parse_stroke_leaves_position_behind_terminator() {
    let text = b"HEL/LOE\"rest";
    let mut pos = 0;
    let first = parse_stroke_fast(text, &mut pos);
    assert_eq!(pos, 4);
    let second = parse_stroke_fast(text, &mut pos);
    assert_eq!(pos, 8);
    assert_eq!(first, 0x40 | 0x800 | 0x2_0000);
    // An `L` before the vowels is read on the left bank, which has none.
    assert_eq!(second, 0x200 | 0x800);
}

#[test]
fn parse_stroke_stops_at_end_of_buffer() {
    let mut pos = 0;
    assert_eq!(parse_stroke_fast(b"KPWHRE", &mut pos), 0x8F8);
    assert_eq!(pos, 6);
    assert_eq!(parse_stroke_fast(b"KPWHRE", &mut pos), 0);
    assert_eq!(pos, 6);
    let mut behind = 9;
    assert_eq!(parse_stroke_fast(b"KPWHRE", &mut behind), 0);
    assert_eq!(behind, 9);
}

#[test]
fn parse_stroke_of_every_key_in_steno_order() {
    let order = b"#STKPWHRAO*EUFRPBLGTSDZ";
    assert_eq!(chord(order), 0x7F_FFFF);
    for bit in 0..23 {
        let mut text = Vec::new();
        if bit >= 13 {
            text.push(b'-');
        }
        text.push(order[bit]);
        text.push(b'/');
        assert_eq!(chord(&text), 1 << bit, "key {}", bit);
    }
}

#[test]
fn parse_stroke_tells_the_banks_apart() {
    assert_eq!(chord(b"S/"), 1 << 1);
    assert_eq!(chord(b"-S/"), 1 << 20);
    assert_eq!(chord(b"SAS/"), (1 << 1) | (1 << 8) | (1 << 20));
    assert_eq!(chord(b"T*T/"), (1 << 2) | (1 << 10) | (1 << 19));
    assert_eq!(chord(b"PEP/"), (1 << 4) | (1 << 11) | (1 << 15));
    assert_eq!(chord(b"RUR/"), (1 << 7) | (1 << 12) | (1 << 14));
    // A key of the right bank alone is not read on the left bank.
    assert_eq!(chord(b"F/"), 0);
    assert_eq!(chord(b"Z/"), 0);
}

#[test]
fn parse_stroke_digits_set_the_number_bar() {
    assert_eq!(chord(b"1/"), 1 | (1 << 1));
    assert_eq!(chord(b"2/"), 1 | (1 << 2));
    assert_eq!(chord(b"3/"), 1 | (1 << 4));
    assert_eq!(chord(b"4/"), 1 | (1 << 6));
    assert_eq!(chord(b"5/"), 1 | (1 << 8));
    assert_eq!(chord(b"0/"), 1 | (1 << 9));
    assert_eq!(chord(b"6/"), 1 | (1 << 13));
    assert_eq!(chord(b"7/"), 1 | (1 << 15));
    assert_eq!(chord(b"8/"), 1 | (1 << 17));
    assert_eq!(chord(b"9/"), 1 | (1 << 19));
    assert_eq!(chord(b"#/"), 1);
}

#[test]
fn parse_stroke_folds_bytes_outside_the_table() {
    // 'b' and 'o' fold onto '"' and '/', and end a chord.
    let mut pos = 0;
    assert_eq!(parse_stroke_fast(b"KbP", &mut pos), 1 << 3);
    assert_eq!(pos, 2);
    pos = 0;
    assert_eq!(parse_stroke_fast(b"KoP", &mut pos), 1 << 3);
    assert_eq!(pos, 2);
    // 's' folds onto '3', a byte below ' ' onto one above '@'.
    assert_eq!(chord(b"s/"), 1 | (1 << 4));
    assert_eq!(chord(&[b'K', 0x0B, b'/']), (1 << 3) | (1 << 3));
    assert_eq!(chord(&[0x0B, b'/']), 1 << 3);
    assert_eq!(chord(&[0x80 + b'K', b'/']), 1 << 3);
}

#[test]
fn chord_zero_is_a_chord() {
    assert_eq!(chord(b"/"), 0);
    assert_eq!(packed(b"/"), vec![0, 0, 0]);
    assert_eq!(packed(b"//"), vec![0, 0, 0, 0, 0, 0]);
}

#[test]
fn table_has_two_banks() {
    assert_eq!(PARSE_STROKE_TABLE.len(), 128);
    for index in 64..128 {
        assert_ne!(PARSE_STROKE_TABLE[index] & (1 << 30), 0, "entry {}", index);
    }
    for index in 0..128 {
        assert_eq!(PARSE_STROKE_TABLE[index] & (1 << 23), 0, "entry {}", index);
        let stops = PARSE_STROKE_TABLE[index] >> 31 == 1;
        assert_eq!(stops, index % 64 == 2 || index % 64 == 15, "entry {}", index);
    }
}

#[test]
fn packed_strokes_are_three_bytes_a_chord() {
    assert_eq!(packed(b"KPWHRE"), vec![0xF8, 0x08, 0x00]);
    assert_eq!(packed(b"KPWHREPLGS"), vec![0xF8, 0x88, 0x16]);
    assert_eq!(
        packed(b"HEL/LOE"),
        vec![0x40, 0x08, 0x02, 0x00, 0x0A, 0x00]
    );
    assert_eq!(packed(b""), Vec::<u8>::new());
    assert_eq!(packed(b"A/"), vec![0x00, 0x01, 0x00]);
}

#[test]
fn packed_strokes_iterator_restarts_from_a_copy() {
    let mut iterator = ParseStrokesIterator::new(b"TPHEU/KPWHRE");
    assert_eq!(iterator.next(), Some(0x54));
    let copy = iterator;
    let mut first = Vec::new();
    while let Some(byte) = iterator.next() {
        first.push(byte);
    }
    let mut second = Vec::new();
    let mut again = copy;
    while let Some(byte) = again.next() {
        second.push(byte);
    }
    assert_eq!(first, second);
    assert_eq!(first.len(), 5);
    assert_eq!(iterator.next(), None);
}
