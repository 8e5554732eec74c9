use query_engine::{
    expect_char, rewrite_entry, rewrite_string, skip_whitespace, transcode, ErrorKind,
};

#[test]
fn skip_whitespace_stops_at_the_first_other_byte() {
    let mut pos = 0;
    assert!(skip_whitespace(b" \t\r\n x ", &mut pos).is_ok());
    assert_eq!(pos, 5);
    assert!(skip_whitespace(b" \t\r\n x ", &mut pos).is_ok());
    assert_eq!(pos, 5);
    pos = 6;
    let error = skip_whitespace(b" \t\r\n x ", &mut pos).err().unwrap();
    assert_eq!(error.kind, ErrorKind::DataIncomplete);
    assert_eq!(pos, 7);
}

#[test]
fn skip_whitespace_fails_on_nothing() {
    let mut pos = 0;
    assert_eq!(
        skip_whitespace(b"", &mut pos).err().unwrap().kind,
        ErrorKind::DataIncomplete
    );
    assert_eq!(pos, 0);
    // Form feed and vertical tab are no whitespace here.
    assert!(skip_whitespace(&[0x0C], &mut pos).is_ok());
    assert!(skip_whitespace(&[0x0B], &mut pos).is_ok());
    assert_eq!(pos, 0);
}

#[test]
fn expect_char_consumes_the_byte_or_nothing() {
    let mut pos = 1;
    assert!(expect_char(b"a:b", &mut pos, b':').is_ok());
    assert_eq!(pos, 2);
    let error = expect_char(b"a:b", &mut pos, b':').err().unwrap();
    assert_eq!(error.kind, ErrorKind::UnexpectedByte);
    assert_eq!(pos, 2);
    pos = 3;
    let error = expect_char(b"a:b", &mut pos, b':').err().unwrap();
    assert_eq!(error.kind, ErrorKind::UnexpectedEnd);
    assert_eq!(pos, 3);
}

fn rewritten(text: &[u8], is_strokes: bool) -> Result<(Vec<u8>, usize), ErrorKind> {
    // One byte before the string, so that the write position may stay behind.
    let mut buffer = vec![b'{'];
    buffer.extend_from_slice(text);
    let mut read_pos = 1;
    let mut write_pos = 0;
    match rewrite_string(&mut buffer, &mut read_pos, &mut write_pos, is_strokes) {
        Ok(()) => {
            assert!(write_pos + 1 <= read_pos);
            Ok((buffer[..write_pos].to_vec(), read_pos))
        }
        Err(error) => Err(error.kind),
    }
}

#[test]
fn rewrite_string_writes_a_record() {
    assert_eq!(rewritten(b"\"hi\" ,", false), Ok((vec![4, 0, b'h', b'i'], 5)));
    assert_eq!(rewritten(b"\"\"", false), Ok((vec![2, 0], 3)));
    assert_eq!(
        rewritten(b"\"HEL/LOE\"", true),
        Ok((b"\x09\x00HEL/LOE".to_vec(), 10))
    );
}

#[test]
fn rewrite_string_unescapes_quote_and_backslash_only() {
    assert_eq!(rewritten(b"\"\\\"\"", false), Ok((vec![3, 0, b'"'], 5)));
    assert_eq!(rewritten(b"\"\\\\\"", false), Ok((vec![3, 0, b'\\'], 5)));
    assert_eq!(
        rewritten(b"\"a\\nb\"", false),
        Ok((vec![6, 0, b'a', b'\\', b'n', b'b'], 7))
    );
    assert_eq!(
        rewritten(b"\"\\u00e9\"", false),
        Ok((b"\x08\x00\\u00e9".to_vec(), 9))
    );
}

#[test]
fn rewrite_string_header_is_low_byte_first() {
    let mut text = vec![b'"'];
    text.resize(1 + 300, b'x');
    text.push(b'"');
    let (record, end) = rewritten(&text, false).unwrap();
    assert_eq!(end, 303);
    assert_eq!(record.len(), 302);
    assert_eq!(&record[..2], &[0x2E, 0x01]);
}

#[test]
fn rewrite_string_fails_as_documented() {
    assert_eq!(rewritten(b"hi\"", false), Err(ErrorKind::UnexpectedByte));
    assert_eq!(rewritten(b"", false), Err(ErrorKind::UnexpectedEnd));
    assert_eq!(rewritten(b"\"hi", false), Err(ErrorKind::UnterminatedString));
    assert_eq!(rewritten(b"\"hi\\", false), Err(ErrorKind::UnterminatedString));
    assert_eq!(rewritten(b"\"K\\\\P\"", true), Err(ErrorKind::EscapeInStrokes));
    assert_eq!(rewritten(b"\"K\\", true), Err(ErrorKind::EscapeInStrokes));
}

#[test]
fn rewrite_string_counts_strokes_in_stroke_strings_only() {
    let mut text = vec![b'"'];
    for _ in 0..1000 {
        text.push(b'/');
    }
    text.push(b'"');
    assert_eq!(rewritten(&text, true), Err(ErrorKind::TooManyStrokes));
    assert_eq!(rewritten(&text, false).unwrap().0.len(), 1002);
    text.remove(1);
    assert_eq!(rewritten(&text, true).unwrap().0.len(), 1001);
}

#[test]
fn rewrite_string_limits_the_record_to_sixteen_bits() {
    let mut text = vec![b'"'];
    text.resize(1 + 65533, b'x');
    text.push(b'"');
    let (record, _) = rewritten(&text, false).unwrap();
    assert_eq!(record.len(), 65535);
    assert_eq!(&record[..2], &[0xFF, 0xFF]);
    text.insert(1, b'x');
    assert_eq!(rewritten(&text, false), Err(ErrorKind::EntryTooLong));
}

#[test]
fn too_many_strokes_are_reported_before_too_long_a_record() {
    let mut text = vec![b'"'];
    for _ in 0..40000 {
        text.extend_from_slice(b"S/");
    }
    text.push(b'"');
    assert_eq!(rewritten(&text, true), Err(ErrorKind::TooManyStrokes));
    assert_eq!(rewritten(&text, false), Err(ErrorKind::EntryTooLong));
}

#[test]
fn rewrite_entry_writes_two_records() {
    let mut buffer = b"{ \"S\" : \"is\" }".to_vec();
    let mut read_pos = 1;
    let mut write_pos = 0;
    assert!(rewrite_entry(&mut buffer, &mut read_pos, &mut write_pos).is_ok());
    assert_eq!(read_pos, 12);
    assert_eq!(write_pos, 7);
    assert_eq!(&buffer[..7], &[3, 0, b'S', 4, 0, b'i', b's']);
    assert_eq!(&buffer[7..], b" \"is\" }");
}

#[test]
fn rewrite_entry_wants_a_colon() {
    let mut buffer = b"{\"S\",\"is\"}".to_vec();
    let mut read_pos = 1;
    let mut write_pos = 0;
    let error = rewrite_entry(&mut buffer, &mut read_pos, &mut write_pos).err().unwrap();
    assert_eq!(error.kind, ErrorKind::UnexpectedByte);
}

#[test]
fn transcode_writes_the_stream_in_place() {
    let mut buffer = b" {\"KPWHRE\":\"hi\",\n \"HEL/LOE\" : \"hel\\\"lo\"}  ".to_vec();
    let length = buffer.len();
    let written = transcode(&mut buffer).unwrap();
    assert_eq!(buffer.len(), length);
    assert_eq!(
        &buffer[..written],
        &b"\x08\x00KPWHRE\x04\x00hi\x09\x00HEL/LOE\x08\x00hel\"lo"[..]
    );
}

#[test]
fn transcode_of_the_shortest_dictionary() {
    let mut buffer = b"{\"\":\"\"}".to_vec();
    assert_eq!(transcode(&mut buffer).ok(), Some(4));
    assert_eq!(&buffer[..4], &[2, 0, 2, 0]);
}

#[test]
fn transcode_reports_the_first_error() {
    let kind = |text: &[u8]| transcode(&mut text.to_vec()).err().map(|error| error.kind);
    assert_eq!(kind(b"   "), Some(ErrorKind::NoData));
    assert_eq!(kind(b"x"), Some(ErrorKind::UnexpectedByte));
    assert_eq!(kind(b"{\"S\\\\\":\"unterminated"), Some(ErrorKind::EscapeInStrokes));
    assert_eq!(kind(b"{\"S\":\"unterminated"), Some(ErrorKind::UnterminatedString));
    assert_eq!(kind(b"{\"S\":\"is\" \"T\":\"it\"}"), Some(ErrorKind::UnexpectedByte));
    assert_eq!(kind(b"{\"S\":\"is\","), Some(ErrorKind::DataIncomplete));
}
