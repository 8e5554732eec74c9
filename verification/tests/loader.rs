use query_engine::{
    find_strokes_internal, load_json_internal, query_internal, DataStructuresContainer, ErrorKind,
    VecContainer,
};

fn load(text: &[u8]) -> Result<VecContainer, ErrorKind> {
    let mut buffer = text.to_vec();
    load_json_internal::<VecContainer>(&mut buffer[..]).map_err(|error| error.kind)
}

fn strokes_for(container: &mut VecContainer, translation: &[u8]) -> Vec<Vec<u8>> {
    let results = query_internal(translation, container).unwrap();
    for result in results.iter() {
        assert_eq!(result.1, translation);
    }
    results.into_iter().map(|result| result.0).collect()
}

fn translations_for(container: &mut VecContainer, strokes: &[u8]) -> Vec<Vec<u8>> {
    let results = find_strokes_internal(strokes, container).unwrap();
    results.into_iter().map(|result| result.1).collect()
}

const KPWHRE: [u8; 3] = [0xF8, 0x08, 0x00];
const TPHEU: [u8; 3] = [0x54, 0x18, 0x00];
const HEL_LOE: [u8; 6] = [0x40, 0x08, 0x02, 0x00, 0x0A, 0x00];

#[test]
fn one_entry_is_found_both_ways() {
    let mut container = load(b"{\"KPWHRE\":\"hi\"}").unwrap();
    assert_eq!(strokes_for(&mut container, b"hi"), vec![KPWHRE.to_vec()]);
    assert_eq!(translations_for(&mut container, b"KPWHRE"), vec![b"hi".to_vec()]);
    let results = find_strokes_internal(b"KPWHRE", &mut container).unwrap();
    assert_eq!(results, vec![(KPWHRE.to_vec(), b"hi".to_vec())]);
}

#[test]
fn two_entries_are_found_each() {
    let mut container = load(b"{\"KPWHRE\":\"hi\",\"HEL/LOE\":\"hello\"}").unwrap();
    assert_eq!(strokes_for(&mut container, b"hi"), vec![KPWHRE.to_vec()]);
    assert_eq!(strokes_for(&mut container, b"hello"), vec![HEL_LOE.to_vec()]);
    assert_eq!(translations_for(&mut container, b"HEL/LOE"), vec![b"hello".to_vec()]);
    assert_eq!(translations_for(&mut container, b"KPWHRE"), vec![b"hi".to_vec()]);
}

#[test]
fn one_translation_of_two_strokes_yields_both() {
    let mut container = load(b"{\"KPWHRE\":\"hi\",\"TPHEU\":\"hi\"}").unwrap();
    let found = strokes_for(&mut container, b"hi");
    assert_eq!(found, vec![KPWHRE.to_vec(), TPHEU.to_vec()]);
    assert_eq!(translations_for(&mut container, b"TPHEU"), vec![b"hi".to_vec()]);
    assert_eq!(translations_for(&mut container, b"KPWHRE"), vec![b"hi".to_vec()]);
}

#[test]
fn one_stroke_with_two_translations_yields_both() {
    let mut container = load(b"{\"KPWHRE\":\"hi\",\"KPWHRE\":\"hey\"}").unwrap();
    assert_eq!(
        translations_for(&mut container, b"KPWHRE"),
        vec![b"hi".to_vec(), b"hey".to_vec()]
    );
    assert_eq!(strokes_for(&mut container, b"hey"), vec![KPWHRE.to_vec()]);
}

#[test]
fn escaped_quote_is_one_byte_of_the_translation() {
    let mut container = load(b"{\"KPWHRE\":\"\\\"\"}").unwrap();
    assert_eq!(strokes_for(&mut container, b"\""), vec![KPWHRE.to_vec()]);
    assert_eq!(translations_for(&mut container, b"KPWHRE"), vec![b"\"".to_vec()]);
    assert_eq!(strokes_for(&mut container, b"\\\""), Vec::<Vec<u8>>::new());
}

#[test]
fn escaped_backslash_is_one_byte_and_other_escapes_stay() {
    let mut container = load(b"{\"KPWHRE\":\"a\\\\b\",\"TPHEU\":\"a\\nb\"}").unwrap();
    assert_eq!(translations_for(&mut container, b"KPWHRE"), vec![b"a\\b".to_vec()]);
    assert_eq!(translations_for(&mut container, b"TPHEU"), vec![b"a\\nb".to_vec()]);
}

#[test]
fn escape_in_strokes_is_refused() {
    assert_eq!(load(b"{\"KP\\\\WHRE\":\"hi\"}").err(), Some(ErrorKind::EscapeInStrokes));
    assert_eq!(load(b"{\"KP\\\"WHRE\":\"hi\"}").err(), Some(ErrorKind::EscapeInStrokes));
}

fn with_strokes(count: usize) -> Vec<u8> {
    let mut text = b"{\"".to_vec();
    for index in 0..count {
        if index > 0 {
            text.push(b'/');
        }
        text.push(b'S');
    }
    text.extend_from_slice(b"\":\"long\"}");
    text
}

#[test]
fn more_than_a_thousand_strokes_are_refused() {
    assert_eq!(load(&with_strokes(1001)).err(), Some(ErrorKind::TooManyStrokes));
}

#[test]
fn a_thousand_strokes_are_accepted() {
    let text = with_strokes(1000);
    let mut container = load(&text).unwrap();
    let found = strokes_for(&mut container, b"long");
    assert_eq!(found.len(), 1);
    assert_eq!(found[0].len(), 3000);
    assert!(found[0].chunks(3).all(|chord| chord == [0x02, 0x00, 0x00]));
}

#[test]
fn malformed_framing_is_refused() {
    assert_eq!(load(b"").err(), Some(ErrorKind::NoData));
    assert_eq!(load(b" \t\r\n").err(), Some(ErrorKind::NoData));
    assert_eq!(load(b"[\"KPWHRE\"]").err(), Some(ErrorKind::UnexpectedByte));
    assert_eq!(load(b"{").err(), Some(ErrorKind::DataIncomplete));
    assert_eq!(load(b"{ ").err(), Some(ErrorKind::DataIncomplete));
    assert_eq!(load(b"{}").err(), Some(ErrorKind::UnexpectedByte));
    assert_eq!(load(b"{\"KPWHRE\"").err(), Some(ErrorKind::DataIncomplete));
    assert_eq!(load(b"{\"KPWHRE\" \"hi\"}").err(), Some(ErrorKind::UnexpectedByte));
    assert_eq!(load(b"{\"KPWHRE\":").err(), Some(ErrorKind::DataIncomplete));
    assert_eq!(load(b"{\"KPWHRE\":hi}").err(), Some(ErrorKind::UnexpectedByte));
    assert_eq!(load(b"{\"KPWHRE\":\"hi\"").err(), Some(ErrorKind::DataIncomplete));
    assert_eq!(load(b"{\"KPWHRE\":\"hi\";").err(), Some(ErrorKind::UnexpectedByte));
    assert_eq!(load(b"{\"KPWHRE\":\"hi\",}").err(), Some(ErrorKind::UnexpectedByte));
    assert_eq!(load(b"{\"KPWHRE\":\"hi\",").err(), Some(ErrorKind::DataIncomplete));
}

#[test]
fn strings_that_do_not_end_are_refused() {
    assert_eq!(load(b"{\"KPWHRE").err(), Some(ErrorKind::UnterminatedString));
    assert_eq!(load(b"{\"KPWHRE\":\"hi").err(), Some(ErrorKind::UnterminatedString));
    assert_eq!(load(b"{\"KPWHRE\":\"hi\\").err(), Some(ErrorKind::UnterminatedString));
    assert_eq!(load(b"{\"KPWHRE\":\"hi\\\"").err(), Some(ErrorKind::UnterminatedString));
}

fn with_translation_of(length: usize) -> Vec<u8> {
    let mut text = b"{\"KPWHRE\":\"".to_vec();
    text.resize(text.len() + length, b'x');
    text.extend_from_slice(b"\"}");
    text
}

#[test]
fn translation_that_does_not_fit_a_record_is_refused() {
    assert_eq!(load(&with_translation_of(65534)).err(), Some(ErrorKind::EntryTooLong));
    assert_eq!(load(&with_translation_of(70000)).err(), Some(ErrorKind::EntryTooLong));
}

#[test]
fn translation_that_does_not_fit_an_entry_is_refused() {
    // It fits a record, whose header counts two bytes beside it, and not an
    // entry, whose header counts six.
    assert_eq!(load(&with_translation_of(65533)).err(), Some(ErrorKind::EntryTooLong));
    assert_eq!(load(&with_translation_of(65529)).err(), Some(ErrorKind::EntryTooLong));
}

#[test]
fn longest_translation_is_accepted() {
    let mut container = load(&with_translation_of(65528)).unwrap();
    let found = translations_for(&mut container, b"KPWHRE");
    assert_eq!(found.len(), 1);
    assert_eq!(found[0].len(), 65528);
    assert_eq!(container.get_u8_buffer().len(), 9 + 65534);
}

#[test]
fn whitespace_is_allowed_around_every_token() {
    let mut container =
        load(b" \n{\t\"KPWHRE\" :\r\n \"hi\" ,\n\"TPHEU\"\t:\"knee\" \n} trailing").unwrap();
    assert_eq!(strokes_for(&mut container, b"hi"), vec![KPWHRE.to_vec()]);
    assert_eq!(strokes_for(&mut container, b"knee"), vec![TPHEU.to_vec()]);
}

#[test]
fn empty_strings_are_entries() {
    let mut container = load(b"{\"\":\"\"}").unwrap();
    assert_eq!(strokes_for(&mut container, b""), vec![Vec::<u8>::new()]);
    assert_eq!(translations_for(&mut container, b""), vec![Vec::<u8>::new()]);
}

#[test]
fn queries_without_an_entry_yield_nothing() {
    let mut container = load(b"{\"KPWHRE\":\"hi\",\"TPHEU\":\"knee\"}").unwrap();
    assert_eq!(strokes_for(&mut container, b"hello"), Vec::<Vec<u8>>::new());
    assert_eq!(translations_for(&mut container, b"HEL/LOE"), Vec::<Vec<u8>>::new());
    assert_eq!(translations_for(&mut container, b"KPWHRE/TPHEU"), Vec::<Vec<u8>>::new());
}

#[test]
fn stroke_query_of_more_than_thirty_two_strokes_is_refused() {
    let mut container = load(b"{\"KPWHRE\":\"hi\"}").unwrap();
    let mut query = Vec::new();
    for index in 0..33 {
        if index > 0 {
            query.push(b'/');
        }
        query.push(b'S');
    }
    let error = find_strokes_internal(&query, &mut container).err().unwrap();
    assert_eq!(error.kind, ErrorKind::QueryTooLong);
    query.truncate(2 * 32 - 1);
    assert_eq!(find_strokes_internal(&query, &mut container).unwrap(), vec![]);
}

#[test]
fn a_query_leaves_the_image_as_it_is() {
    let mut container = load(b"{\"KPWHRE\":\"hi\",\"TPHEU\":\"hi\"}").unwrap();
    let words = container.get_usize_buffer().to_vec();
    let bytes = container.get_u8_buffer().to_vec();
    strokes_for(&mut container, b"hi");
    translations_for(&mut container, b"TPHEU");
    assert_eq!(container.get_usize_buffer(), &words[..]);
    assert_eq!(container.get_u8_buffer(), &bytes[..]);
}

#[test]
fn loading_twice_gives_the_same_image() {
    let text = b"{\"KPWHRE\":\"hi\",\"TPHEU\":\"hi\",\"HEL/LOE\":\"hello\",\"S\":\"is\"}";
    let first = load(text).unwrap();
    let second = load(text).unwrap();
    assert_eq!(first.get_usize_buffer(), second.get_usize_buffer());
    assert_eq!(first.get_u8_buffer(), second.get_u8_buffer());
}

#[test]
fn image_of_one_entry_is_laid_out_as_documented() {
    let container = load(b"{\"KPWHRE\":\"hi\"}").unwrap();
    // One bucket for each table; the strokes data is one entry of 9 bytes.
    assert_eq!(container.get_usize_buffer(), &[1, 9, 0, 0][..]);
    assert_eq!(
        container.get_u8_buffer(),
        &[
            9, 0, 0xF8, 0x08, 0x00, 0, 0, 0, 0, // strokes entry, linked to offset 0
            8, 0, b'h', b'i', 0, 0, 0, 0, // strings entry, linked to offset 0
        ][..]
    );
}
