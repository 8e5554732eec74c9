use query_engine::{ErrorKind, InternalError};

const KINDS: [ErrorKind; 10] = [
    ErrorKind::NoData,
    ErrorKind::DataIncomplete,
    ErrorKind::UnexpectedByte,
    ErrorKind::UnexpectedEnd,
    ErrorKind::UnterminatedString,
    ErrorKind::EscapeInStrokes,
    ErrorKind::TooManyStrokes,
    ErrorKind::EntryTooLong,
    ErrorKind::ImageTooLarge,
    ErrorKind::QueryTooLong,
];

#[test]
fn error_holds_its_kind() {
    for kind in KINDS {
        assert_eq!(InternalError::new(kind).kind, kind);
        assert_eq!(InternalError::new(kind), InternalError { kind });
    }
}

#[test]
fn parser_errors_share_their_message() {
    let message =
        "Sorry, we couldn't load your dictionary because we don't understand its formatting.";
    for kind in &KINDS[..6] {
        assert_eq!(InternalError::new(*kind).message(), message);
    }
    for kind in &KINDS[6..9] {
        assert_eq!(
            InternalError::new(*kind).message(),
            "I'm sorry, but we can't handle your dictionary."
        );
    }
    assert_eq!(InternalError::new(ErrorKind::QueryTooLong).message(), "parse strokes error");
}

#[test]
fn details_tell_the_errors_apart() {
    let details = |kind| InternalError::new(kind).details();
    assert_eq!(details(ErrorKind::NoData), "Parser error: no data found");
    assert_eq!(details(ErrorKind::DataIncomplete), "Parser error: data incomplete");
    assert_eq!(details(ErrorKind::UnexpectedByte), "Parser error: expected '$', but got '$'");
    assert_eq!(
        details(ErrorKind::UnexpectedEnd),
        "Parser error: expected '$', but hit the end of data"
    );
    assert_eq!(
        details(ErrorKind::UnterminatedString),
        "Parser error: data ended in the middle of string"
    );
    assert_eq!(
        details(ErrorKind::EscapeInStrokes),
        "Parser error: escape sequence found in stroke definition"
    );
    assert!(details(ErrorKind::TooManyStrokes).contains("more than a thousand strokes"));
    assert!(details(ErrorKind::EntryTooLong).contains("really reaaallly long entry"));
    assert!(details(ErrorKind::ImageTooLarge).contains("too large"));
    assert_eq!(details(ErrorKind::QueryTooLong), "strokes don't fit in provided buffer");
    for (index, kind) in KINDS.iter().enumerate() {
        for other in &KINDS[index + 1..] {
            assert_ne!(details(*kind), details(*other));
        }
    }
}
