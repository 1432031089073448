use jsonmodem_py::stream::{borrowed_range, format_error_message, number_kind, Lifecycle, NumberKind, StateError};

#[test]
fn finish_ends_the_session() {
    let mut session = Lifecycle::new();
    assert_eq!(session.begin_feed(), Ok(()));
    assert!(!session.is_finished());
    assert_eq!(session.begin_finish(), Ok(()));
    session.complete_finish();
    assert!(session.is_finished());
    assert_eq!(session.begin_feed(), Err(StateError::ParserFinished));
    assert_eq!(session.begin_finish(), Err(StateError::FinishCalled));
    assert_eq!(StateError::FinishCalled.message(), "finish() has already been called");
}

#[test]
fn an_interrupted_finish_reports_a_finished_parser() {
    let mut session = Lifecycle::new();
    assert_eq!(session.begin_finish(), Ok(()));
    assert_eq!(session.begin_finish(), Err(StateError::ParserFinished));
    assert_eq!(session.begin_feed(), Err(StateError::ParserFinished));
    assert_eq!(StateError::ParserFinished.message(), "parser has already finished");
}

#[test]
fn invalid_character_messages_are_tagged() {
    assert_eq!(
        format_error_message(b"invalid character 'x'"),
        b"InvalidCharacter: invalid character 'x'".to_vec()
    );
    assert_eq!(format_error_message(b"unexpected end"), b"unexpected end".to_vec());
    assert_eq!(format_error_message(b"an invalid characte"), b"an invalid characte".to_vec());
}

#[test]
fn borrowed_fragments_are_located() {
    assert_eq!(borrowed_range(1000, 10, 1003, 4), Some((3, 7)));
    assert_eq!(borrowed_range(1000, 10, 1000, 10), Some((0, 10)));
    assert_eq!(borrowed_range(1000, 10, 999, 1), None);
    assert_eq!(borrowed_range(1000, 10, 1008, 3), None);
    assert_eq!(borrowed_range(1000, 10, usize::MAX, 2), None);
}

#[test]
fn numbers_become_the_narrowest_python_type() {
    assert_eq!(number_kind(b"1.5"), NumberKind::Float);
    assert_eq!(number_kind(b"1e3"), NumberKind::Float);
    assert_eq!(number_kind(b"-12"), NumberKind::Signed(-12));
    assert_eq!(number_kind(b"-9223372036854775808"), NumberKind::Signed(i64::MIN));
    assert_eq!(number_kind(b"9223372036854775808"), NumberKind::Unsigned(9223372036854775808));
    assert_eq!(number_kind(b"18446744073709551615"), NumberKind::Unsigned(u64::MAX));
    assert_eq!(number_kind(b"18446744073709551616"), NumberKind::Big);
    assert_eq!(number_kind(b"-9223372036854775809"), NumberKind::Big);
    assert_eq!(number_kind(b"123456789012345678901"), NumberKind::Big);
}
