use jsonmodem_py::decode::{
    begin_document, end_document,
    admits_key, caches_key, char_position, input_text, releases_buffer, DecodeFailure, Decoder, Step,
};

#[test]
fn input_text_checks_utf8() {
    assert_eq!(input_text(b"[1]"), Some("[1]"));
    assert_eq!(input_text(&[0xff]), None);
    let mut long = "é".repeat(100).into_bytes();
    assert_eq!(input_text(&long).map(str::len), Some(200));
    long.push(0x80);
    assert_eq!(input_text(&long), None);
    let mut ascii = vec![b' '; 200];
    ascii[150] = 0xc0;
    assert_eq!(input_text(&ascii), None);
}

#[test]
fn error_positions_count_characters() {
    assert_eq!(char_position("aé b", 0), 0);
    assert_eq!(char_position("aé b", 3), 2);
    assert_eq!(char_position("aé b", 2), 2);
    assert_eq!(char_position("aé b", 100), 4);
}

#[test]
fn key_cache_policy() {
    assert!(caches_key(1024, 64));
    assert!(!caches_key(1023, 1));
    assert!(!caches_key(4096, 65));
    assert!(admits_key(511));
    assert!(!admits_key(512));
    assert!(releases_buffer(65537));
    assert!(!releases_buffer(65536));
}

fn run(input: &[u8]) -> Vec<Step> {
    let mut decoder = Decoder::new();
    let mut steps = Vec::new();
    let mut position = 0;
    loop {
        let peeked = input.get(position).copied();
        let step = decoder.step(peeked);
        steps.push(step);
        match step {
            Step::Done | Step::Fail(_) => return steps,
            Step::EnterArray | Step::EnterObject => {}
            _ => position += 1,
        }
    }
}

#[test]
fn steps_of_a_nested_document() {
    assert_eq!(
        run(b"[1,{},[]]"),
        vec![
            Step::BeginArray,
            Step::EnterArray,
            Step::ReadNumber,
            Step::AppendAndContinue,
            Step::BeginObject,
            Step::CloseEmpty,
            Step::AppendAndContinue,
            Step::BeginArray,
            Step::CloseEmpty,
            Step::AddAndClose,
            Step::Done,
        ]
    );
}

#[test]
fn steps_refuse_bad_separators_and_values() {
    assert_eq!(run(b"[1 2").last(), Some(&Step::Fail(DecodeFailure::ExpectedCommaOrBracket)));
    assert_eq!(run(b"{\"a\"1").last(), Some(&Step::Fail(DecodeFailure::ExpectedCommaOrBrace)));
    assert_eq!(run(b"x").last(), Some(&Step::Fail(DecodeFailure::ExpectedValue)));
    assert_eq!(run(b"").last(), Some(&Step::Fail(DecodeFailure::ExpectedValue)));
}

#[test]
fn nesting_is_limited() {
    let deep = vec![b'['; 1025];
    let steps = run(&deep);
    assert_eq!(steps.last(), Some(&Step::Fail(DecodeFailure::RecursionDepth)));
    assert_eq!(steps.iter().filter(|s| **s == Step::EnterArray).count(), 1024);
    let ok = vec![b'['; 1024];
    assert_eq!(run(&ok).last(), Some(&Step::Fail(DecodeFailure::ExpectedValue)));
}

#[test]
fn document_boundaries() {
    assert_eq!(begin_document(0), Err(DecodeFailure::EmptyDocument));
    assert_eq!(begin_document(1), Ok(()));
    assert_eq!(end_document(Some(b'x')), Err(DecodeFailure::TrailingContent));
    assert_eq!(end_document(None), Ok(()));
    assert_eq!(DecodeFailure::TrailingContent.message(), "unexpected content after document");
}
