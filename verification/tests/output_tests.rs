use jsonmodem_py::encoder::{Encoder, INDENT};

/// A writer that reports growth failures, as serialization output does.
fn checked(option: i32, capacity: usize) -> Encoder {
    Encoder::new(option, 0, false, capacity).into_checked()
}

#[test]
fn converting_vec_preserves_cached_output_ranges() {
    let mut output = checked(0, 1024);
    output.extend(b"first,second,").unwrap();
    output.duplicate(6, 12).unwrap();
    assert_eq!(output.into_bytes(), b"first,second,second".to_vec());
}

#[test]
fn growth_and_duplicates_preserve_initialized_bytes() {
    let mut output = checked(0, 1);
    let mut expected = Vec::new();
    for index in 0..2000 {
        let bytes = index.to_string();
        output.extend(bytes.as_bytes()).unwrap();
        expected.extend_from_slice(bytes.as_bytes());
        output.push(b',').unwrap();
        expected.push(b',');
        if index % 7 == 6 {
            output.duplicate(0, 4).unwrap();
            expected.extend_from_within(0..4);
        }
    }
    assert_eq!(output.into_bytes(), expected);
}

#[test]
fn padding_initializes_only_the_published_contents() {
    let mut output = checked(INDENT, 4096);
    output.extend(b"[").unwrap();
    output.newline(1).unwrap();
    output.extend(b"null\n]").unwrap();
    assert_eq!(output.into_bytes(), b"[\n  null\n]".to_vec());
}

#[test]
fn impossible_reservation_leaves_current_contents_owned() {
    let mut output = checked(0, 8);
    output.extend(b"current").unwrap();
    assert!(output.reserve(usize::MAX).is_err());
    assert_eq!(output.into_bytes(), b"current".to_vec());
}

#[test]
fn empty_and_single_byte_results_are_finished_before_publication() {
    let empty = checked(0, 0).into_bytes();
    let reserved = checked(0, 256).into_bytes();
    let mut output = checked(0, 1);
    output.push(b'7').unwrap();
    assert_eq!(empty, b"".to_vec());
    assert_eq!(reserved, b"".to_vec());
    assert_eq!(output.into_bytes(), b"7".to_vec());
}
