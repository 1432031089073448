use jsonmodem_py::encoder::{
    dump_long_string, dump_root_string, option_bits_supported, Encoder, KeyScalar, Scalar,
    ScalarError, APPEND_NEWLINE, INDENT, NON_STR_KEYS, STRICT_INTEGER,
};
use jsonmodem_py::integer::Integer;

fn written(encoder: Encoder) -> String {
    String::from_utf8(encoder.into_bytes()).unwrap()
}

#[test]
fn strings_are_escaped() {
    let mut encoder = Encoder::new(0, 0, false, 4);
    encoder.string("a\"b\\c\n\u{1}\u{7f}é").unwrap();
    assert_eq!(written(encoder), "\"a\\\"b\\\\c\\n\\u0001\u{7f}é\"");
}

#[test]
fn long_strings_with_many_escapes() {
    let text = "\t".repeat(40) + &"x".repeat(40);
    let mut encoder = Encoder::new(0, 0, false, 4);
    encoder.string(&text).unwrap();
    assert_eq!(written(encoder), format!("\"{}{}\"", "\\t".repeat(40), "x".repeat(40)));
}

#[test]
fn scalars() {
    let mut encoder = Encoder::new(0, 0, false, 4);
    encoder.scalar(Scalar::Null).unwrap();
    encoder.scalar(Scalar::Boolean(false)).unwrap();
    encoder.scalar(Scalar::Integer(Integer::Unsigned(u64::MAX))).unwrap();
    encoder.scalar(Scalar::Float(Some(b"1.5"))).unwrap();
    encoder.scalar(Scalar::Float(None)).unwrap();
    encoder.scalar(Scalar::EmptyArray).unwrap();
    encoder.scalar(Scalar::Fragment(b"{}")).unwrap();
    assert_eq!(written(encoder), "nullfalse184467440737095516151.5null[]{}");
}

#[test]
fn strict_integers_stop_at_53_bits() {
    let mut encoder = Encoder::new(STRICT_INTEGER, 0, false, 4);
    assert_eq!(encoder.integer(Integer::Signed(9_007_199_254_740_991)), Ok(()));
    assert_eq!(encoder.integer(Integer::Signed(-9_007_199_254_740_992)), Err(ScalarError::IntegerExceeds53Bits));
    assert_eq!(encoder.integer(Integer::Unsigned(9_007_199_254_740_992)), Err(ScalarError::IntegerExceeds53Bits));
    assert_eq!(written(encoder), "9007199254740991");
}

#[test]
fn newlines_indent_by_depth_and_base() {
    let mut encoder = Encoder::new(INDENT, 1, false, 4);
    encoder.newline(2).unwrap();
    assert_eq!(written(encoder), "\n      ");
    let mut plain = Encoder::new(0, 1, false, 4);
    plain.newline(2).unwrap();
    assert_eq!(written(plain), "");
}

#[test]
fn repeated_keys_reuse_their_encoding() {
    let mut encoder = Encoder::new(0, 0, false, 2048);
    encoder.extend(&[b' '; 1024]).unwrap();
    encoder.key(7, "name").unwrap();
    encoder.key(7, "name").unwrap();
    encoder.key(8, "other").unwrap();
    assert_eq!(&written(encoder)[1024..], "\"name\"\"name\"\"other\"");
}

#[test]
fn non_string_keys_need_the_option() {
    let mut encoder = Encoder::new(NON_STR_KEYS, 0, false, 4);
    assert_eq!(encoder.key_any(KeyScalar::Integer(Integer::Signed(-3))), Ok(true));
    assert_eq!(encoder.key_any(KeyScalar::Boolean(true)), Ok(true));
    assert_eq!(encoder.key_any(KeyScalar::Other), Ok(false));
    assert_eq!(written(encoder), "\"-3\"\"true\"");
    let mut strict = Encoder::new(0, 0, false, 4);
    assert_eq!(strict.key_any(KeyScalar::Null), Ok(false));
    assert_eq!(strict.key_any(KeyScalar::Text(1, "k")), Ok(true));
    assert_eq!(written(strict), "\"k\"");
}

#[test]
fn root_strings_short_and_long() {
    assert_eq!(dump_root_string("hi", APPEND_NEWLINE), b"\"hi\"\n".to_vec());
    let long = "a".repeat(300) + "\"";
    let expected = format!("\"{}\\\"\"", "a".repeat(300));
    assert_eq!(dump_root_string(&long, 0), expected.clone().into_bytes());
    assert_eq!(dump_long_string(&long, 0), expected.into_bytes());
}

#[test]
fn option_bits() {
    assert!(option_bits_supported(4095));
    assert!(!option_bits_supported(4096));
    assert!(!option_bits_supported(-1));
}

#[test]
fn checked_reserve_refuses_capacity_beyond_isize() {
    let mut encoder = Encoder::new(0, 0, false, 4).into_checked();
    encoder.push(b'1').unwrap();
    assert!(encoder.reserve(isize::MAX as usize).is_err());
    assert!(encoder.reserve(usize::MAX).is_err());
    assert!(encoder.reserve(16).is_ok());
    assert_eq!(written(encoder), "1");
}

#[test]
fn finish_appends_a_newline_only_when_asked() {
    let mut plain = Encoder::new(0, 0, false, 4);
    plain.scalar(Scalar::Null).unwrap();
    plain.finish().unwrap();
    assert_eq!(written(plain), "null");
    let mut newline = Encoder::new(APPEND_NEWLINE, 0, false, 4);
    newline.scalar(Scalar::Null).unwrap();
    newline.finish().unwrap();
    assert_eq!(written(newline), "null\n");
}
