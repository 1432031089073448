use jsonmodem_py::encoder::{Encoder, Scalar, INDENT, SORT_KEYS};
use jsonmodem_py::traverse::{
    sorted_key_order, write_colon, Admission, Containers, Node, TraversalError, MAX_DEFAULT_DEPTH,
};

fn text(encoder: Encoder) -> String {
    String::from_utf8(encoder.into_bytes()).unwrap()
}

/// Writes `{"a": [1, 2], "b": []}` the way the native encoder drives its stack.
fn write_sample(option: i32) -> String {
    let mut encoder = Encoder::new(option, 0, false, 16);
    let mut stack = Containers::new();
    assert_eq!(stack.offer(&encoder, 100, Node::Dict), Ok(Admission::Open));
    stack.open(&mut encoder, 100, true).unwrap();
    stack.item(&mut encoder).unwrap();
    encoder.string("a").unwrap();
    write_colon(&mut encoder).unwrap();
    assert_eq!(stack.offer(&encoder, 200, Node::List), Ok(Admission::Open));
    stack.open(&mut encoder, 200, false).unwrap();
    for value in [1_i64, 2] {
        stack.item(&mut encoder).unwrap();
        encoder.scalar(Scalar::Integer(jsonmodem_py::integer::Integer::Signed(value))).unwrap();
    }
    stack.close(&mut encoder).unwrap();
    stack.item(&mut encoder).unwrap();
    encoder.string("b").unwrap();
    write_colon(&mut encoder).unwrap();
    encoder.scalar(Scalar::EmptyArray).unwrap();
    stack.close(&mut encoder).unwrap();
    assert_eq!(stack.depth(), 0);
    text(encoder)
}

#[test]
fn containers_write_separators_and_brackets() {
    assert_eq!(write_sample(0), "{\"a\":[1,2],\"b\":[]}");
}

#[test]
fn containers_indent_by_depth() {
    assert_eq!(write_sample(INDENT), "{\n  \"a\": [\n    1,\n    2\n  ],\n  \"b\": []\n}");
}

#[test]
fn empty_container_closes_without_a_line_break() {
    let mut encoder = Encoder::new(INDENT, 0, false, 16);
    let mut stack = Containers::new();
    stack.open(&mut encoder, 1, false).unwrap();
    stack.close(&mut encoder).unwrap();
    assert_eq!(text(encoder), "[]");
}

#[test]
fn cycles_and_depth_are_refused() {
    let mut encoder = Encoder::new(0, 0, false, 16);
    let mut stack = Containers::new();
    stack.open(&mut encoder, 7, false).unwrap();
    assert_eq!(stack.offer(&encoder, 7, Node::List), Err(TraversalError::CircularReference));
    assert_eq!(stack.offer(&encoder, 8, Node::Other), Ok(Admission::Fallback));
    let deep = Encoder::new(0, 253, false, 16);
    assert_eq!(stack.offer(&deep, 9, Node::Tuple), Err(TraversalError::RecursionLimit));
    assert_eq!(stack.offer(&deep, 9, Node::Other), Ok(Admission::Fallback));
    let fields = Encoder::new(0, 254, true, 16);
    let empty = Containers::new();
    assert_eq!(empty.offer(&fields, 9, Node::Dict), Ok(Admission::Open));
    assert_eq!(stack.offer(&fields, 9, Node::Dict), Err(TraversalError::RecursionLimit));
}

#[test]
fn callback_aware_limits() {
    let mut encoder = Encoder::new(0, 0, false, 16);
    let mut stack = Containers::new();
    for identity in 0..254 {
        assert_eq!(stack.offer_object(identity, false), Ok(()));
        stack.open(&mut encoder, identity, false).unwrap();
    }
    assert_eq!(stack.offer_object(1000, false), Err(TraversalError::RecursionLimit));
    assert_eq!(stack.offer_object(1000, true), Ok(()));
    assert_eq!(stack.offer_object(3, true), Err(TraversalError::RecursionLimit));
}

#[test]
fn default_callbacks_are_limited() {
    let mut stack = Containers::new();
    for _ in 0..MAX_DEFAULT_DEPTH {
        assert_eq!(stack.enter_default(), Ok(()));
    }
    assert_eq!(stack.enter_default(), Err(TraversalError::DefaultRecursion));
}

#[test]
fn sort_keys_applies_below_a_dataclass_root() {
    let encoder = Encoder::new(SORT_KEYS, 0, true, 16);
    let mut stack = Containers::new();
    assert!(!stack.sorts_keys(&encoder));
    let mut output = Encoder::new(SORT_KEYS, 0, true, 16);
    stack.open(&mut output, 1, true).unwrap();
    assert!(stack.sorts_keys(&encoder));
    assert!(!stack.sorts_keys(&Encoder::new(0, 0, false, 16)));
}

#[test]
fn keys_sort_by_bytes_then_position() {
    let keys: Vec<&[u8]> = vec![b"b", b"a", b"ab", b"", b"a", "é".as_bytes(), b"z"];
    assert_eq!(sorted_key_order(&keys), vec![3, 1, 4, 2, 0, 6, 5]);
    assert_eq!(sorted_key_order(&[]), Vec::<usize>::new());
}
