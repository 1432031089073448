use jsonmodem_py::escape::{mask, plain_string_prefix, portable};
use jsonmodem_py::validate::has_invalid_container_ending;

#[test]
fn every_byte_at_every_position() {
    for position in 0..16 {
        for byte in 0..=u8::MAX {
            let mut block = [b'x'; 16];
            block[position] = byte;
            let expected = if byte < 0x20 || matches!(byte, b'"' | b'\\') {
                1 << position
            } else {
                0
            };
            assert_eq!(mask(&block), expected, "byte {byte}, position {position}");
            assert_eq!(portable(&block), expected);
        }
    }
}

#[test]
fn all_high_bytes_are_plain() {
    for byte in 0x80..=u8::MAX {
        assert_eq!(mask(&[byte; 16]), 0);
    }
}

#[test]
fn adjacent_and_separated_flags_are_exact() {
    for first in 0..16 {
        for second in 0..16 {
            let mut block = [0xff; 16];
            block[first] = b'"';
            block[second] = b'\n';
            assert_eq!(mask(&block), (1 << first) | (1 << second));
        }
    }
    assert_eq!(mask(&[0; 16]), u16::MAX);
    assert_eq!(mask(b"\n.\n.\n.\n.\n.\n.\n.\n."), 0x5555);
}

#[test]
fn unaligned_blocks_and_mixed_bytes() {
    let mut storage = [0_u8; 33];
    for start in 0..16 {
        for rotation in 0..16 {
            for (index, value) in storage.iter_mut().enumerate() {
                *value = [b'\n', b'x', 0xff, b'\\', 0x7f, 0x80, b'"', 0x1f][(index + rotation) % 8];
            }
            let block = storage[start..start + 16].try_into().unwrap();
            assert_eq!(mask(block), portable(block));
        }
    }
}

#[test]
fn plain_prefix_stops_at_first_escape() {
    assert_eq!(plain_string_prefix(b""), 0);
    assert_eq!(plain_string_prefix(b"abc"), 3);
    assert_eq!(plain_string_prefix(b"ab\"c"), 2);
    assert_eq!(plain_string_prefix(b"\\"), 0);
    assert_eq!(plain_string_prefix("é\u{1f}".as_bytes()), 2);
}

#[test]
fn short_documents_are_never_rejected_early() {
    assert!(!has_invalid_container_ending("[1,2"));
    assert!(!has_invalid_container_ending(&format!("[{}", " ".repeat(1000))));
}

#[test]
fn long_documents_compare_first_and_last_bytes() {
    let body = "1,".repeat(600);
    assert!(!has_invalid_container_ending(&format!("[{body}1]")));
    assert!(has_invalid_container_ending(&format!("[{body}1}}")));
    assert!(has_invalid_container_ending(&format!("  {{{body}1]  \n")));
    assert!(!has_invalid_container_ending(&format!(" {{{body}1}}\t")));
    // A scalar document has no container ending to check.
    assert!(!has_invalid_container_ending(&format!("\"{body}\"")));
    // Only the first 64 bytes are searched for the opening byte.
    assert!(!has_invalid_container_ending(&format!("{}[{body}1}}", " ".repeat(64))));
    // Only the last 64 bytes are searched for the closing byte.
    assert!(!has_invalid_container_ending(&format!("[{body}1}}{}", " ".repeat(64))));
}
