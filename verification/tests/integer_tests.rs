use jsonmodem_py::integer::{read_compact, read_integer, Integer, IntegerAllocation};

fn check(bytes: usize, tag: usize, digits: &[u32], expected: Option<Integer>) {
    assert_eq!(IntegerAllocation::new(bytes, tag, digits).read(), expected);
    assert_eq!(read_integer(true, tag, digits), expected);
}

#[test]
fn zero_needs_neither_initialized_nor_readable_digit_storage() {
    for tag in [1, 5] {
        check(28, tag, &[], Some(Integer::Signed(0)));
        check(24, tag, &[], Some(Integer::Signed(0)));
    }
}

#[test]
fn one_digit_ends_at_byte_28() {
    for flag in [0, 4] {
        for magnitude in [1_u32, 257, (1 << 30) - 1] {
            check(
                28,
                8 | flag,
                &[magnitude],
                Some(Integer::Signed(i64::from(magnitude))),
            );
            check(
                28,
                10 | flag,
                &[magnitude],
                Some(Integer::Signed(-i64::from(magnitude))),
            );
        }
    }
}

#[test]
fn two_digits_end_at_byte_32() {
    for flag in [0, 4] {
        for (digits, expected) in [
            ([0, 1], 1_073_741_824_i64),
            ([1, 1], 1_073_741_825),
            ([(1 << 30) - 1, 1], 2_147_483_647),
            ([0, 1 << 23], 9_007_199_254_740_992),
            ([1, 1 << 23], 9_007_199_254_740_993),
            ([(1 << 30) - 1, (1 << 30) - 1], 1_152_921_504_606_846_975),
        ] {
            check(32, 16 | flag, &digits, Some(Integer::Signed(expected)));
            check(32, 18 | flag, &digits, Some(Integer::Signed(-expected)));
        }
    }
}

#[test]
fn three_digits_end_at_byte_36() {
    let mask = (1 << 30) - 1;
    for flag in [0, 4] {
        check(
            36,
            24 | flag,
            &[0, 0, 1],
            Some(Integer::Signed(1_152_921_504_606_846_976)),
        );
        check(
            36,
            26 | flag,
            &[0, 0, 1],
            Some(Integer::Signed(-1_152_921_504_606_846_976)),
        );
        check(
            36,
            24 | flag,
            &[mask, mask, 7],
            Some(Integer::Signed(i64::MAX)),
        );
        check(
            36,
            26 | flag,
            &[mask, mask, 7],
            Some(Integer::Signed(-i64::MAX)),
        );
        check(
            36,
            24 | flag,
            &[0, 0, 8],
            Some(Integer::Unsigned(9_223_372_036_854_775_808)),
        );
        check(36, 26 | flag, &[0, 0, 8], Some(Integer::Signed(i64::MIN)));
        check(
            36,
            24 | flag,
            &[1, 0, 8],
            Some(Integer::Unsigned(9_223_372_036_854_775_809)),
        );
        check(
            36,
            24 | flag,
            &[mask, mask, 15],
            Some(Integer::Unsigned(u64::MAX)),
        );
    }
}

#[test]
fn negative_overflow_selects_fallback() {
    for flag in [0, 4] {
        for digits in [
            [1, 0, 8],
            [0, 1, 8],
            [0, 0, 9],
            [(1 << 30) - 1, (1 << 30) - 1, 15],
        ] {
            check(36, 26 | flag, &digits, None);
        }
    }
}

#[test]
fn third_digit_is_bounded_before_shifting() {
    for sign in [0, 2] {
        for high in [16, 17, 255, 1 << 29, (1 << 30) - 1] {
            check(36, 24 | sign, &[0, 0, high], None);
            check(36, 24 | sign, &[(1 << 30) - 1, (1 << 30) - 1, high], None);
        }
    }
}

#[test]
fn unsupported_tags_require_only_the_tag() {
    for tag in [
        0,
        2,
        3,
        4,
        6,
        7,
        9,
        11,
        13,
        15,
        17,
        19,
        25,
        27,
        32,
        34,
        40,
        42,
        usize::MAX,
    ] {
        check(24, tag, &[], None);
    }
}

#[test]
fn integer_tests_unsupported_layout_requires_no_storage() {
    assert_eq!(read_integer(false, 8, &[]), None);
    assert_eq!(read_integer(false, 0, &[]), None);
}

fn read(tag: usize, digit: Option<u32>) -> Option<i64> {
    if let Some(digit) = digit {
        assert_eq!(tag >> 3, 1);
        assert!(matches!(tag & 3, 0 | 2));
        assert!((1..1 << 30).contains(&digit));
    }
    let digits: Vec<u32> = digit.into_iter().collect();
    read_compact(true, tag, &digits)
}

#[test]
fn zero_requires_no_digit_storage() {
    for tag in [1, 5] {
        assert_eq!(read(tag, None), Some(0));
    }
}

#[test]
fn one_digit_ends_at_byte_twelve() {
    for flag in [0, 4] {
        for magnitude in [1, 257, (1 << 30) - 1] {
            assert_eq!(read(8 | flag, Some(magnitude)), Some(i64::from(magnitude)));
            assert_eq!(
                read(10 | flag, Some(magnitude)),
                Some(-i64::from(magnitude))
            );
        }
    }
}

#[test]
fn wider_tags_require_only_the_tag() {
    for count in [2, 3, 4, 1024] {
        for flags in [0, 2, 4, 6] {
            assert_eq!(read((count << 3) | flags, None), None);
        }
    }
}

#[test]
fn compact_int_tests_unsupported_layout_requires_no_storage() {
    assert_eq!(read_compact(false, 8, &[]), None);
    assert_eq!(read_compact(false, 0, &[]), None);
}
