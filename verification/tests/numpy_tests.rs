use jsonmodem_py::numpy::{
    decode_scalar, numeric_root_option, scalar_kind, scalar_type_name, write_scalar, ScalarKind, ScalarValue,
    check_snapshot, date_prefix, item_format, numpy_dumps, parse_unit, two_digits, write_datetime,
    write_layout, DateUnit, DayPrefix, ItemFormat, NumpyError, UnitName,
};

fn no_floats(_bits: u64, _size: usize) -> Vec<u8> {
    panic!("no float items expected")
}

fn dumps(data: &[u8], shape: &[usize], kind: &str, itemsize: usize, unit: &str, option: i32) -> Result<String, NumpyError> {
    numpy_dumps(data, shape, kind.as_bytes(), itemsize, unit.as_bytes(), option, 0, no_floats)
        .map(|bytes| String::from_utf8(bytes).unwrap())
}

fn datetime(value: i64, unit: &str, option: i32) -> Result<String, NumpyError> {
    let mut output = Vec::new();
    let mut cache = DayPrefix::new();
    write_datetime(&mut output, value, parse_unit(unit.as_bytes()), option, &mut cache)
        .map(|()| String::from_utf8(output).unwrap())
}

fn i32_bytes(values: &[i32]) -> Vec<u8> {
    values.iter().flat_map(|v| v.to_le_bytes()).collect()
}

#[test]
fn units_are_read_from_their_codes() {
    assert_eq!(parse_unit(b"D"), DateUnit::Days);
    assert_eq!(parse_unit(b"ms"), DateUnit::Milliseconds);
    assert_eq!(parse_unit(b"ns"), DateUnit::Nanoseconds);
    assert_eq!(parse_unit(b"ps"), DateUnit::Unsupported(UnitName::Picoseconds));
    assert_eq!(parse_unit(b"as"), DateUnit::Unsupported(UnitName::Attoseconds));
    assert_eq!(parse_unit(b""), DateUnit::Unsupported(UnitName::Generic));
    assert_eq!(UnitName::Femtoseconds.name(), "femtoseconds");
}

#[test]
fn two_digits_pads_with_zero() {
    assert_eq!(two_digits(7), *b"07");
    assert_eq!(two_digits(42), *b"42");
}

#[test]
fn date_prefix_rejects_years_beyond_four_digits() {
    assert_eq!(date_prefix(2024, 2, 9), Ok(*b"2024-02-09"));
    assert_eq!(date_prefix(5, 12, 31), Ok(*b"0005-12-31"));
    assert_eq!(date_prefix(10000, 1, 1), Err(NumpyError::InvalidDatetime));
    assert_eq!(date_prefix(-1, 1, 1), Err(NumpyError::InvalidDatetime));
}

#[test]
fn datetimes_in_each_unit() {
    assert_eq!(datetime(0, "D", 0).unwrap(), "\"1970-01-01T00:00:00\"");
    assert_eq!(datetime(19000, "D", 0).unwrap(), "\"2022-01-08T00:00:00\"");
    assert_eq!(datetime(1, "W", 0).unwrap(), "\"1970-01-08T00:00:00\"");
    assert_eq!(datetime(25, "h", 0).unwrap(), "\"1970-01-02T01:00:00\"");
    assert_eq!(datetime(61, "m", 0).unwrap(), "\"1970-01-01T01:01:00\"");
    assert_eq!(datetime(1, "s", 2).unwrap(), "\"1970-01-01T00:00:01+00:00\"");
    assert_eq!(datetime(1, "s", 2 | 128).unwrap(), "\"1970-01-01T00:00:01Z\"");
    assert_eq!(datetime(1500, "ms", 0).unwrap(), "\"1970-01-01T00:00:01.500000\"");
    assert_eq!(datetime(1_500_000, "us", 8).unwrap(), "\"1970-01-01T00:00:01\"");
    assert_eq!(datetime(-1, "ns", 0).unwrap(), "\"1969-12-31T23:59:59.999999\"");
    assert_eq!(datetime(13, "M", 0).unwrap(), "\"1971-02-01T00:00:00\"");
    assert_eq!(datetime(-1, "M", 0).unwrap(), "\"1969-12-01T00:00:00\"");
    assert_eq!(datetime(30, "Y", 0).unwrap(), "\"2000-01-01T00:00:00\"");
}

#[test]
fn datetimes_out_of_range_or_unit_are_refused() {
    assert_eq!(datetime(8030, "Y", 0), Err(NumpyError::InvalidDatetime));
    assert_eq!(datetime(-1971, "Y", 0), Err(NumpyError::InvalidDatetime));
    assert_eq!(datetime(i64::MAX, "D", 0), Err(NumpyError::InvalidDatetime));
    assert_eq!(datetime(3_000_000, "D", 0), Err(NumpyError::InvalidDatetime));
    assert_eq!(datetime(1, "ps", 0), Err(NumpyError::UnsupportedUnit(UnitName::Picoseconds)));
    assert_eq!(datetime(1, "generic", 0), Err(NumpyError::UnsupportedUnit(UnitName::Generic)));
}

#[test]
fn repeated_days_reuse_the_prefix() {
    let mut cache = DayPrefix::new();
    assert_eq!(cache.get(0), Ok(*b"1970-01-01"));
    assert_eq!(cache.get(0), Ok(*b"1970-01-01"));
    assert_eq!(cache.get(1), Ok(*b"1970-01-02"));
    assert_eq!(cache.get(i64::from(i32::MAX) + 1), Err(NumpyError::InvalidDatetime));
}

#[test]
fn snapshot_metadata_checks() {
    assert_eq!(check_snapshot(16, &[2, 2], 4, 0), Ok(4));
    assert_eq!(check_snapshot(8, &[], 8, 0), Ok(1));
    assert_eq!(check_snapshot(8, &[3], 4, 0), Err(NumpyError::LengthMismatch));
    assert_eq!(check_snapshot(0, &[1; 65], 4, 0), Err(NumpyError::InvalidMetadata));
    assert_eq!(check_snapshot(3, &[1], 3, 0), Err(NumpyError::InvalidMetadata));
    assert_eq!(check_snapshot(4, &[1], 4, 255), Err(NumpyError::InvalidMetadata));
    assert_eq!(check_snapshot(0, &[usize::MAX, 2], 1, 0), Err(NumpyError::ShapeTooLarge));
    assert_eq!(check_snapshot(0, &[usize::MAX, 2, 0], 1, 0), Err(NumpyError::ShapeTooLarge));
    assert_eq!(check_snapshot(usize::MAX, &[usize::MAX], 2, 0), Err(NumpyError::LengthMismatch));
}

#[test]
fn item_formats_by_kind_and_size() {
    assert_eq!(item_format(b"b", 1), ItemFormat::Boolean);
    assert_eq!(item_format(b"b", 2), ItemFormat::Unsupported);
    assert_eq!(item_format(b"i", 8), ItemFormat::Signed);
    assert_eq!(item_format(b"u", 2), ItemFormat::Unsigned);
    assert_eq!(item_format(b"f", 1), ItemFormat::Unsupported);
    assert_eq!(item_format(b"f", 2), ItemFormat::Float);
    assert_eq!(item_format(b"M", 8), ItemFormat::Datetime);
    assert_eq!(item_format(b"M", 4), ItemFormat::Unsupported);
    assert_eq!(item_format(b"ii", 4), ItemFormat::Unsupported);
}

#[test]
fn integer_matrix_compact_and_indented() {
    let data = i32_bytes(&[1, -2, 3, 4]);
    assert_eq!(dumps(&data, &[2, 2], "i", 4, "", 0).unwrap(), "[[1,-2],[3,4]]");
    assert_eq!(
        dumps(&data, &[2, 2], "i", 4, "", 1).unwrap(),
        "[\n  [\n    1,\n    -2\n  ],\n  [\n    3,\n    4\n  ]\n]"
    );
    let indented = numpy_dumps(&data, &[4], b"i", 4, b"", 1, 2, no_floats).unwrap();
    assert_eq!(String::from_utf8(indented).unwrap(), "[\n      1,\n      -2,\n      3,\n      4\n    ]");
}

#[test]
fn integers_of_each_size() {
    assert_eq!(dumps(&[255], &[], "u", 1, "", 0).unwrap(), "255");
    assert_eq!(dumps(&[255], &[], "i", 1, "", 0).unwrap(), "-1");
    assert_eq!(dumps(&[0x00, 0x80], &[1], "i", 2, "", 0).unwrap(), "[-32768]");
    assert_eq!(dumps(&u64::MAX.to_le_bytes(), &[1], "u", 8, "", 0).unwrap(), "[18446744073709551615]");
    assert_eq!(dumps(&i64::MIN.to_le_bytes(), &[1], "i", 8, "", 0).unwrap(), "[-9223372036854775808]");
}

#[test]
fn booleans_are_true_only_for_one() {
    assert_eq!(dumps(&[1, 0, 2], &[3], "b", 1, "", 0).unwrap(), "[true,false,false]");
}

#[test]
fn empty_arrays_need_no_supported_kind() {
    assert_eq!(dumps(&[], &[0], "x", 4, "", 0).unwrap(), "[]");
    assert_eq!(dumps(&[], &[2, 0], "x", 4, "", 0).unwrap(), "[[],[]]");
    assert_eq!(dumps(&[], &[2, 0], "i", 4, "", 1).unwrap(), "[\n  [],\n  []\n]");
}

#[test]
fn snapshot_errors() {
    assert_eq!(dumps(&[0; 8], &[1], "c", 8, "", 0), Err(NumpyError::UnsupportedDatatype));
    assert_eq!(dumps(&[0; 8], &[3], "i", 4, "", 0), Err(NumpyError::LengthMismatch));
    assert_eq!(dumps(&[0; 8], &[1], "M", 8, "ps", 0), Err(NumpyError::UnsupportedUnit(UnitName::Picoseconds)));
}

#[test]
fn datetime_arrays_stop_at_the_first_bad_item() {
    let mut data = Vec::new();
    data.extend_from_slice(&0_i64.to_le_bytes());
    data.extend_from_slice(&1_i64.to_le_bytes());
    assert_eq!(
        dumps(&data, &[2], "M", 8, "D", 0).unwrap(),
        "[\"1970-01-01T00:00:00\",\"1970-01-02T00:00:00\"]"
    );
    data.extend_from_slice(&i64::MAX.to_le_bytes());
    assert_eq!(dumps(&data, &[3], "M", 8, "D", 0), Err(NumpyError::InvalidDatetime));
}

#[test]
fn float_items_come_from_the_formatter() {
    let data: Vec<u8> = [1.5_f64, -0.25].iter().flat_map(|v| v.to_le_bytes()).collect();
    let out = numpy_dumps(&data, &[2], b"f", 8, b"", 0, 0, |bits: u64, size: usize| {
        assert_eq!(size, 8);
        format!("{}", f64::from_bits(bits)).into_bytes()
    })
    .unwrap();
    assert_eq!(String::from_utf8(out).unwrap(), "[1.5,-0.25]");
}

#[test]
fn layout_of_prepared_items() {
    let items: Vec<Vec<u8>> = ["a", "b", "c", "d", "e", "f"].iter().map(|s| s.as_bytes().to_vec()).collect();
    assert_eq!(String::from_utf8(write_layout(&items, &[2, 3], 0, 0)).unwrap(), "[[a,b,c],[d,e,f]]");
    assert_eq!(String::from_utf8(write_layout(&items, &[3, 2], 0, 0)).unwrap(), "[[a,b],[c,d],[e,f]]");
    assert_eq!(String::from_utf8(write_layout(&items[..1], &[], 0, 0)).unwrap(), "a");
}

#[test]
fn numeric_root_options() {
    assert!(numeric_root_option(16));
    assert!(numeric_root_option(16 | 1024));
    assert!(!numeric_root_option(1024));
    assert!(!numeric_root_option(16 | 1));
}

#[test]
fn scalars_decode_by_kind() {
    assert_eq!(decode_scalar(ScalarKind::Bool, &[1]), ScalarValue::Bool(true));
    assert_eq!(decode_scalar(ScalarKind::Bool, &[2]), ScalarValue::Bool(false));
    assert_eq!(decode_scalar(ScalarKind::I16, &(-300_i16).to_le_bytes()), ScalarValue::Signed(-300));
    assert_eq!(decode_scalar(ScalarKind::U32, &u32::MAX.to_le_bytes()), ScalarValue::Unsigned(4294967295));
    assert_eq!(decode_scalar(ScalarKind::F64, &1.5_f64.to_le_bytes()), ScalarValue::Float64(1.5_f64.to_bits()));
    assert_eq!(ScalarKind::F16.width(), 2);
    let mut out = Vec::new();
    assert!(write_scalar(&mut out, ScalarValue::Signed(-7)));
    assert!(write_scalar(&mut out, ScalarValue::Bool(false)));
    assert!(!write_scalar(&mut out, ScalarValue::Float32(0)));
    assert_eq!(out, b"-7false".to_vec());
}

#[test]
fn scalar_kinds_follow_dtype_kind_and_width() {
    assert_eq!(scalar_kind(b"b", 1), Some(ScalarKind::Bool));
    assert_eq!(scalar_kind(b"i", 2), Some(ScalarKind::I16));
    assert_eq!(scalar_kind(b"u", 8), Some(ScalarKind::U64));
    assert_eq!(scalar_kind(b"f", 2), Some(ScalarKind::F16));
    assert_eq!(scalar_kind(b"f", 1), None);
    assert_eq!(scalar_kind(b"b", 2), None);
    assert_eq!(scalar_kind(b"M", 8), None);
    assert_eq!(scalar_kind(b"ii", 4), None);
}

#[test]
fn scalar_type_names_are_the_native_ones() {
    for name in ["bool", "bool_", "int8", "int64", "uint32", "longlong", "ulonglong", "float16", "float64"] {
        assert!(scalar_type_name(name.as_bytes()), "{name}");
    }
    for name in ["", "int", "float128", "complex64", "datetime64", "Bool"] {
        assert!(!scalar_type_name(name.as_bytes()), "{name}");
    }
}
