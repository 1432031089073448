use jsonmodem_py::dense_entry::{read_entry, EntryLookup, KeyTable};

fn address(value: &u64) -> u64 {
    std::ptr::from_ref(value) as usize as u64
}

/// Model the dense header: kind 1, the entry count and the index width.
fn dense(table: &mut KeyTable, entries: isize, log2_index_bytes: u8) {
    table.dense(entries, log2_index_bytes);
}

/// Write the key and value addresses of one entry.
fn entry(table: &mut KeyTable, log2_index_bytes: u8, position: usize, key: &u64, value: &u64) {
    table.entry(log2_index_bytes, position, address(key), address(value));
}

fn check_entry(actual: EntryLookup, key: &u64, value: &u64) {
    assert_eq!(
        actual,
        EntryLookup::Entry {
            key: address(key),
            value: address(value),
        }
    );
}

#[test]
fn empty_and_negative_states_require_no_storage() {
    let table = KeyTable::new(8, 0);
    let dangling = 8_u64;
    for keys in [0, dangling] {
        for used in [0, -1, isize::MIN] {
            assert_eq!(read_entry(&table, keys, used, 0), EntryLookup::Fallback);
        }
        for position in [-1, isize::MIN] {
            assert_eq!(read_entry(&table, keys, 1, position), EntryLookup::Fallback);
        }
    }
    assert_eq!(read_entry(&table, 0, 1, 0), EntryLookup::Fallback);
}

#[test]
fn header_alignment_is_checked_before_fields() {
    let table = KeyTable::new(8, 0);
    for offset in 1..8 {
        let unaligned = table.pointer() + offset;
        assert_eq!(read_entry(&table, unaligned, 1, 0), EntryLookup::Fallback);
    }
}

#[test]
fn other_kinds_require_only_the_kind_byte() {
    for kind in [0_u8, 2, 3, 255] {
        let mut table = KeyTable::new(11, 0);
        table.write(10, &[kind]);
        assert_eq!(read_entry(&table, table.pointer(), 1, 0), EntryLookup::Fallback);
    }
}

#[test]
fn deleted_or_mismatched_counts_require_no_index_bytes() {
    for (entries, used) in [(0, 1), (-1, 1), (2, 1), (3, 2), (isize::MAX, 1)] {
        let mut table = KeyTable::new(32, 0);
        table.write(10, &[1]);
        table.write_word(24, entries as u64);
        assert_eq!(read_entry(&table, table.pointer(), used, 0), EntryLookup::Fallback);
    }
}

#[test]
fn end_requires_neither_indices_nor_entries() {
    for entries in [1_isize, 2, 5] {
        let mut table = KeyTable::new(32, 0);
        table.write(10, &[1]);
        table.write_word(24, entries as u64);
        for position in [entries, entries + 1, isize::MAX] {
            assert_eq!(
                read_entry(&table, table.pointer(), entries, position),
                EntryLookup::End
            );
        }
    }
}

#[test]
fn first_and_last_entries_preserve_pointers_at_each_index_width() {
    let first_key = Box::new(11_u64);
    let first_value = Box::new(12_u64);
    let last_key = Box::new(21_u64);
    let last_value = Box::new(22_u64);
    for log2_index_bytes in [3_u8, 9, 18] {
        let indices = 1_usize << log2_index_bytes;
        for prefix in [0, 8, 64] {
            for suffix in [0, 9] {
                let mut table = KeyTable::new(prefix + 32 + indices + 5 * 16 + suffix, prefix);
                dense(&mut table, 5, log2_index_bytes);
                entry(&mut table, log2_index_bytes, 0, &first_key, &first_value);
                entry(&mut table, log2_index_bytes, 4, &last_key, &last_value);
                check_entry(read_entry(&table, table.pointer(), 5, 0), &first_key, &first_value);
                check_entry(read_entry(&table, table.pointer(), 5, 4), &last_key, &last_value);
            }
        }
    }
}

#[test]
fn index_size_shift_overflow_requires_no_entry_storage() {
    for log2_index_bytes in [64_u8, 65, 255] {
        let mut table = KeyTable::new(32, 0);
        dense(&mut table, 1, log2_index_bytes);
        assert_eq!(read_entry(&table, table.pointer(), 1, 0), EntryLookup::Fallback);
    }
}

#[test]
fn entry_offset_overflow_requires_no_entry_storage() {
    let positions = [
        (3, isize::MAX - 1),
        (3, (usize::MAX / 16) as isize),
        (4, ((usize::MAX - 32) / 16) as isize),
        (3, ((usize::MAX - 32) / 16) as isize),
    ];
    for (log2_index_bytes, position) in positions {
        let mut table = KeyTable::new(32, 0);
        let entries = position + 1;
        dense(&mut table, entries, log2_index_bytes);
        assert_eq!(
            read_entry(&table, table.pointer(), entries, position),
            EntryLookup::Fallback
        );
    }
}

#[test]
fn entry_extent_must_fit_isize_before_access() {
    for (log2_index_bytes, position) in [
        (63, 0_isize),
        (3, ((isize::MAX as usize - 40) / 16) as isize),
    ] {
        let mut table = KeyTable::new(32, 0);
        let entries = position + 1;
        dense(&mut table, entries, log2_index_bytes);
        assert_eq!(
            read_entry(&table, table.pointer(), entries, position),
            EntryLookup::Fallback
        );
    }
}

#[test]
fn entry_alignment_is_checked_before_access() {
    for log2_index_bytes in [0_u8, 1, 2] {
        let mut table = KeyTable::new(32, 0);
        dense(&mut table, 1, log2_index_bytes);
        assert_eq!(read_entry(&table, table.pointer(), 1, 0), EntryLookup::Fallback);
    }
}

#[test]
fn null_key_does_not_require_value_storage() {
    let mut table = KeyTable::new(48, 0);
    dense(&mut table, 1, 3);
    table.write_word(40, 0);
    assert_eq!(read_entry(&table, table.pointer(), 1, 0), EntryLookup::Fallback);
}

#[test]
fn null_value_selects_fallback() {
    let key = Box::new(31_u64);
    let mut table = KeyTable::new(56, 0);
    dense(&mut table, 1, 3);
    table.write_word(40, address(&key));
    table.write_word(48, 0);
    assert_eq!(read_entry(&table, table.pointer(), 1, 0), EntryLookup::Fallback);
}

#[test]
fn changed_headers_are_read_again() {
    let key = Box::new(41_u64);
    let old_value = Box::new(42_u64);
    let new_value = Box::new(43_u64);
    let mut table = KeyTable::new(56, 0);
    dense(&mut table, 1, 3);
    entry(&mut table, 3, 0, &key, &old_value);
    check_entry(read_entry(&table, table.pointer(), 1, 0), &key, &old_value);
    table.write(10, &[0]);
    assert_eq!(read_entry(&table, table.pointer(), 1, 0), EntryLookup::Fallback);
    table.write(10, &[1]);
    table.write_word(24, 2);
    assert_eq!(read_entry(&table, table.pointer(), 1, 0), EntryLookup::Fallback);
    table.write_word(24, 1);
    entry(&mut table, 3, 0, &key, &new_value);
    check_entry(read_entry(&table, table.pointer(), 1, 0), &key, &new_value);
}

#[test]
fn replacement_allocation_preserves_copied_pointer_provenance() {
    let old_key = Box::new(51_u64);
    let old_value = Box::new(52_u64);
    let new_key = Box::new(61_u64);
    let new_value = Box::new(62_u64);
    let mut old_table = KeyTable::new(72, 0);
    dense(&mut old_table, 2, 3);
    entry(&mut old_table, 3, 0, &old_key, &old_value);
    let copied = read_entry(&old_table, old_table.pointer(), 2, 0);
    let mut new_table = KeyTable::new(72, 0);
    dense(&mut new_table, 2, 3);
    entry(&mut new_table, 3, 1, &new_key, &new_value);
    drop(old_table);
    check_entry(copied, &old_key, &old_value);
    check_entry(read_entry(&new_table, new_table.pointer(), 2, 1), &new_key, &new_value);
}
