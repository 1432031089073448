use jsonmodem_py::list_spare::{append_live, append_spare, dangling, ListStorage};

fn storage(items: u64, slots: usize, size: u64, length: isize) -> ListStorage {
    ListStorage::new(items, vec![0; slots], size, length)
}

const ITEMS: u64 = 0x1000;
const SIZE: u64 = 0x2000;

#[test]
fn nonpositive_capacity_does_not_require_storage() {
    for capacity in [0, -1, isize::MIN] {
        let mut list = storage(dangling(), 0, dangling(), 0);
        assert!(!append_spare(&mut list, capacity, dangling()));
    }
}

#[test]
fn null_or_unaligned_size_requires_no_storage() {
    let mut list = storage(dangling(), 0, 0, 0);
    assert!(!append_spare(&mut list, 1, dangling()));
    for index in 0..8 {
        let size = SIZE + index;
        if size % 8 != 0 {
            let mut list = storage(dangling(), 0, size, 0);
            assert!(!append_spare(&mut list, 1, dangling()));
        }
    }
}

#[test]
fn negative_full_and_overfull_lengths_leave_metadata_unchanged() {
    for (length, capacity) in [(-1, 1), (1, 1), (2, 1), (isize::MAX, isize::MAX)] {
        let mut list = storage(dangling(), 0, SIZE, length);
        assert!(!append_spare(&mut list, capacity, dangling()));
        assert_eq!(list.length(), length);
    }
}

#[test]
fn null_or_unaligned_items_leave_size_unchanged() {
    let mut list = storage(0, 1, SIZE, 0);
    assert!(!append_spare(&mut list, 1, dangling()));
    for index in 0..8 {
        let items = ITEMS + index;
        if items % 8 != 0 {
            let mut list = storage(items, 1, SIZE, 0);
            assert!(!append_spare(&mut list, 1, dangling()));
            assert_eq!(list.length(), 0);
        }
    }
}

#[test]
fn excessive_extent_requires_no_item_storage() {
    for length in [isize::MAX - 1, isize::MAX / 8] {
        let mut list = storage(dangling(), 0, SIZE, length);
        assert!(!append_spare(&mut list, isize::MAX, dangling()));
        assert_eq!(list.length(), length);
    }
}

#[test]
fn null_value_does_not_initialize_the_slot() {
    let mut list = storage(ITEMS, 1, SIZE, 0);
    assert!(!append_spare(&mut list, 1, 0));
    assert_eq!(list.length(), 0);
}

#[test]
fn writes_uninitialized_first_and_last_slots_without_reading_them() {
    let owners = [0x11_u64 * 8, 0x22 * 8, 0x33 * 8, 0x44 * 8];
    let mut list = storage(ITEMS, 4, SIZE, 0);
    for index in 0..4 {
        assert!(append_spare(&mut list, 4, owners[index]));
        assert_eq!(list.length(), index as isize + 1);
        for (position, owner) in owners.iter().enumerate().take(index + 1) {
            assert_eq!(list.slots()[position], *owner);
        }
    }
    assert!(!append_spare(&mut list, 4, owners[0]));
    assert_eq!(list.length(), 4);
}

#[test]
fn overwrites_stale_spare_pointer_without_accessing_its_freed_owner() {
    let mut list = ListStorage::new(ITEMS, vec![0x9100], SIZE, 0);
    let value = 0x7200;
    assert!(append_spare(&mut list, 1, value));
    assert_eq!(list.length(), 1);
    assert_eq!(list.slots()[0], value);
}

#[test]
fn repeated_pointer_keeps_all_prior_slots_unchanged() {
    let value = 0x6300;
    let mut list = storage(ITEMS, 8, SIZE, 0);
    for _ in 0..8 {
        assert!(append_spare(&mut list, 8, value));
    }
    assert!(list.slots().iter().all(|slot| *slot == value));
}

#[test]
fn value_can_point_to_the_object_containing_size() {
    let header = SIZE;
    let mut list = storage(ITEMS, 1, header, 0);
    assert!(append_spare(&mut list, 1, header));
    assert_eq!(list.slots()[0], header);
    assert_eq!(list.length(), 1);
}

#[test]
fn empty_and_sorting_lists_retain_the_owner() {
    for allocated in [0, -1] {
        let mut list = storage(0, 0, SIZE, 0);
        assert!(!append_live(&mut list, allocated, 0x4100));
        assert_eq!(list.length(), 0);
    }
}

#[test]
fn full_storage_keeps_its_prefix_and_new_owner() {
    let existing = 0x1100;
    let mut list = ListStorage::new(ITEMS, vec![existing], SIZE, 1);
    assert!(!append_live(&mut list, 1, 0x2200));
    assert_eq!(list.length(), 1);
    assert_eq!(list.slots()[0], existing);
}

#[test]
fn first_and_last_spare_slots_are_initialized() {
    let owners = [0x1100_u64, 0x2200, 0x3300, 0x4400];
    let mut list = storage(ITEMS, 4, SIZE, 0);
    for (index, owner) in owners.iter().enumerate() {
        assert!(append_live(&mut list, 4, *owner));
        assert_eq!(list.length(), index as isize + 1);
        assert_eq!(&list.slots()[..index + 1], &owners[..index + 1]);
    }
}

#[test]
fn stale_spare_pointer_is_overwritten_without_reading_it() {
    let mut list = ListStorage::new(ITEMS, vec![0x9100], SIZE, 0);
    assert!(append_live(&mut list, 1, 0x7200));
    assert_eq!(list.slots()[0], 0x7200);
}

#[test]
fn repeated_pointer_owns_one_reference_per_slot() {
    let mut list = storage(ITEMS, 8, SIZE, 0);
    for count in 1..=8 {
        assert!(append_live(&mut list, 8, 0x6300));
        assert_eq!(list.length(), count);
    }
}

#[test]
fn replacement_storage_is_used_after_clear() {
    let mut first = storage(ITEMS, 2, SIZE, 0);
    assert!(append_live(&mut first, 2, 0x1400));
    let mut replacement = storage(ITEMS + 0x100, 4, SIZE, 0);
    assert!(append_live(&mut replacement, 4, 0x2800));
    assert_eq!(replacement.length(), 1);
    assert_eq!(replacement.slots()[0], 0x2800);
}

#[test]
fn value_may_point_to_the_size_owner() {
    let mut list = storage(ITEMS, 1, SIZE, 0);
    assert!(append_live(&mut list, 1, SIZE));
    assert_eq!(list.length(), 1);
    assert_eq!(list.slots()[0], SIZE);
}
