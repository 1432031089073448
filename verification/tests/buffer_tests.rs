use jsonmodem_py::buffer::{grow_capacity, starting_capacity, BufferError, Descriptor};

fn descriptor(len: isize, readonly: bool, null: bool) -> Descriptor {
    Descriptor { address: 1000, null, len, readonly }
}

#[test]
fn fixed_copy_rejects_wrong_width_and_writable_storage() {
    let bytes = descriptor(4, true, false);
    assert!(bytes.admits_copy(4));
    assert!(!bytes.admits_copy(1));
    assert!(!bytes.admits_copy(8));
    assert!(!bytes.admits_copy(0));
    assert!(!descriptor(3, true, false).admits_copy(3));
    assert!(!descriptor(4, false, false).admits_copy(4));
}

#[test]
fn fixed_copy_rejects_null_or_negative_descriptor_without_reading() {
    assert!(!descriptor(4, true, true).admits_copy(4));
    assert!(!descriptor(-1, true, false).admits_copy(4));
}

#[test]
fn lengths_and_snapshots() {
    assert_eq!(descriptor(-1, true, false).length(), Err(BufferError::NegativeLength));
    assert_eq!(descriptor(0, true, true).snapshot_length(), Ok(0));
    assert_eq!(descriptor(5, true, true).snapshot_length(), Err(BufferError::NullBuffer));
    assert_eq!(descriptor(5, false, false).snapshot_length(), Ok(5));
}

#[test]
fn borrows_must_lie_inside_the_owner() {
    let view = Descriptor { address: 1004, null: false, len: 4, readonly: true };
    assert_eq!(view.owner_range(1000, 8), Ok((4, 8)));
    assert_eq!(view.owner_range(1000, 7), Err(BufferError::ExceedsOwner));
    assert_eq!(view.owner_range(1005, 100), Err(BufferError::ExceedsOwner));
    assert_eq!(descriptor(0, true, true).owner_range(5000, 0), Ok((0, 0)));
}

#[test]
fn output_capacity_policy() {
    assert_eq!(starting_capacity(10, 1000), 256);
    assert_eq!(starting_capacity(10, 20), 20);
    assert_eq!(starting_capacity(300, 1000), 300);
    assert_eq!(grow_capacity(0, 0, 0, 1, 1 << 40), Some(8));
    assert_eq!(grow_capacity(100, 256, 256, 10, 1 << 40), Some(512));
    assert_eq!(grow_capacity(100, 256, 256, 1000, 1 << 40), Some(1100));
    assert_eq!(grow_capacity(100, 256, 4096, 10, 1 << 40), Some(4096));
    assert_eq!(grow_capacity(usize::MAX, 0, 0, 1, usize::MAX), None);
    assert_eq!(grow_capacity(100, 256, 256, 10, 500), None);
    assert_eq!(grow_capacity(1, usize::MAX / 2 + 1, 0, 1, usize::MAX), Some(usize::MAX));
}
