//! Appending one object pointer into the unused capacity of list storage.
//!
//! The storage is modeled: item slots at an address, and a length cell at
//! another address. Object pointers are addresses; a slot beyond the length
//! owns nothing, whatever it holds, and is written without being read.

use vstd::prelude::*;

verus! {

/// Size of one pointer slot.
pub const POINTER_BYTES: usize = 8;

/// An aligned, non-null address for pointer-sized data that refers to no
/// storage.
pub fn dangling() -> (address: u64)
    ensures
        address == POINTER_BYTES,
{
    POINTER_BYTES as u64
}

/// Modeled list metadata and item storage.
pub struct ListStorage {
    items: u64,
    slots: Vec<u64>,
    size: u64,
    length: isize,
}

impl ListStorage {
    /// Address of the item storage; 0 is null.
    pub closed spec fn items_address(&self) -> u64 {
        self.items
    }

    /// The writable pointer slots at the item address.
    pub closed spec fn slot_values(&self) -> Seq<u64> {
        self.slots@
    }

    /// Address of the length cell; 0 is null.
    pub closed spec fn size_address(&self) -> u64 {
        self.size
    }

    /// The value of the length cell.
    pub closed spec fn len_value(&self) -> isize {
        self.length
    }

    /// Storage with `slots` at `items` and a length cell at `size`.
    pub fn new(items: u64, slots: Vec<u64>, size: u64, length: isize) -> (storage: Self)
        ensures
            storage.items_address() == items,
            storage.slot_values() == slots@,
            storage.size_address() == size,
            storage.len_value() == length,
    {
        ListStorage { items, slots, size, length }
    }

    /// The current length.
    pub fn length(&self) -> (length: isize)
        ensures
            length == self.len_value(),
    {
        self.length
    }

    /// The slot contents.
    pub fn slots(&self) -> (slots: &[u64])
        ensures
            slots@ == self.slot_values(),
    {
        self.slots.as_slice()
    }
}

/// Whether `append_spare` admits the next slot: positive capacity, a
/// non-null aligned length cell holding a length below the capacity,
/// non-null aligned items whose byte extent after the new slot fits
/// `isize::MAX`, and a non-null value.
pub open spec fn spare_admits(storage: ListStorage, allocated: isize, value: u64) -> bool {
    &&& allocated > 0
    &&& storage.size_address() != 0
    &&& storage.size_address() % 8 == 0
    &&& 0 <= storage.len_value() < allocated
    &&& storage.items_address() != 0
    &&& storage.items_address() % 8 == 0
    &&& (storage.len_value() + 1) * POINTER_BYTES <= isize::MAX
    &&& value != 0
}

/// Write `value` into the first unused slot and publish the new length, or
/// return false without changing storage when no usable spare slot exists.
pub fn append_spare(storage: &mut ListStorage, allocated: isize, value: u64) -> (appended: bool)
    requires
        spare_admits(*old(storage), allocated, value) ==> old(storage).len_value() < old(
            storage,
        ).slot_values().len(),
    ensures
        appended == spare_admits(*old(storage), allocated, value),
        final(storage).items_address() == old(storage).items_address(),
        final(storage).size_address() == old(storage).size_address(),
        appended ==> final(storage).len_value() == old(storage).len_value() + 1
            && final(storage).slot_values() == old(storage).slot_values().update(
            old(storage).len_value() as int,
            value,
        ),
        !appended ==> final(storage).len_value() == old(storage).len_value()
            && final(storage).slot_values() == old(storage).slot_values(),
{
    if allocated <= 0 || storage.size == 0 || storage.size % 8 != 0 {
        return false;
    }
    let length = storage.length;
    if length < 0 || length >= allocated || storage.items == 0 || storage.items % 8 != 0 {
        return false;
    }
    let extent = match ((length as usize) + 1).checked_mul(POINTER_BYTES) {
        Some(extent) => extent,
        None => {
            return false;
        },
    };
    if extent > isize::MAX as usize || value == 0 {
        return false;
    }
    // The slot is written, never read; the length is published after it.
    storage.slots.set(length as usize, value);
    storage.length = length + 1;
    true
}

/// Append using the guarantees of a live list: a nonnegative length, and
/// storage for every counted slot.
///
/// Full storage, and the sorting state whose capacity is -1, are left
/// unchanged.
pub fn append_live(storage: &mut ListStorage, allocated: isize, value: u64) -> (appended: bool)
    requires
        old(storage).len_value() >= 0,
        allocated > old(storage).len_value() ==> old(storage).len_value() < old(
            storage,
        ).slot_values().len(),
    ensures
        appended == (allocated > old(storage).len_value()),
        final(storage).items_address() == old(storage).items_address(),
        final(storage).size_address() == old(storage).size_address(),
        appended ==> final(storage).len_value() == old(storage).len_value() + 1
            && final(storage).slot_values() == old(storage).slot_values().update(
            old(storage).len_value() as int,
            value,
        ),
        !appended ==> final(storage).len_value() == old(storage).len_value()
            && final(storage).slot_values() == old(storage).slot_values(),
{
    let length = storage.length;
    if allocated > length {
        storage.slots.set(length as usize, value);
        storage.length = length + 1;
        true
    } else {
        false
    }
}

} // verus!
