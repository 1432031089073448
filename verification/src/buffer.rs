//! Checks on a contiguous buffer export before its bytes are read: fixed
//! numeric copies, snapshots, and borrows from an immutable bytes owner.

use vstd::prelude::*;

verus! {

/// Why an export's bytes cannot be taken.
#[derive(Clone, Copy, Debug, PartialEq, Eq, Structural)]
pub enum BufferError {
    /// The descriptor reports a negative length.
    NegativeLength,
    /// A nonempty descriptor has no storage.
    NullBuffer,
    /// The export's bytes do not lie inside its bytes owner.
    ExceedsOwner,
}

/// The fields of a buffer descriptor that the checks read.
#[derive(Clone, Copy, Debug, PartialEq, Eq, Structural)]
pub struct Descriptor {
    /// Address of the first byte.
    pub address: usize,
    /// Whether the storage pointer is null.
    pub null: bool,
    /// Length in bytes, as reported.
    pub len: isize,
    /// Whether the exporter marks the storage read-only.
    pub readonly: bool,
}

/// Whether a fixed copy of `width` bytes may read the export: the width is
/// 1, 2, 4 or 8 and equals the length, and the storage is read-only and
/// present.
pub open spec fn copy_admitted(descriptor: Descriptor, width: int) -> bool {
    &&& (width == 1 || width == 2 || width == 4 || width == 8)
    &&& descriptor.len == width
    &&& descriptor.readonly
    &&& !descriptor.null
}

/// The byte range an export occupies in its owner's storage.
pub open spec fn owner_range_of(descriptor: Descriptor, owner_address: int, owner_len: int) -> Result<(int, int), BufferError> {
    if descriptor.len < 0 {
        Err(BufferError::NegativeLength)
    } else if descriptor.len == 0 {
        Ok((0, 0))
    } else if descriptor.address < owner_address || descriptor.address - owner_address + descriptor.len
        > usize::MAX || descriptor.address - owner_address + descriptor.len > owner_len {
        Err(BufferError::ExceedsOwner)
    } else {
        Ok((descriptor.address - owner_address, descriptor.address - owner_address + descriptor.len))
    }
}

impl Descriptor {
    /// Whether a fixed copy of `width` bytes may read the export.
    pub fn admits_copy(&self, width: usize) -> (admitted: bool)
        ensures
            admitted == copy_admitted(*self, width as int),
    {
        (width == 1 || width == 2 || width == 4 || width == 8) && self.len >= 0 && self.len as usize
            == width && self.readonly && !self.null
    }

    /// The length in bytes, refused when negative.
    pub fn length(&self) -> (length: Result<usize, BufferError>)
        ensures
            self.len < 0 ==> length == Err::<usize, BufferError>(BufferError::NegativeLength),
            self.len >= 0 ==> length == Ok::<usize, BufferError>(self.len as usize),
    {
        if self.len < 0 {
            Err(BufferError::NegativeLength)
        } else {
            Ok(self.len as usize)
        }
    }

    /// How many bytes a snapshot copies: refused for a negative length or
    /// for nonempty storage that is null.
    pub fn snapshot_length(&self) -> (length: Result<usize, BufferError>)
        ensures
            self.len < 0 ==> length == Err::<usize, BufferError>(BufferError::NegativeLength),
            self.len == 0 ==> length == Ok::<usize, BufferError>(0),
            self.len > 0 && self.null ==> length == Err::<usize, BufferError>(BufferError::NullBuffer),
            self.len > 0 && !self.null ==> length == Ok::<usize, BufferError>(self.len as usize),
    {
        let length = self.length()?;
        if length == 0 {
            return Ok(0);
        }
        if self.null {
            return Err(BufferError::NullBuffer);
        }
        Ok(length)
    }

    /// Where the export's bytes lie in the storage of the bytes object that
    /// owns them; an empty export borrows nothing.
    pub fn owner_range(&self, owner_address: usize, owner_len: usize) -> (range: Result<(usize, usize), BufferError>)
        ensures
            match owner_range_of(*self, owner_address as int, owner_len as int) {
                Ok((a, b)) => range == Ok::<(usize, usize), BufferError>((a as usize, b as usize)),
                Err(e) => range == Err::<(usize, usize), BufferError>(e),
            },
    {
        let length = self.length()?;
        if length == 0 {
            return Ok((0, 0));
        }
        let start = match self.address.checked_sub(owner_address) {
            Some(s) => s,
            None => {
                return Err(BufferError::ExceedsOwner);
            },
        };
        let end = match start.checked_add(length) {
            Some(e) => e,
            None => {
                return Err(BufferError::ExceedsOwner);
            },
        };
        if end > owner_len {
            return Err(BufferError::ExceedsOwner);
        }
        Ok((start, end))
    }
}

/// Serialized output longer than this starts in Python bytes storage.
pub const SMALL_CAPACITY: usize = 256;

/// The writable capacity a Vec-backed output starts with: its allocation
/// capped at `SMALL_CAPACITY`, but never below its length.
pub fn starting_capacity(len: usize, allocated: usize) -> (capacity: usize)
    ensures
        capacity == if len > (if allocated < SMALL_CAPACITY { allocated } else { SMALL_CAPACITY }) {
            len
        } else if allocated < SMALL_CAPACITY {
            allocated
        } else {
            SMALL_CAPACITY
        },
{
    let capped = if allocated < SMALL_CAPACITY {
        allocated
    } else {
        SMALL_CAPACITY
    };
    if len > capped {
        len
    } else {
        capped
    }
}

/// The larger of two sizes.
pub open spec fn larger(a: int, b: int) -> int {
    if a >= b {
        a
    } else {
        b
    }
}

/// The capacity output grows to for `additional` more bytes: at least the
/// bytes needed, double the current capacity (saturating), the Vec's
/// allocation and 8; none when the need overflows or exceeds `max_capacity`.
pub open spec fn grown_capacity(len: int, capacity: int, allocated: int, additional: int, max_capacity: int) -> Option<int> {
    let doubled = if 2 * capacity > usize::MAX {
        usize::MAX as int
    } else {
        2 * capacity
    };
    let grown = larger(larger(larger(len + additional, doubled), allocated), 8);
    if len + additional > usize::MAX || grown > max_capacity {
        None
    } else {
        Some(grown)
    }
}

/// Choose the capacity for growing output.
pub fn grow_capacity(len: usize, capacity: usize, allocated: usize, additional: usize, max_capacity: usize) -> (grown: Option<usize>)
    ensures
        match grown_capacity(len as int, capacity as int, allocated as int, additional as int, max_capacity as int) {
            Some(c) => grown == Some(c as usize),
            None => grown is None,
        },
{
    let required = match len.checked_add(additional) {
        Some(r) => r,
        None => {
            return None;
        },
    };
    let doubled = if capacity > usize::MAX / 2 {
        usize::MAX
    } else {
        capacity * 2
    };
    let mut grown = if required >= doubled {
        required
    } else {
        doubled
    };
    if allocated > grown {
        grown = allocated;
    }
    if 8 > grown {
        grown = 8;
    }
    if grown > max_capacity {
        return None;
    }
    Some(grown)
}

} // verus!
