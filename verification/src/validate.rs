//! A cheap test that a long document's outer container is not closed by its
//! last non-whitespace byte.

use vstd::prelude::*;
use vstd::string::StringSliceAdditionalSpecFns;

verus! {

/// JSON insignificant whitespace.
pub open spec fn is_json_whitespace(byte: u8) -> bool {
    byte == 0x20 || byte == 0x09 || byte == 0x0a || byte == 0x0d
}

/// Index of the first non-whitespace byte among the first `limit` bytes.
pub open spec fn first_non_whitespace(bytes: Seq<u8>, limit: int) -> Option<int> {
    if exists|i: int| 0 <= i < limit && i < bytes.len() && !is_json_whitespace(#[trigger] bytes[i]) {
        Some(choose|i: int| 0 <= i < limit && i < bytes.len() && !is_json_whitespace(#[trigger] bytes[i])
            && forall|j: int| 0 <= j < i ==> is_json_whitespace(#[trigger] bytes[j]))
    } else {
        None
    }
}

/// Index of the last non-whitespace byte among the last `limit` bytes.
pub open spec fn last_non_whitespace(bytes: Seq<u8>, limit: int) -> Option<int> {
    if exists|i: int| bytes.len() - limit <= i < bytes.len() && 0 <= i && !is_json_whitespace(#[trigger] bytes[i]) {
        Some(choose|i: int| bytes.len() - limit <= i < bytes.len() && 0 <= i && !is_json_whitespace(#[trigger] bytes[i])
            && forall|j: int| i < j < bytes.len() ==> is_json_whitespace(#[trigger] bytes[j]))
    } else {
        None
    }
}

/// The closing byte expected for an opening byte, if it opens a container.
pub open spec fn closing_for(opening: u8) -> Option<u8> {
    if opening == 0x5b {
        Some(0x5du8)
    } else if opening == 0x7b {
        Some(0x7du8)
    } else {
        None
    }
}

/// A document of at least 1024 bytes whose first non-whitespace byte (within
/// 64 bytes) opens a container, and whose last non-whitespace byte (within
/// 64 bytes of the end) is not that container's closing byte.
pub open spec fn invalid_container_ending(bytes: Seq<u8>) -> bool {
    &&& bytes.len() >= 1024
    &&& first_non_whitespace(bytes, 64) matches Some(first)
    &&& closing_for(bytes[first]) matches Some(closing)
    &&& last_non_whitespace(bytes, 64) matches Some(last)
    &&& bytes[last] != closing
}

/// Whether a complete document certainly has an invalid container ending,
/// so the first error can be found without building values.
pub fn has_invalid_container_ending(input: &str) -> (invalid: bool)
    ensures
        invalid == invalid_container_ending(input.spec_bytes()),
{
    let bytes = input.as_bytes();
    if bytes.len() < 1024 {
        return false;
    }
    let mut index: usize = 0;
    while index < 64 && (bytes[index] == 0x20 || bytes[index] == 0x09 || bytes[index] == 0x0a || bytes[index] == 0x0d)
        invariant
            index <= 64,
            bytes@.len() >= 1024,
            forall|j: int| 0 <= j < index ==> is_json_whitespace(#[trigger] bytes@[j]),
        decreases 64 - index,
    {
        index = index + 1;
    }
    if index == 64 {
        proof {
            assert(!exists|i: int| 0 <= i < 64 && i < bytes@.len() && !is_json_whitespace(#[trigger] bytes@[i]));
        }
        return false;
    }
    proof {
        assert(0 <= index < 64 && index < bytes@.len() && !is_json_whitespace(bytes@[index as int]));
        let first = first_non_whitespace(bytes@, 64)->0;
        if first < index {
            assert(is_json_whitespace(bytes@[first]));
        }
        if first > index {
            assert(is_json_whitespace(bytes@[index as int]));
        }
        assert(first == index);
    }
    let closing: u8 = if bytes[index] == 0x5b {
        0x5d
    } else if bytes[index] == 0x7b {
        0x7d
    } else {
        return false;
    };
    // Bound the extra work even when a document ends in a long whitespace suffix.
    let len = bytes.len();
    let mut taken: usize = 0;
    while taken < 64 && (bytes[len - 1 - taken] == 0x20 || bytes[len - 1 - taken] == 0x09
        || bytes[len - 1 - taken] == 0x0a || bytes[len - 1 - taken] == 0x0d)
        invariant
            taken <= 64,
            len == bytes@.len(),
            len >= 1024,
            forall|j: int| len - taken <= j < len ==> is_json_whitespace(#[trigger] bytes@[j]),
        decreases 64 - taken,
    {
        taken = taken + 1;
    }
    if taken == 64 {
        proof {
            assert(!exists|i: int| len - 64 <= i < len && 0 <= i && !is_json_whitespace(#[trigger] bytes@[i]));
        }
        return false;
    }
    let last = len - 1 - taken;
    proof {
        assert(len - 64 <= last < len && !is_json_whitespace(bytes@[last as int]));
        let chosen = last_non_whitespace(bytes@, 64)->0;
        if chosen < last {
            assert(is_json_whitespace(bytes@[last as int]));
        }
        if chosen > last {
            assert(is_json_whitespace(bytes@[chosen]));
        }
        assert(chosen == last);
    }
    bytes[last] != closing
}

} // verus!
