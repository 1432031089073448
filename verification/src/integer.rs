//! Integer values copied from the CPython 3.12/3.13 count/sign tag and its
//! 30-bit digits.

use vstd::prelude::*;

verus! {

/// The signed or unsigned category used by the integer formatter.
#[derive(Clone, Copy, Debug, PartialEq, Eq, Structural)]
pub enum Integer {
    Signed(i64),
    Unsigned(u64),
}

/// Number of 30-bit digits recorded in a tag (the bits above the three flag bits).
pub open spec fn tag_count(tag: usize) -> int {
    tag as int / 8
}

/// Sign field of a tag: 0 positive, 1 zero, 2 negative.
pub open spec fn tag_sign(tag: usize) -> int {
    tag as int % 4
}

/// A tag describes a value this reader copies from its digits.
pub open spec fn has_digits(tag: usize) -> bool {
    1 <= tag_count(tag) <= 3 && (tag_sign(tag) == 0 || tag_sign(tag) == 2)
}

/// The digits a counted tag reads are present and below 2^30.
pub open spec fn digits_well_formed(tag: usize, digits: Seq<u32>) -> bool {
    has_digits(tag) ==> {
        &&& digits.len() >= tag_count(tag)
        &&& forall|i: int| 0 <= i < tag_count(tag) ==> digits[i] < 0x4000_0000
    }
}

/// Value of the first `count` base-2^30 digits, least significant first.
pub open spec fn magnitude(digits: Seq<u32>, count: nat) -> int
    decreases count,
{
    if count == 0 {
        0
    } else {
        magnitude(digits, (count - 1) as nat) + digits[count - 1] as int * pow30(
            (count - 1) as nat,
        )
    }
}

/// 2^(30 k).
pub open spec fn pow30(k: nat) -> int
    decreases k,
{
    if k == 0 {
        1
    } else {
        0x4000_0000 * pow30((k - 1) as nat)
    }
}

/// What a tag and its digits denote, or None where the reader declines.
pub open spec fn integer_of(tag: usize, digits: Seq<u32>) -> Option<Integer> {
    if tag_count(tag) == 0 && tag_sign(tag) == 1 {
        Some(Integer::Signed(0))
    } else if !has_digits(tag) {
        None
    } else if tag_count(tag) == 3 && digits[2] >= 16 {
        None
    } else {
        let m = magnitude(digits, tag_count(tag) as nat);
        if tag_sign(tag) == 2 {
            if m <= 0x8000_0000_0000_0000 {
                Some(Integer::Signed((-m) as i64))
            } else {
                None
            }
        } else if m < 0x8000_0000_0000_0000 {
            Some(Integer::Signed(m as i64))
        } else {
            Some(Integer::Unsigned(m as u64))
        }
    }
}

/// The tag's flag bit 2 takes no part in the value: flipping it reads the
/// same integer.
pub proof fn lemma_integer_ignores_flag_bit(tag: usize, digits: Seq<u32>)
    ensures
        integer_of(tag ^ 4usize, digits) == integer_of(tag, digits),
{
    assert((tag ^ 4usize) / 8 == tag / 8 && (tag ^ 4usize) % 4 == tag % 4) by (bit_vector);
}

proof fn lemma_pow30_positive(k: nat)
    ensures
        pow30(k) > 0,
    decreases k,
{
    if k > 0 {
        lemma_pow30_positive((k - 1) as nat);
    }
}

proof fn lemma_magnitude_nonnegative(digits: Seq<u32>, count: nat)
    ensures
        magnitude(digits, count) >= 0,
    decreases count,
{
    if count > 0 {
        lemma_magnitude_nonnegative(digits, (count - 1) as nat);
        lemma_pow30_positive((count - 1) as nat);
        vstd::arithmetic::mul::lemma_mul_nonnegative(digits[count - 1] as int, pow30((count - 1) as nat));
    }
}

/// A negative tag reads the negation of what the positive tag with the same
/// count and digits reads, when that is a signed value.
pub proof fn lemma_integer_negative_sign(tag: usize, digits: Seq<u32>, value: i64)
    requires
        tag_sign(tag) == 0,
        integer_of(tag, digits) == Some(Integer::Signed(value)),
    ensures
        value >= 0,
        integer_of((tag + 2) as usize, digits) == Some(Integer::Signed((-value) as i64)),
{
    assert(tag + 2 <= usize::MAX) by {
        assert(tag % 4 == 0);
    }
    let negative = (tag + 2) as usize;
    assert(tag_count(negative) == tag_count(tag));
    assert(tag_sign(negative) == 2);
    lemma_magnitude_nonnegative(digits, tag_count(tag) as nat);
}

/// Copy a supported integer from its tag and digits.
///
/// When `layout_matches` is false the interpreter layout is unknown and no
/// value is produced. Digits are read only for a positive or negative tag with
/// one to three digits.
pub fn read_integer(layout_matches: bool, tag: usize, digits: &[u32]) -> (result: Option<Integer>)
    requires
        layout_matches ==> digits_well_formed(tag, digits@),
    ensures
        result == (if layout_matches { integer_of(tag, digits@) } else { None }),
{
    if !layout_matches {
        return None;
    }
    let count = tag >> 3;
    let sign = tag & 3;
    proof {
        assert(tag >> 3 == tag / 8) by (bit_vector);
        assert(tag & 3 == tag % 4) by (bit_vector);
    }
    if count == 0 && sign == 1 {
        return Some(Integer::Signed(0));
    }
    if !(1 <= count && count <= 3 && (sign == 0 || sign == 2)) {
        return None;
    }
    let value: u64 = if count == 1 {
        let low = digits[0];
        proof {
            reveal_with_fuel(magnitude, 2);
            assert(pow30(0) == 1);
            assert(magnitude(digits@, 0) == 0);
            assert(magnitude(digits@, 1) == magnitude(digits@, 0) + digits@[0] as int * pow30(0));
            assert(low as u64 == magnitude(digits@, 1));
        }
        low as u64
    } else if count == 2 {
        let low = digits[0];
        let high = digits[1];
        let combined = (low as u64) | ((high as u64) << 30u64);
        proof {
            assert(low < 0x4000_0000 && high < 0x4000_0000 ==> (low as u64) | ((high as u64)
                << 30u64) == low as u64 + high as u64 * 0x4000_0000) by (bit_vector);
            reveal_with_fuel(magnitude, 3);
            reveal_with_fuel(pow30, 2);
            assert(digits@[0] < 0x4000_0000 && digits@[1] < 0x4000_0000);
            assert(pow30(1) == 0x4000_0000);
            assert(pow30(0) == 1);
            assert(magnitude(digits@, 0) == 0);
            assert(magnitude(digits@, 1) == digits@[0] as int);
            assert(magnitude(digits@, 2) == magnitude(digits@, 1) + digits@[1] as int * pow30(1));
            assert(combined == magnitude(digits@, 2));
        }
        combined
    } else {
        let high = digits[2];
        if high >= 16 {
            return None;
        }
        let low = digits[0];
        let middle = digits[1];
        let combined = (low as u64) | ((middle as u64) << 30u64) | ((high as u64) << 60u64);
        proof {
            assert(low < 0x4000_0000 && middle < 0x4000_0000 && high < 16 ==> (low as u64) | ((
            middle as u64) << 30u64) | ((high as u64) << 60u64) == low as u64 + middle as u64
                * 0x4000_0000 + high as u64 * 0x1000_0000_0000_0000) by (bit_vector);
            reveal_with_fuel(magnitude, 4);
            reveal_with_fuel(pow30, 3);
            assert(digits@[0] < 0x4000_0000 && digits@[1] < 0x4000_0000);
            assert(pow30(1) == 0x4000_0000);
            assert(pow30(2) == 0x1000_0000_0000_0000);
            assert(magnitude(digits@, 1) == digits@[0] as int);
            assert(magnitude(digits@, 2) == digits@[0] as int + digits@[1] as int * 0x4000_0000);
            assert(magnitude(digits@, 3) == magnitude(digits@, 2) + digits@[2] as int * pow30(2));
            assert(combined == magnitude(digits@, 3));
        }
        combined
    };
    assert(value == magnitude(digits@, tag_count(tag) as nat));
    if sign == 2 {
        if value == 0x8000_0000_0000_0000u64 {
            return Some(Integer::Signed(i64::MIN));
        }
        if value < 0x8000_0000_0000_0000u64 {
            Some(Integer::Signed(-(value as i64)))
        } else {
            None
        }
    } else if value < 0x8000_0000_0000_0000u64 {
        Some(Integer::Signed(value as i64))
    } else {
        Some(Integer::Unsigned(value))
    }
}

/// What a compact tag denotes: zero, or one digit with its sign.
pub open spec fn compact_of(tag: usize, digits: Seq<u32>) -> Option<i64> {
    if tag_count(tag) == 0 && tag_sign(tag) == 1 {
        Some(0)
    } else if tag_count(tag) == 1 && tag_sign(tag) == 0 {
        Some(digits[0] as i64)
    } else if tag_count(tag) == 1 && tag_sign(tag) == 2 {
        Some(-(digits[0] as int) as i64)
    } else {
        None
    }
}

/// Copy a compact scalar: zero, or a positive or negative one-digit integer.
///
/// The digit is read only for a one-digit tag; wider tags decline.
pub fn read_compact(layout_matches: bool, tag: usize, digits: &[u32]) -> (result: Option<i64>)
    requires
        layout_matches && tag_count(tag) == 1 && (tag_sign(tag) == 0 || tag_sign(tag) == 2)
            ==> digits.len() >= 1,
    ensures
        result == (if layout_matches { compact_of(tag, digits@) } else { None }),
{
    if !layout_matches {
        return None;
    }
    let count = tag >> 3;
    let sign = tag & 3;
    proof {
        assert(tag >> 3 == tag / 8) by (bit_vector);
        assert(tag & 3 == tag % 4) by (bit_vector);
    }
    if count == 0 && sign == 1 {
        Some(0)
    } else if count == 1 && (sign == 0 || sign == 2) {
        let digit = digits[0] as i64;
        Some(if sign == 2 { -digit } else { digit })
    } else {
        None
    }
}

/// Cached result of comparing the integer type's metadata with the expected
/// digit offset and width.
#[derive(Clone, Copy, Debug, PartialEq, Eq, Structural)]
pub enum IntegerLayout {
    Unchecked,
    Supported,
    Fallback,
}

/// Whether the type metadata describes 4-byte digits at the expected offset.
pub open spec fn metadata_matches(basic_size: isize, item_size: isize, expected_offset: isize) -> bool {
    basic_size == expected_offset && item_size == 4
}

/// Decide whether digits may be read, checking the metadata only once.
///
/// An unchecked cache records the comparison; a recorded result is reused
/// without looking at the metadata again.
pub fn layout_matches(
    layout: &mut IntegerLayout,
    basic_size: isize,
    item_size: isize,
    expected_offset: isize,
) -> (matches: bool)
    ensures
        match *old(layout) {
            IntegerLayout::Unchecked => {
                &&& matches == metadata_matches(basic_size, item_size, expected_offset)
                &&& *final(layout) == (if matches {
                    IntegerLayout::Supported
                } else {
                    IntegerLayout::Fallback
                })
            },
            IntegerLayout::Supported => matches && *final(layout) == IntegerLayout::Supported,
            IntegerLayout::Fallback => !matches && *final(layout) == IntegerLayout::Fallback,
        },
{
    match *layout {
        IntegerLayout::Unchecked => {
            let matches = basic_size == expected_offset && item_size == 4;
            *layout = if matches {
                IntegerLayout::Supported
            } else {
                IntegerLayout::Fallback
            };
            matches
        },
        IntegerLayout::Supported => true,
        IntegerLayout::Fallback => false,
    }
}

/// Copy an exact integer with the cached layout decision.
///
/// A value that is not an exact integer is declined before the layout is
/// consulted.
pub fn copy_integer(
    exact: bool,
    layout: &mut IntegerLayout,
    basic_size: isize,
    item_size: isize,
    expected_offset: isize,
    tag: usize,
    digits: &[u32],
) -> (result: Option<Integer>)
    requires
        digits_well_formed(tag, digits@),
    ensures
        !exact ==> result is None && *final(layout) == *old(layout),
        exact ==> {
            let matches = match *old(layout) {
                IntegerLayout::Unchecked => metadata_matches(basic_size, item_size, expected_offset),
                IntegerLayout::Supported => true,
                IntegerLayout::Fallback => false,
            };
            &&& result == (if matches { integer_of(tag, digits@) } else { None })
            &&& *final(layout) == (if matches { IntegerLayout::Supported } else { IntegerLayout::Fallback })
        },
{
    if !exact {
        return None;
    }
    let matches = layout_matches(layout, basic_size, item_size, expected_offset);
    read_integer(matches, tag, digits)
}

/// Copy a compact dictionary value after checking the integer metadata.
pub fn entry_integer(
    basic_size: isize,
    item_size: isize,
    expected_offset: isize,
    tag: usize,
    digits: &[u32],
) -> (result: Option<i64>)
    requires
        tag_count(tag) == 1 && (tag_sign(tag) == 0 || tag_sign(tag) == 2) ==> digits.len() >= 1,
    ensures
        result == (if metadata_matches(basic_size, item_size, expected_offset) {
            compact_of(tag, digits@)
        } else {
            None
        }),
{
    let matches = basic_size == expected_offset && item_size == 4;
    read_compact(matches, tag, digits)
}

/// Storage modeled for one integer object: its allocation size, its tag,
/// and the digits that follow the tag.
pub struct IntegerAllocation {
    bytes: usize,
    tag: usize,
    digits: Vec<u32>,
}

/// Byte offset of the tag in the modeled object.
pub const TAG_OFFSET: usize = 16;
/// Byte offset of the first digit in the modeled object.
pub const DIGIT_OFFSET: usize = 24;

impl IntegerAllocation {
    /// Allocation size in bytes.
    pub closed spec fn size(&self) -> usize {
        self.bytes
    }

    /// The stored tag.
    pub closed spec fn tag_value(&self) -> usize {
        self.tag
    }

    /// The initialized digits.
    pub closed spec fn digit_values(&self) -> Seq<u32> {
        self.digits@
    }

    /// Storage for a tag and its digits in an allocation of `bytes` bytes.
    ///
    /// The digits must fit after the tag; a tag that counts one to three
    /// digits comes with exactly that many digits, each below 2^30.
    pub fn new(bytes: usize, tag: usize, digits: &[u32]) -> (allocation: Self)
        requires
            DIGIT_OFFSET + 4 * digits@.len() <= bytes,
            has_digits(tag) ==> digits@.len() == tag_count(tag) && forall|i: int|
                0 <= i < digits@.len() ==> digits@[i] < 0x4000_0000,
        ensures
            allocation.size() == bytes,
            allocation.tag_value() == tag,
            allocation.digit_values() == digits@,
    {
        IntegerAllocation { bytes, tag, digits: vstd::slice::slice_to_vec(digits) }
    }

    /// The tag stored after the object header.
    pub fn tag(&self) -> (tag: usize)
        ensures
            tag == self.tag_value(),
    {
        self.tag
    }

    /// Copy the integer this storage holds.
    pub fn read(&self) -> (result: Option<Integer>)
        requires
            has_digits(self.tag_value()) ==> self.digit_values().len() == tag_count(self.tag_value())
                && forall|i: int| 0 <= i < self.digit_values().len() ==> self.digit_values()[i] < 0x4000_0000,
        ensures
            result == integer_of(self.tag_value(), self.digit_values()),
    {
        read_integer(true, self.tag, self.digits.as_slice())
    }
}

/// Read the integer stored in a fresh allocation, which must be `expected`:
/// a caller may only ask for the integer that the tag and digits hold.
pub fn check(bytes: usize, tag: usize, digits: &[u32], expected: Option<Integer>)
    requires
        DIGIT_OFFSET + 4 * digits@.len() <= bytes,
        has_digits(tag) ==> digits@.len() == tag_count(tag) && forall|i: int|
            0 <= i < digits@.len() ==> digits@[i] < 0x4000_0000,
        integer_of(tag, digits@) == expected,
{
    let allocation = IntegerAllocation::new(bytes, tag, digits);
    let read = allocation.read();
    assert(read == expected);
}

} // verus!
