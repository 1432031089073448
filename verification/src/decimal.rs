//! Decimal text of integers, written by `itoa`.

use vstd::prelude::*;

verus! {

/// ASCII decimal digits of a natural number, most significant first, with no
/// leading zeros.
pub open spec fn digits_of(n: nat) -> Seq<u8>
    decreases n,
{
    if n < 10 {
        seq![(0x30 + n) as u8]
    } else {
        digits_of(n / 10).push((0x30 + n % 10) as u8)
    }
}

/// Decimal text of an integer: an optional minus sign, then its digits.
pub open spec fn decimal(value: int) -> Seq<u8> {
    if value < 0 {
        seq![0x2du8] + digits_of((-value) as nat)
    } else {
        digits_of(value as nat)
    }
}

/// `itoa::Buffer::format`, which prints an integer as its decimal text: a
/// minus sign for negative values and the digits without leading zeros.
#[verifier::external_body]
pub(crate) fn format_integer(value: i128) -> (text: Vec<u8>)
    ensures
        text@ == decimal(value as int),
{
    itoa::Buffer::new().format(value).as_bytes().to_vec()
}

/// Append the decimal text of a signed 64-bit integer.
pub fn push_signed(output: &mut Vec<u8>, value: i64)
    ensures
        final(output)@ == old(output)@ + decimal(value as int),
{
    let text = format_integer(value as i128);
    append(output, text.as_slice());
}

/// Append the decimal text of an unsigned 64-bit integer.
pub fn push_unsigned(output: &mut Vec<u8>, value: u64)
    ensures
        final(output)@ == old(output)@ + decimal(value as int),
{
    let text = format_integer(value as i128);
    append(output, text.as_slice());
}

/// Decimal text of a signed 64-bit integer.
pub fn signed_text(value: i64) -> (text: Vec<u8>)
    ensures
        text@ == decimal(value as int),
{
    format_integer(value as i128)
}

/// Decimal text of an unsigned 64-bit integer.
pub fn unsigned_text(value: u64) -> (text: Vec<u8>)
    ensures
        text@ == decimal(value as int),
{
    format_integer(value as i128)
}

/// Append a slice of bytes.
pub fn append(output: &mut Vec<u8>, bytes: &[u8])
    ensures
        final(output)@ == old(output)@ + bytes@,
{
    output.extend_from_slice(bytes);
    assert(output@ =~= old(output)@ + bytes@);
}

} // verus!
