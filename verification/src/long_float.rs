//! Exceptionally long decimals, normalized to a bounded form before binary64
//! conversion.
//!
//! The normalized text keeps the sign, the first 1076 significant digits
//! with a decimal point after the first, a sticky `1` when a discarded digit
//! is nonzero, and an explicit exponent. Decimals whose exponent puts them
//! far outside the finite range become signed zero or infinity directly.

use vstd::prelude::*;
use vstd::string::StringSliceAdditionalSpecFns;
use crate::decimal::{decimal, signed_text};

verus! {

/// Inputs shorter than this cannot cancel a truncated exponent into the
/// finite binary64 range; longer ones take this normalization.
pub const MIN_LENGTH: usize = 0x10000000 - 1024;

/// A binary64 rounding midpoint has at most 1075 significant decimal digits;
/// one more digit and a sticky tail keep the input's relation to each one.
pub const SIGNIFICANT_DIGITS: usize = 1076;

/// Why a decimal was rejected.
#[derive(Clone, Copy, Debug, PartialEq, Eq, Structural)]
pub enum DecimalError {
    /// A byte is not allowed where it stands.
    InvalidDigit,
    /// The exponent has no digits.
    EmptyExponent,
}

/// The bounded form of a decimal.
#[derive(Debug, PartialEq, Eq)]
pub enum Normalized {
    /// A zero, or a value below every subnormal once rounded.
    Zero { negative: bool },
    /// A value above the finite range.
    Infinite { negative: bool },
    /// Text with at most 1077 significant digits and an explicit exponent,
    /// for a binary64 parser.
    Decimal(Vec<u8>),
}

/// Spec counterpart of `Normalized`.
pub enum NormalizedText {
    Zero { negative: bool },
    Infinite { negative: bool },
    Decimal(Seq<u8>),
}

impl View for Normalized {
    type V = NormalizedText;

    open spec fn view(&self) -> NormalizedText {
        match self {
            Normalized::Zero { negative } => NormalizedText::Zero { negative: *negative },
            Normalized::Infinite { negative } => NormalizedText::Infinite { negative: *negative },
            Normalized::Decimal(text) => NormalizedText::Decimal(text@),
        }
    }
}

/// An ASCII decimal digit.
pub open spec fn is_digit(byte: u8) -> bool {
    0x30 <= byte <= 0x39
}

/// Every byte is an ASCII decimal digit.
pub open spec fn all_digits(bytes: Seq<u8>) -> bool {
    forall|i: int| 0 <= i < bytes.len() ==> is_digit(#[trigger] bytes[i])
}

/// Exponent digits accumulated in base ten, saturating at `cap`.
pub open spec fn saturated(digits: Seq<u8>, cap: int) -> int
    decreases digits.len(),
{
    if digits.len() == 0 {
        0
    } else {
        let v = saturated(digits.drop_last(), cap) * 10 + (digits.last() - 0x30);
        if v < cap {
            v
        } else {
            cap
        }
    }
}

/// Value of a run of decimal digits.
pub open spec fn digits_value(digits: Seq<u8>) -> int
    decreases digits.len(),
{
    if digits.len() == 0 {
        0
    } else {
        digits_value(digits.drop_last()) * 10 + (digits.last() - 0x30)
    }
}

/// Saturating accumulation is the value capped at `cap`.
pub proof fn lemma_saturated_is_min(digits: Seq<u8>, cap: int)
    requires
        all_digits(digits),
        cap >= 0,
    ensures
        saturated(digits, cap) == if digits_value(digits) < cap {
            digits_value(digits)
        } else {
            cap
        },
    decreases digits.len(),
{
    if digits.len() > 0 {
        let prefix = digits.drop_last();
        assert(all_digits(prefix)) by {
            assert forall|i: int| 0 <= i < prefix.len() implies is_digit(#[trigger] prefix[i]) by {
                assert(prefix[i] == digits[i]);
            }
        }
        lemma_saturated_is_min(prefix, cap);
        lemma_digits_value_nonnegative(prefix);
        assert(is_digit(digits[digits.len() - 1]));
    }
}

proof fn lemma_digits_value_nonnegative(digits: Seq<u8>)
    requires
        all_digits(digits),
    ensures
        digits_value(digits) >= 0,
    decreases digits.len(),
{
    if digits.len() > 0 {
        let prefix = digits.drop_last();
        assert(all_digits(prefix)) by {
            assert forall|i: int| 0 <= i < prefix.len() implies is_digit(#[trigger] prefix[i]) by {
                assert(prefix[i] == digits[i]);
            }
        }
        lemma_digits_value_nonnegative(prefix);
        assert(is_digit(digits[digits.len() - 1]));
    }
}

/// The explicit exponent: absent, or an optional sign and digits whose
/// magnitude saturates at the input length plus 1024.
pub open spec fn exponent_value(text: Option<Seq<u8>>, input_length: int) -> Result<int, DecimalError> {
    match text {
        None => Ok(0),
        Some(t) => {
            let (negative, digits) = if t.len() > 0 && t[0] == 0x2d {
                (true, t.skip(1))
            } else if t.len() > 0 && t[0] == 0x2b {
                (false, t.skip(1))
            } else {
                (false, t)
            };
            if digits.len() == 0 {
                Err(DecimalError::EmptyExponent)
            } else if !all_digits(digits) {
                Err(DecimalError::InvalidDigit)
            } else {
                let value = saturated(digits, input_length + 1024);
                Ok(if negative {
                    -value
                } else {
                    value
                })
            }
        },
    }
}

/// Read the explicit exponent, saturating its magnitude so that no input
/// can overflow it.
pub fn explicit_exponent(text: Option<&[u8]>, input_length: usize) -> (result: Result<i128, DecimalError>)
    ensures
        match text {
            None => result == Ok::<i128, DecimalError>(0),
            Some(t) => match exponent_value(Some(t@), input_length as int) {
                Ok(v) => result matches Ok(r) && r == v && -(input_length + 1024) <= r <= input_length + 1024,
                Err(e) => result == Err::<i128, DecimalError>(e),
            },
        },
{
    let cap = input_length as i128 + 1024;
    let bytes = match text {
        None => {
            return Ok(0);
        },
        Some(bytes) => bytes,
    };
    let (negative, start): (bool, usize) = if bytes.len() > 0 && bytes[0] == 0x2d {
        (true, 1)
    } else if bytes.len() > 0 && bytes[0] == 0x2b {
        (false, 1)
    } else {
        (false, 0)
    };
    let ghost digits = bytes@.skip(start as int);
    if start == bytes.len() {
        return Err(DecimalError::EmptyExponent);
    }
    let mut value: i128 = 0;
    let mut index = start;
    while index < bytes.len()
        invariant
            start <= index <= bytes@.len(),
            text == Some(bytes),
            digits == bytes@.skip(start as int),
            negative == (bytes@.len() > 0 && bytes@[0] == 0x2d),
            start == (if bytes@.len() > 0 && (bytes@[0] == 0x2d || bytes@[0] == 0x2b) { 1usize } else { 0usize }),
            cap == input_length + 1024,
            all_digits(bytes@.subrange(start as int, index as int)),
            value == saturated(bytes@.subrange(start as int, index as int), cap as int),
            0 <= value <= cap,
        decreases bytes@.len() - index,
    {
        let byte = bytes[index];
        if !(0x30 <= byte && byte <= 0x39) {
            proof {
                assert(digits[index - start] == byte);
                assert(!all_digits(digits));
            }
            return Err(DecimalError::InvalidDigit);
        }
        let next = value * 10 + (byte - 0x30) as i128;
        value = if next < cap { next } else { cap };
        proof {
            let p = bytes@.subrange(start as int, index + 1);
            assert(p.drop_last() =~= bytes@.subrange(start as int, index as int));
            assert(p.last() == byte);
        }
        index = index + 1;
    }
    proof {
        assert(bytes@.subrange(start as int, bytes@.len() as int) =~= digits);
        assert(all_digits(digits));
        assert(value == saturated(digits, input_length + 1024));
        assert(digits.len() > 0);
        let t = bytes@;
        let (n2, d2) = if t.len() > 0 && t[0] == 0x2d {
            (true, t.skip(1))
        } else if t.len() > 0 && t[0] == 0x2b {
            (false, t.skip(1))
        } else {
            (false, t)
        };
        assert(d2 =~= digits);
        assert(n2 == negative);
    }
    Ok(if negative { -value } else { value })
}

/// Number of leading `0` bytes.
pub open spec fn leading_zeros(digits: Seq<u8>) -> int
    decreases digits.len(),
{
    if digits.len() == 0 {
        0
    } else if digits[0] == 0x30 {
        1 + leading_zeros(digits.skip(1))
    } else {
        0
    }
}

/// The retained significant digits: the first digit, then a decimal point
/// and the following digits up to `SIGNIFICANT_DIGITS` in all.
pub open spec fn mantissa_text(significant: Seq<u8>) -> Seq<u8> {
    let kept = if significant.len() < SIGNIFICANT_DIGITS {
        significant
    } else {
        significant.take(SIGNIFICANT_DIGITS as int)
    };
    if kept.len() == 0 {
        Seq::empty()
    } else if kept.len() == 1 {
        kept
    } else {
        seq![kept[0]] + seq![0x2eu8] + kept.skip(1)
    }
}

/// Some digit beyond the retained ones is nonzero.
pub open spec fn sticky(significant: Seq<u8>) -> bool {
    exists|i: int| SIGNIFICANT_DIGITS <= i < significant.len() && #[trigger] significant[i] != 0x30
}

/// Index of the first `e` or `E`, if any.
#[verifier::opaque]
pub open spec fn exponent_marker(bytes: Seq<u8>) -> Option<int> {
    if exists|i: int| 0 <= i < bytes.len() && (#[trigger] bytes[i] == 0x65 || bytes[i] == 0x45) {
        Some(choose|i: int| 0 <= i < bytes.len() && (#[trigger] bytes[i] == 0x65 || bytes[i] == 0x45)
            && forall|j: int| 0 <= j < i ==> !(#[trigger] bytes[j] == 0x65 || bytes[j] == 0x45))
    } else {
        None
    }
}

/// Index of the first `.`, if any.
#[verifier::opaque]
pub open spec fn dot_position(bytes: Seq<u8>) -> Option<int> {
    if exists|i: int| 0 <= i < bytes.len() && #[trigger] bytes[i] == 0x2e {
        Some(choose|i: int| 0 <= i < bytes.len() && #[trigger] bytes[i] == 0x2e
            && forall|j: int| 0 <= j < i ==> #[trigger] bytes[j] != 0x2e)
    } else {
        None
    }
}

/// The parts of a decimal: its sign, integer digits, fraction digits and
/// exponent text, or the grammar error found before the exponent is read.
///
/// The integer part is nonempty without superfluous leading zeros; a decimal
/// point must be followed by a digit.
#[verifier::opaque]
pub open spec fn decimal_parts(text: Seq<u8>) -> Result<(bool, Seq<u8>, Seq<u8>, Option<Seq<u8>>), DecimalError> {
    let negative = text.len() > 0 && text[0] == 0x2d;
    let unsigned = if negative { text.skip(1) } else { text };
    let (coefficient, exponent) = match exponent_marker(unsigned) {
        Some(i) => (unsigned.take(i), Some(unsigned.skip(i + 1))),
        None => (unsigned, None),
    };
    let (integer, fraction) = match dot_position(coefficient) {
        Some(d) => (coefficient.take(d), coefficient.skip(d + 1)),
        None => (coefficient, Seq::<u8>::empty()),
    };
    if dot_position(coefficient) matches Some(d) && d + 1 == coefficient.len() {
        Err(DecimalError::InvalidDigit)
    } else if integer.len() == 0 || (integer.len() > 1 && integer[0] == 0x30) {
        Err(DecimalError::InvalidDigit)
    } else {
        Ok((negative, integer, fraction, exponent))
    }
}

/// The bounded form of significant digits with a decimal exponent.
pub open spec fn bounded_form(negative: bool, integer: Seq<u8>, fraction: Seq<u8>, explicit: int) -> NormalizedText {
    let digits = integer + fraction;
    let zeros = leading_zeros(digits);
    let significant = digits.skip(zeros);
    let power = explicit + integer.len() - zeros - 1;
    if significant.len() == 0 || power < -324 {
        NormalizedText::Zero { negative }
    } else if power > 308 {
        NormalizedText::Infinite { negative }
    } else {
        NormalizedText::Decimal(
            (if negative {
                seq![0x2du8]
            } else {
                Seq::empty()
            }) + mantissa_text(significant) + (if sticky(significant) {
                seq![0x31u8]
            } else {
                Seq::empty()
            }) + seq![0x65u8] + decimal(power),
        )
    }
}

/// The bounded form of a decimal, or the first error: a grammar error, then
/// an exponent error, then a byte that is not a digit.
pub open spec fn normalize_spec(text: Seq<u8>) -> Result<NormalizedText, DecimalError> {
    match decimal_parts(text) {
        Err(e) => Err(e),
        Ok((negative, integer, fraction, exponent)) => match exponent_value(exponent, text.len() as int) {
            Err(e) => Err(e),
            Ok(explicit) => if !all_digits(integer + fraction) {
                Err(DecimalError::InvalidDigit)
            } else {
                Ok(bounded_form(negative, integer, fraction, explicit))
            },
        },
    }
}

/// Adding a byte extends the leading zeros only while every byte so far
/// is a zero.
proof fn lemma_leading_zeros_push(p: Seq<u8>, b: u8)
    ensures
        0 <= leading_zeros(p) <= p.len(),
        leading_zeros(p) < p.len() ==> p[leading_zeros(p)] != 0x30,
        forall|i: int| 0 <= i < leading_zeros(p) ==> p[i] == 0x30,
        leading_zeros(p.push(b)) == if leading_zeros(p) == p.len() && b == 0x30 {
            p.len() + 1int
        } else {
            leading_zeros(p)
        },
    decreases p.len(),
{
    if p.len() == 0 {
        assert(p.push(b).skip(1) =~= Seq::<u8>::empty());
        assert(p.push(b)[0] == b);
        assert(leading_zeros(Seq::<u8>::empty()) == 0);
        assert(leading_zeros(p) == 0);
        if b == 0x30 {
            assert(leading_zeros(p.push(b)) == 1 + leading_zeros(p.push(b).skip(1)));
        } else {
            assert(leading_zeros(p.push(b)) == 0);
        }
    } else {
        lemma_leading_zeros_push(p.skip(1), b);
        assert(p.push(b).skip(1) =~= p.skip(1).push(b));
        assert(p.push(b)[0] == p[0]);
        if p[0] == 0x30 {
            assert(leading_zeros(p) == 1 + leading_zeros(p.skip(1)));
            assert(leading_zeros(p.push(b)) == 1 + leading_zeros(p.skip(1).push(b)));
        } else {
            assert(leading_zeros(p) == 0);
            assert(leading_zeros(p.push(b)) == 0);
        }
        if p[0] == 0x30 {
            assert forall|i: int| 0 <= i < leading_zeros(p) implies p[i] == 0x30 by {
                if i > 0 {
                    assert(p[i] == p.skip(1)[i - 1]);
                }
            }
            if leading_zeros(p) < p.len() {
                assert(p[leading_zeros(p)] == p.skip(1)[leading_zeros(p.skip(1))]);
            }
        }
    }
}

/// How the retained text and the sticky flag grow by one significant digit.
proof fn lemma_significant_push(sig: Seq<u8>, b: u8)
    ensures
        mantissa_text(sig.push(b)) == if sig.len() == 0 {
            seq![b]
        } else if sig.len() == 1 {
            seq![sig[0], 0x2eu8, b]
        } else if sig.len() < SIGNIFICANT_DIGITS {
            mantissa_text(sig).push(b)
        } else {
            mantissa_text(sig)
        },
        sticky(sig.push(b)) == (sticky(sig) || (sig.len() >= SIGNIFICANT_DIGITS && b != 0x30)),
{
    let q = sig.push(b);
    if sig.len() == 0 {
        assert(q =~= seq![b]);
    } else if sig.len() == 1 {
        assert(mantissa_text(q) =~= seq![sig[0], 0x2eu8, b]);
    } else if sig.len() < SIGNIFICANT_DIGITS {
        assert(mantissa_text(q) =~= mantissa_text(sig).push(b));
    } else {
        assert(q.take(SIGNIFICANT_DIGITS as int) =~= sig.take(SIGNIFICANT_DIGITS as int));
    }
    if sticky(q) {
        let i = choose|i: int| SIGNIFICANT_DIGITS <= i < q.len() && #[trigger] q[i] != 0x30;
        if i < sig.len() {
            assert(sig[i] == q[i]);
        }
    }
    if sticky(sig) {
        let i = choose|i: int| SIGNIFICANT_DIGITS <= i < sig.len() && #[trigger] sig[i] != 0x30;
        assert(q[i] == sig[i]);
    }
    if sig.len() >= SIGNIFICANT_DIGITS && b != 0x30 {
        assert(q[sig.len() as int] == b);
    }
}

/// The sign, then the retained significant digits, for the digits of the
/// integer and fraction parts; None when a byte is not a digit.
fn scan_digits(integer: &[u8], fraction: &[u8], negative: bool) -> (scanned: Option<(Vec<u8>, usize, bool)>)
    requires
        integer@.len() + fraction@.len() <= usize::MAX,
    ensures
        scanned is None <==> !all_digits(integer@ + fraction@),
        scanned matches Some((output, zeros, has_sticky)) ==> {
            let digits = integer@ + fraction@;
            let sig = digits.skip(zeros as int);
            &&& zeros as int == leading_zeros(digits)
            &&& output@ == (if negative { seq![0x2du8] } else { Seq::<u8>::empty() }) + mantissa_text(sig)
            &&& has_sticky == sticky(sig)
        },
{
    let ghost digits = integer@ + fraction@;
    let ilen = integer.len();
    let total = ilen + fraction.len();
    let mut output: Vec<u8> = Vec::new();
    if negative {
        output.push(0x2d);
    }
    let ghost sign = if negative { seq![0x2du8] } else { Seq::<u8>::empty() };
    let mut zeros: usize = 0;
    let mut retained: usize = 0;
    let mut has_sticky = false;
    let mut i: usize = 0;
    proof {
        assert(digits.take(0) =~= Seq::<u8>::empty());
        assert(Seq::<u8>::empty().skip(0) =~= Seq::<u8>::empty());
        assert(output@ =~= sign + mantissa_text(Seq::<u8>::empty()));
    }
    while i < total
        invariant
            i <= total,
            total == digits.len(),
            ilen == integer@.len(),
            digits == integer@ + fraction@,
            sign == (if negative { seq![0x2du8] } else { Seq::<u8>::empty() }),
            all_digits(digits.take(i as int)),
            zeros as int == leading_zeros(digits.take(i as int)),
            retained as int == (if i - zeros < SIGNIFICANT_DIGITS { i - zeros } else { SIGNIFICANT_DIGITS as int }),
            output@ == sign + mantissa_text(digits.take(i as int).skip(zeros as int)),
            has_sticky == sticky(digits.take(i as int).skip(zeros as int)),
        decreases total - i,
    {
        let byte = if i < ilen { integer[i] } else { fraction[i - ilen] };
        assert(byte == digits[i as int]);
        let ghost p = digits.take(i as int);
        proof {
            lemma_leading_zeros_push(p, byte);
            assert(digits.take(i + 1) =~= p.push(byte));
        }
        if !(0x30 <= byte && byte <= 0x39) {
            proof {
                assert(!is_digit(digits[i as int]));
            }
            return None;
        }
        proof {
            assert(all_digits(digits.take(i + 1))) by {
                assert forall|j: int| 0 <= j < i + 1 implies is_digit(#[trigger] digits.take(i + 1)[j]) by {
                    if j < i {
                        assert(digits.take(i + 1)[j] == p[j]);
                    }
                }
            }
        }
        if retained == 0 && byte == 0x30 {
            zeros = zeros + 1;
            proof {
                assert(p.push(byte).skip(zeros as int) =~= Seq::<u8>::empty());
                assert(p.skip(zeros - 1) =~= Seq::<u8>::empty());
            }
        } else {
            proof {
                assert(p.push(byte).skip(zeros as int) =~= p.skip(zeros as int).push(byte));
                lemma_significant_push(p.skip(zeros as int), byte);
            }
            if retained < SIGNIFICANT_DIGITS {
                if retained == 1 {
                    output.push(0x2e);
                }
                output.push(byte);
                retained = retained + 1;
                proof {
                    let sig = p.skip(zeros as int);
                    if sig.len() == 0 {
                        assert(output@ =~= sign + seq![byte]);
                    } else if sig.len() == 1 {
                        assert(mantissa_text(sig) =~= sig);
                        assert(output@ =~= sign + seq![sig[0], 0x2eu8, byte]);
                    } else {
                        assert(output@ =~= sign + mantissa_text(sig).push(byte));
                    }
                }
            } else {
                has_sticky = has_sticky || byte != 0x30;
            }
        }
        i = i + 1;
    }
    proof {
        assert(digits.take(total as int) =~= digits);
    }
    Some((output, zeros, has_sticky))
}

/// Position of the first `e` or `E` at or after `start`, or the end.
fn first_marker(bytes: &[u8], start: usize) -> (marker: usize)
    requires
        start <= bytes@.len(),
    ensures
        start <= marker <= bytes@.len(),
        exponent_marker(bytes@.subrange(start as int, bytes@.len() as int)) == (if marker < bytes@.len() {
            Some(marker - start)
        } else {
            None
        }),
{
    reveal(exponent_marker);
    let len = bytes.len();
    let ghost unsigned = bytes@.subrange(start as int, len as int);
    let mut marker = start;
    while marker < len && !(bytes[marker] == 0x65 || bytes[marker] == 0x45)
        invariant
            start <= marker <= len,
            len == bytes@.len(),
            unsigned == bytes@.subrange(start as int, len as int),
            forall|j: int| 0 <= j < marker - start ==> !(#[trigger] unsigned[j] == 0x65 || unsigned[j] == 0x45),
        decreases len - marker,
    {
        marker = marker + 1;
    }
    proof {
        if marker < len {
            let k = marker - start;
            assert(unsigned[k] == bytes@[marker as int]);
            let chosen = exponent_marker(unsigned)->0;
            if chosen < k {
                assert(!(unsigned[chosen] == 0x65 || unsigned[chosen] == 0x45));
            }
            if chosen > k {
                assert(!(unsigned[k] == 0x65 || unsigned[k] == 0x45));
            }
        } else {
            assert(!exists|i: int| 0 <= i < unsigned.len() && (#[trigger] unsigned[i] == 0x65 || unsigned[i] == 0x45));
        }
    }
    marker
}

/// Position of the first `.` in `start..end`, or `end`.
fn first_dot(bytes: &[u8], start: usize, end: usize) -> (dot: usize)
    requires
        start <= end <= bytes@.len(),
    ensures
        start <= dot <= end,
        dot_position(bytes@.subrange(start as int, end as int)) == (if dot < end {
            Some(dot - start)
        } else {
            None
        }),
{
    reveal(dot_position);
    let ghost coefficient = bytes@.subrange(start as int, end as int);
    let mut dot = start;
    while dot < end && bytes[dot] != 0x2e
        invariant
            start <= dot <= end <= bytes@.len(),
            coefficient == bytes@.subrange(start as int, end as int),
            forall|j: int| 0 <= j < dot - start ==> #[trigger] coefficient[j] != 0x2e,
        decreases end - dot,
    {
        dot = dot + 1;
    }
    proof {
        if dot < end {
            let k = dot - start;
            assert(coefficient[k] == bytes@[dot as int]);
            let chosen = dot_position(coefficient)->0;
            if chosen < k {
                assert(coefficient[chosen] != 0x2e);
            }
            if chosen > k {
                assert(coefficient[k] != 0x2e);
            }
        } else {
            assert(!exists|i: int| 0 <= i < coefficient.len() && #[trigger] coefficient[i] == 0x2e);
        }
    }
    dot
}

/// Locate the parts of a decimal: the sign, the start of the unsigned
/// text, the decimal point (or the exponent marker when absent) and the
/// exponent marker (or the end).
fn split_decimal(bytes: &[u8]) -> (split: Result<(bool, usize, usize, usize), DecimalError>)
    ensures
        match decimal_parts(bytes@) {
            Err(e) => split == Err::<(bool, usize, usize, usize), DecimalError>(e),
            Ok((negative, integer, fraction, exponent)) => split matches Ok((n, ustart, dot, marker)) && {
                &&& n == negative
                &&& ustart <= dot <= marker <= bytes@.len()
                &&& integer == bytes@.subrange(ustart as int, dot as int)
                &&& fraction == (if dot < marker { bytes@.subrange(dot + 1, marker as int) } else { Seq::<u8>::empty() })
                &&& exponent == (if marker < bytes@.len() { Some(bytes@.subrange(marker + 1, bytes@.len() as int)) } else { None })
            },
        },
{
    reveal(decimal_parts);
    let len = bytes.len();
    let negative = len > 0 && bytes[0] == 0x2d;
    let ustart: usize = if negative { 1 } else { 0 };
    let ghost unsigned = if negative { bytes@.skip(1) } else { bytes@ };
    proof {
        assert(unsigned =~= bytes@.subrange(ustart as int, len as int));
    }
    let marker = first_marker(bytes, ustart);
    let ghost coefficient = bytes@.subrange(ustart as int, marker as int);
    proof {
        if marker < len {
            assert(coefficient =~= unsigned.take(marker - ustart));
            assert(bytes@.subrange(marker + 1, len as int) =~= unsigned.skip(marker - ustart + 1));
        } else {
            assert(coefficient =~= unsigned);
        }
    }
    let dot = first_dot(bytes, ustart, marker);
    proof {
        if dot < marker {
            let k = dot - ustart;
            assert(bytes@.subrange(ustart as int, dot as int) =~= coefficient.take(k));
            assert(bytes@.subrange(dot + 1, marker as int) =~= coefficient.skip(k + 1));
        }
    }
    if dot < marker && dot + 1 == marker {
        return Err(DecimalError::InvalidDigit);
    }
    if dot == ustart || (dot - ustart > 1 && bytes[ustart] == 0x30) {
        proof {
            if dot - ustart > 1 {
                assert(bytes@.subrange(ustart as int, dot as int)[0] == bytes@[ustart as int]);
            }
        }
        return Err(DecimalError::InvalidDigit);
    }
    proof {
        assert(bytes@.subrange(ustart as int, dot as int)[0] == bytes@[ustart as int]);
    }
    Ok((negative, ustart, dot, marker))
}

/// Normalize a long decimal into a bounded form that converts to the same
/// binary64 value.
///
/// The grammar is checked here too: a direct caller cannot silently
/// normalize an invalid representation.
pub fn normalize(text: &str) -> (result: Result<Normalized, DecimalError>)
    requires
        text.spec_bytes().len() + 1100 <= usize::MAX,
    ensures
        match normalize_spec(text.spec_bytes()) {
            Ok(n) => result matches Ok(r) && r@ == n,
            Err(e) => result == Err::<Normalized, DecimalError>(e),
        },
{
    let bytes = text.as_bytes();
    let len = bytes.len();
    let (negative, ustart, dot, marker) = match split_decimal(bytes) {
        Ok(split) => split,
        Err(e) => {
            return Err(e);
        },
    };
    let integer = &bytes[ustart..dot];
    let fraction: &[u8] = if dot < marker { &bytes[dot + 1..marker] } else { &bytes[marker..marker] };
    proof {
        assert(bytes@.subrange(marker as int, marker as int) =~= Seq::<u8>::empty());
    }
    let exponent_text: Option<&[u8]> = if marker < len { Some(&bytes[marker + 1..len]) } else { None };
    let explicit = match explicit_exponent(exponent_text, len) {
        Ok(value) => value,
        Err(e) => {
            return Err(e);
        },
    };
    let (mut output, zeros, has_sticky) = match scan_digits(integer, fraction, negative) {
        Some(scanned) => scanned,
        None => {
            return Err(DecimalError::InvalidDigit);
        },
    };
    let ghost digits = integer@ + fraction@;
    let ghost sign = if negative { seq![0x2du8] } else { Seq::<u8>::empty() };
    let ilen = integer.len();
    proof {
        lemma_leading_zeros_push(digits, 0);
        assert(digits.skip(zeros as int).len() == 0 <==> zeros == digits.len());
    }
    if zeros == ilen + fraction.len() {
        return Ok(Normalized::Zero { negative });
    }
    let power = explicit + ilen as i128 - zeros as i128 - 1;
    if power < -324 {
        return Ok(Normalized::Zero { negative });
    }
    if power > 308 {
        return Ok(Normalized::Infinite { negative });
    }
    if has_sticky {
        // Appending, rather than incrementing, cannot carry across a midpoint.
        output.push(0x31);
    }
    output.push(0x65);
    let exponent_digits = signed_text(power as i64);
    crate::decimal::append(&mut output, exponent_digits.as_slice());
    proof {
        let sig = digits.skip(zeros as int);
        assert(output@ =~= sign + mantissa_text(sig) + (if sticky(sig) { seq![0x31u8] } else { Seq::<u8>::empty() }) + seq![0x65u8] + decimal(power as int));
    }
    Ok(Normalized::Decimal(output))
}

} // verus!
