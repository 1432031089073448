//! Which bytes a JSON string must escape, and how each byte is written.

use vstd::prelude::*;

verus! {

/// A byte that cannot appear unescaped inside a JSON string: a control
/// character, the quotation mark or the reverse solidus.
pub open spec fn needs_escape(byte: u8) -> bool {
    byte < 0x20 || byte == 0x22 || byte == 0x5c
}

/// Lower-case hexadecimal digit for a value below 16.
pub open spec fn hex_digit(value: int) -> u8 {
    if value < 10 {
        (0x30 + value) as u8
    } else {
        (0x57 + value) as u8
    }
}

/// The escape sequence written for a byte that needs escaping.
pub open spec fn escape_sequence(byte: u8) -> Seq<u8> {
    if byte == 0x22 {
        seq![0x5cu8, 0x22u8]
    } else if byte == 0x5c {
        seq![0x5cu8, 0x5cu8]
    } else if byte == 0x0a {
        seq![0x5cu8, 0x6eu8]
    } else if byte == 0x0d {
        seq![0x5cu8, 0x72u8]
    } else if byte == 0x09 {
        seq![0x5cu8, 0x74u8]
    } else if byte == 0x08 {
        seq![0x5cu8, 0x62u8]
    } else if byte == 0x0c {
        seq![0x5cu8, 0x66u8]
    } else {
        seq![0x5cu8, 0x75u8, 0x30u8, 0x30u8, hex_digit(byte as int / 16), hex_digit(byte as int % 16)]
    }
}

/// How one byte of string contents appears in JSON output.
pub open spec fn encode_byte(byte: u8) -> Seq<u8> {
    if needs_escape(byte) {
        escape_sequence(byte)
    } else {
        seq![byte]
    }
}

/// JSON string contents for the given UTF-8 bytes, without the quotes.
pub open spec fn escaped(bytes: Seq<u8>) -> Seq<u8>
    decreases bytes.len(),
{
    if bytes.len() == 0 {
        Seq::empty()
    } else {
        escaped(bytes.drop_last()) + encode_byte(bytes.last())
    }
}

/// A complete JSON string literal for the given bytes.
pub open spec fn quoted(bytes: Seq<u8>) -> Seq<u8> {
    seq![0x22u8] + escaped(bytes) + seq![0x22u8]
}

/// No byte of the sequence needs escaping.
pub open spec fn is_plain(bytes: Seq<u8>) -> bool {
    forall|i: int| 0 <= i < bytes.len() ==> !needs_escape(#[trigger] bytes[i])
}

/// Escaping distributes over concatenation.
pub proof fn lemma_escaped_concat(a: Seq<u8>, b: Seq<u8>)
    ensures
        escaped(a + b) == escaped(a) + escaped(b),
    decreases b.len(),
{
    if b.len() == 0 {
        assert(a + b =~= a);
        assert(escaped(b) =~= Seq::<u8>::empty());
        assert(escaped(a) + escaped(b) =~= escaped(a));
    } else {
        lemma_escaped_concat(a, b.drop_last());
        assert((a + b).drop_last() =~= a + b.drop_last());
        assert((a + b).last() == b.last());
        assert(escaped(a + b) == escaped(a + b.drop_last()) + encode_byte(b.last()));
        assert(escaped(b) == escaped(b.drop_last()) + encode_byte(b.last()));
        assert(escaped(a) + escaped(b) =~= escaped(a) + escaped(b.drop_last()) + encode_byte(
            b.last(),
        ));
    }
}

/// Escaping a plain sequence leaves it unchanged.
pub proof fn lemma_escaped_plain(bytes: Seq<u8>)
    requires
        is_plain(bytes),
    ensures
        escaped(bytes) == bytes,
    decreases bytes.len(),
{
    if bytes.len() > 0 {
        let prefix = bytes.drop_last();
        assert(is_plain(prefix)) by {
            assert forall|i: int| 0 <= i < prefix.len() implies !needs_escape(#[trigger] prefix[i]) by {
                assert(prefix[i] == bytes[i]);
            }
        }
        lemma_escaped_plain(prefix);
        assert(!needs_escape(bytes[bytes.len() - 1]));
        assert(escaped(bytes) =~= bytes);
    }
}

/// Escaping one byte gives its encoding.
pub proof fn lemma_escaped_single(byte: u8)
    ensures
        escaped(seq![byte]) == encode_byte(byte),
{
    assert(seq![byte].drop_last() =~= Seq::<u8>::empty());
    assert(escaped(Seq::<u8>::empty()) =~= Seq::<u8>::empty());
    assert(Seq::<u8>::empty() + encode_byte(byte) =~= encode_byte(byte));
}

/// The value of a hexadecimal digit of either case.
pub open spec fn hex_value(c: u8) -> Option<int> {
    if 0x30 <= c <= 0x39 {
        Some(c - 0x30)
    } else if 0x61 <= c <= 0x66 {
        Some(c - 0x57)
    } else if 0x41 <= c <= 0x46 {
        Some(c - 0x37)
    } else {
        None
    }
}

/// The byte a one-letter JSON escape `\c` stands for (RFC 8259, section 7).
pub open spec fn short_escape_byte(c: u8) -> Option<u8> {
    if c == 0x22 {
        Some(0x22u8)
    } else if c == 0x5c {
        Some(0x5cu8)
    } else if c == 0x2f {
        Some(0x2fu8)
    } else if c == 0x62 {
        Some(0x08u8)
    } else if c == 0x66 {
        Some(0x0cu8)
    } else if c == 0x6e {
        Some(0x0au8)
    } else if c == 0x72 {
        Some(0x0du8)
    } else if c == 0x74 {
        Some(0x09u8)
    } else {
        None
    }
}

/// The code point of a `\uXXXX` escape at the start of `s`, if its four
/// hexadecimal digits are there.
pub open spec fn unicode_escape_value(s: Seq<u8>) -> Option<int> {
    if s.len() >= 6 && s[0] == 0x5c && s[1] == 0x75 && hex_value(s[2]) is Some && hex_value(s[3]) is Some
        && hex_value(s[4]) is Some && hex_value(s[5]) is Some {
        Some(
            hex_value(s[2])->0 * 4096 + hex_value(s[3])->0 * 256 + hex_value(s[4])->0 * 16 + hex_value(
                s[5],
            )->0,
        )
    } else {
        None
    }
}

/// A byte in front of a decoded rest, when the rest decodes.
pub open spec fn prepend(byte: u8, rest: Option<Seq<u8>>) -> Option<Seq<u8>> {
    match rest {
        Some(t) => Some(seq![byte] + t),
        None => None,
    }
}

/// Decode JSON string contents, as RFC 8259 reads them between the quotes:
/// other bytes stand for themselves, a control byte or a bare quotation mark
/// is invalid, and an escape stands for the byte it names. `\uXXXX` is read
/// for code points below 0x80, which are single bytes in UTF-8; None for
/// anything else.
pub open spec fn unescape(s: Seq<u8>) -> Option<Seq<u8>>
    decreases s.len(),
{
    if s.len() == 0 {
        Some(Seq::empty())
    } else if s[0] == 0x5c {
        if s.len() >= 2 && short_escape_byte(s[1]) is Some {
            prepend(short_escape_byte(s[1])->0, unescape(s.skip(2)))
        } else if unicode_escape_value(s) is Some && unicode_escape_value(s)->0 < 0x80 {
            prepend(unicode_escape_value(s)->0 as u8, unescape(s.skip(6)))
        } else {
            None
        }
    } else if s[0] < 0x20 || s[0] == 0x22 {
        None
    } else {
        prepend(s[0], unescape(s.skip(1)))
    }
}

proof fn lemma_hex_digit_value(value: int)
    requires
        0 <= value < 16,
    ensures
        hex_value(hex_digit(value)) == Some(value),
{
}

/// Decoding one byte's encoding followed by more text gives the byte in
/// front of the rest's decoding.
proof fn lemma_unescape_encoded_byte(byte: u8, rest: Seq<u8>)
    ensures
        unescape(encode_byte(byte) + rest) == prepend(byte, unescape(rest)),
{
    let s = encode_byte(byte) + rest;
    if needs_escape(byte) {
        if byte == 0x22 || byte == 0x5c || byte == 0x0a || byte == 0x0d || byte == 0x09 || byte == 0x08
            || byte == 0x0c {
            assert(s.skip(2) =~= rest);
            assert(s[0] == 0x5c);
        } else {
            let high = byte as int / 16;
            let low = byte as int % 16;
            lemma_hex_digit_value(high);
            lemma_hex_digit_value(low);
            assert(s[0] == 0x5c && s[1] == 0x75 && s[2] == 0x30 && s[3] == 0x30);
            assert(s[4] == hex_digit(high) && s[5] == hex_digit(low));
            assert(short_escape_byte(s[1]) is None);
            assert(unicode_escape_value(s) == Some(byte as int));
            assert(s.skip(6) =~= rest);
        }
    } else {
        assert(s.skip(1) =~= rest);
    }
}

/// Escaping round-trips: decoding the JSON string contents written for any
/// bytes gives those bytes back, so each escape stands for the byte it was
/// written for and no two byte strings are written alike.
pub proof fn lemma_unescape_escaped(bytes: Seq<u8>)
    ensures
        unescape(escaped(bytes)) == Some(bytes),
    decreases bytes.len(),
{
    if bytes.len() > 0 {
        let b = bytes[0];
        let rest = bytes.skip(1);
        assert(seq![b] + rest =~= bytes);
        lemma_escaped_concat(seq![b], rest);
        lemma_escaped_single(b);
        lemma_unescape_escaped(rest);
        lemma_unescape_encoded_byte(b, escaped(rest));
        assert(seq![b] + rest == bytes);
    } else {
        assert(escaped(bytes) =~= Seq::<u8>::empty());
    }
}

/// Two byte strings written as the same JSON string contents are equal.
pub proof fn lemma_escaped_injective(a: Seq<u8>, b: Seq<u8>)
    requires
        escaped(a) == escaped(b),
    ensures
        a == b,
{
    lemma_unescape_escaped(a);
    lemma_unescape_escaped(b);
}

/// Bit `index` of a mask.
pub open spec fn bit(mask: u16, index: int) -> bool {
    (mask >> (index as u16)) & 1u16 == 1u16
}

proof fn lemma_set_bit(mask: u16, flag: u16, position: u16, index: u16)
    requires
        flag <= 1,
        position < 16,
        index < 16,
        forall|j: u16| position <= j < 16 ==> (mask >> j) & 1u16 == 0u16,
    ensures
        ((mask | (flag << position)) >> index) & 1u16 == (if index == position {
            flag
        } else {
            (mask >> index) & 1u16
        }),
        index > position ==> ((mask | (flag << position)) >> index) & 1u16 == 0u16,
{
    let m = mask;
    let f = flag;
    let p = position;
    let i = index;
    assert(((m >> i) & 1u16 == 0u16 || i < p) ==> true);
    if i < p {
        assert(f <= 1 && p < 16 && i < p ==> ((m | (f << p)) >> i) & 1u16 == (m >> i) & 1u16)
            by (bit_vector);
    } else if i == p {
        assert(f <= 1 && p < 16 && (m >> p) & 1u16 == 0u16 ==> ((m | (f << p)) >> p) & 1u16 == f)
            by (bit_vector);
    } else {
        assert((m >> i) & 1u16 == 0u16);
        assert(f <= 1 && p < 16 && i < 16 && p < i && (m >> i) & 1u16 == 0u16 ==> ((m | (f << p))
            >> i) & 1u16 == 0u16) by (bit_vector);
    }
}

/// Bit i is set exactly when byte i needs escaping in a JSON string.
pub fn portable(block: &[u8; 16]) -> (mask: u16)
    ensures
        forall|i: int| 0 <= i < 16 ==> bit(mask, i) == needs_escape(#[trigger] block@[i]),
{
    let mut mask: u16 = 0;
    let mut index: u16 = 0;
    proof {
        assert forall|j: u16| 0 <= j < 16 implies (0u16 >> j) & 1u16 == 0u16 by {
            assert((0u16 >> j) & 1u16 == 0u16) by (bit_vector);
        }
    }
    while index < 16
        invariant
            index <= 16,
            forall|i: int| 0 <= i < index ==> bit(mask, i) == needs_escape(#[trigger] block@[i]),
            forall|j: u16| index <= j < 16 ==> (mask >> j) & 1u16 == 0u16,
        decreases 16 - index,
    {
        let byte = block[index as usize];
        let flag: u16 = if byte < 0x20 || byte == 0x22 || byte == 0x5c {
            1
        } else {
            0
        };
        let ghost old_mask = mask;
        mask = mask | (flag << index);
        proof {
            assert forall|i: int| 0 <= i <= index implies bit(mask, i) == needs_escape(
                #[trigger] block@[i],
            ) by {
                lemma_set_bit(old_mask, flag, index, i as u16);
            }
            assert forall|j: u16| index + 1 <= j < 16 implies (mask >> j) & 1u16 == 0u16 by {
                lemma_set_bit(old_mask, flag, index, j);
            }
        }
        index = index + 1;
    }
    mask
}

/// Bit i is set exactly when byte i needs escaping in a JSON string.
pub fn mask(block: &[u8; 16]) -> (mask: u16)
    ensures
        forall|i: int| 0 <= i < 16 ==> bit(mask, i) == needs_escape(#[trigger] block@[i]),
{
    portable(block)
}

/// A 16-bit mask is determined by its bits: two masks that mark the same
/// bytes of a block as needing escapes are equal, so `mask` and `portable`
/// return the same value for every block.
pub proof fn lemma_escape_mask_unique(block: Seq<u8>, a: u16, b: u16)
    requires
        block.len() == 16,
        forall|i: int| 0 <= i < 16 ==> bit(a, i) == needs_escape(#[trigger] block[i]),
        forall|i: int| 0 <= i < 16 ==> bit(b, i) == needs_escape(#[trigger] block[i]),
    ensures
        a == b,
{
    assert forall|i: int| 0 <= i < 16 implies bit(a, i) == bit(b, i) by {
        assert(bit(a, i) == needs_escape(block[i]));
    }
    assert(bit(a, 0) == bit(b, 0));
    assert(bit(a, 1) == bit(b, 1));
    assert(bit(a, 2) == bit(b, 2));
    assert(bit(a, 3) == bit(b, 3));
    assert(bit(a, 4) == bit(b, 4));
    assert(bit(a, 5) == bit(b, 5));
    assert(bit(a, 6) == bit(b, 6));
    assert(bit(a, 7) == bit(b, 7));
    assert(bit(a, 8) == bit(b, 8));
    assert(bit(a, 9) == bit(b, 9));
    assert(bit(a, 10) == bit(b, 10));
    assert(bit(a, 11) == bit(b, 11));
    assert(bit(a, 12) == bit(b, 12));
    assert(bit(a, 13) == bit(b, 13));
    assert(bit(a, 14) == bit(b, 14));
    assert(bit(a, 15) == bit(b, 15));
    assert(a == b) by (bit_vector)
        requires
            ((a >> 0u16) & 1u16 == 1u16) == ((b >> 0u16) & 1u16 == 1u16),
            ((a >> 1u16) & 1u16 == 1u16) == ((b >> 1u16) & 1u16 == 1u16),
            ((a >> 2u16) & 1u16 == 1u16) == ((b >> 2u16) & 1u16 == 1u16),
            ((a >> 3u16) & 1u16 == 1u16) == ((b >> 3u16) & 1u16 == 1u16),
            ((a >> 4u16) & 1u16 == 1u16) == ((b >> 4u16) & 1u16 == 1u16),
            ((a >> 5u16) & 1u16 == 1u16) == ((b >> 5u16) & 1u16 == 1u16),
            ((a >> 6u16) & 1u16 == 1u16) == ((b >> 6u16) & 1u16 == 1u16),
            ((a >> 7u16) & 1u16 == 1u16) == ((b >> 7u16) & 1u16 == 1u16),
            ((a >> 8u16) & 1u16 == 1u16) == ((b >> 8u16) & 1u16 == 1u16),
            ((a >> 9u16) & 1u16 == 1u16) == ((b >> 9u16) & 1u16 == 1u16),
            ((a >> 10u16) & 1u16 == 1u16) == ((b >> 10u16) & 1u16 == 1u16),
            ((a >> 11u16) & 1u16 == 1u16) == ((b >> 11u16) & 1u16 == 1u16),
            ((a >> 12u16) & 1u16 == 1u16) == ((b >> 12u16) & 1u16 == 1u16),
            ((a >> 13u16) & 1u16 == 1u16) == ((b >> 13u16) & 1u16 == 1u16),
            ((a >> 14u16) & 1u16 == 1u16) == ((b >> 14u16) & 1u16 == 1u16),
            ((a >> 15u16) & 1u16 == 1u16) == ((b >> 15u16) & 1u16 == 1u16),
    ;
}

/// Length of the longest prefix that needs no escaping.
pub fn plain_string_prefix(bytes: &[u8]) -> (prefix: usize)
    ensures
        prefix <= bytes.len(),
        is_plain(bytes@.subrange(0, prefix as int)),
        prefix < bytes.len() ==> needs_escape(bytes@[prefix as int]),
{
    let mut index: usize = 0;
    while index < bytes.len()
        invariant
            index <= bytes.len(),
            is_plain(bytes@.subrange(0, index as int)),
        decreases bytes.len() - index,
    {
        let byte = bytes[index];
        if byte < 0x20 || byte == 0x22 || byte == 0x5c {
            return index;
        }
        proof {
            assert forall|i: int| 0 <= i < index + 1 implies !needs_escape(
                #[trigger] bytes@.subrange(0, index + 1)[i],
            ) by {
                if i < index {
                    assert(bytes@.subrange(0, index + 1)[i] == bytes@.subrange(0, index as int)[i]);
                }
            }
        }
        index = index + 1;
    }
    index
}

} // verus!
