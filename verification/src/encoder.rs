//! One output buffer for serialized JSON, with option bits, indentation, and
//! a bounded cache of encoded dictionary keys.

use vstd::prelude::*;
use vstd::string::StringSliceAdditionalSpecFns;
use crate::decimal::{append, decimal, signed_text, unsigned_text};
use crate::escape::{
    bit, encode_byte, escape_sequence, escaped, hex_digit, is_plain, lemma_escaped_concat,
    lemma_escaped_plain, lemma_escaped_single, mask as escape_mask, needs_escape, plain_string_prefix,
    quoted,
};
use crate::integer::{Integer, IntegerLayout};

verus! {

/// Indent nested values by two spaces per level.
pub const INDENT: i32 = 1;
/// Treat naive datetimes as UTC.
pub const NAIVE_UTC: i32 = 2;
/// Convert null, boolean, integer and float dictionary keys to strings.
pub const NON_STR_KEYS: i32 = 4;
/// Omit microseconds from times.
pub const OMIT_MICROSECONDS: i32 = 8;
/// Serialize NumPy values natively.
pub const SERIALIZE_NUMPY: i32 = 16;
/// Sort dictionary keys.
pub const SORT_KEYS: i32 = 32;
/// Reject integers outside the 53-bit range.
pub const STRICT_INTEGER: i32 = 64;
/// Write a UTC offset of zero as `Z`.
pub const UTC_Z: i32 = 128;
/// Leave str and int subclasses to the caller's serializer.
pub const PASSTHROUGH_SUBCLASS: i32 = 256;
/// Leave datetimes to the caller's serializer.
pub const PASSTHROUGH_DATETIME: i32 = 512;
/// End the output with a newline.
pub const APPEND_NEWLINE: i32 = 1024;
/// Leave dataclasses to the caller's serializer.
pub const PASSTHROUGH_DATACLASS: i32 = 2048;
/// Containers nested deeper than this are rejected.
pub const MAX_ENCODE_DEPTH: usize = 254;
/// Strings at least this long take the long-string path at the root.
pub const INITIAL_OUTPUT_CAPACITY: usize = 256;
/// Largest integer magnitude accepted under `STRICT_INTEGER`.
pub const MAX_SAFE_INTEGER: i64 = 9_007_199_254_740_991;

/// Growing the output failed; the caller constructs the Python exception.
#[derive(Clone, Copy, Debug, PartialEq, Eq, Structural)]
pub struct OutputAllocationError;

/// Why a scalar was not written.
#[derive(Clone, Copy, Debug, PartialEq, Eq, Structural)]
pub enum ScalarError {
    /// Growing the output failed.
    Allocation,
    /// `STRICT_INTEGER` is set and the integer lies outside the 53-bit range.
    IntegerExceeds53Bits,
}

/// An encoded key's identity and the output range holding its text.
#[derive(Clone, Copy, Debug, PartialEq, Eq, Structural)]
pub struct CachedKey {
    pub identity: usize,
    pub start: usize,
    pub end: usize,
}

/// A value that serializes without visiting children.
pub enum Scalar<'a> {
    Null,
    Boolean(bool),
    Text(&'a str),
    Integer(Integer),
    /// Shortest round-trip text of a finite float, or None for a non-finite one.
    Float(Option<&'a [u8]>),
    /// An empty list or tuple.
    EmptyArray,
    /// Raw output supplied by the caller, written as is.
    Fragment(&'a [u8]),
}

/// A dictionary key that is not a string, converted under `NON_STR_KEYS`.
pub enum KeyScalar<'a> {
    /// An exact string with its identity.
    Text(usize, &'a str),
    Null,
    Boolean(bool),
    Integer(Integer),
    Float(Option<&'a [u8]>),
    /// Any other key type, which the native serializer leaves to the caller.
    Other,
}

/// Bit of the identity filter used for an encoded key.
pub open spec fn identity_bit(identity: usize) -> u64 {
    1u64 << ((((identity >> 4u64) ^ (identity >> 10u64)) & 63) as u64)
}

/// One identity-filter bit chosen from address bits 4.. and 10...
pub fn key_identity_bit(identity: usize) -> (bit: u64)
    ensures
        bit == identity_bit(identity),
        bit != 0,
{
    let shift = ((identity >> 4u64) ^ (identity >> 10u64)) & 63;
    proof {
        assert(((identity >> 4u64) ^ (identity >> 10u64)) & 63 <= 63) by (bit_vector);
        let s = shift as u64;
        assert(s <= 63 ==> 1u64 << s != 0) by (bit_vector);
    }
    1u64 << (shift as u64)
}

/// Whether an integer is written under the option bits.
pub open spec fn integer_allowed(option: i32, value: Integer) -> bool {
    option & STRICT_INTEGER == 0 || match value {
        Integer::Signed(v) => -MAX_SAFE_INTEGER <= v <= MAX_SAFE_INTEGER,
        Integer::Unsigned(v) => v <= MAX_SAFE_INTEGER,
    }
}

/// Decimal text of an integer value.
pub open spec fn integer_text(value: Integer) -> Seq<u8> {
    match value {
        Integer::Signed(v) => decimal(v as int),
        Integer::Unsigned(v) => decimal(v as int),
    }
}

/// JSON text of a scalar, or None when the option bits reject it.
pub open spec fn scalar_text(option: i32, scalar: Scalar) -> Option<Seq<u8>> {
    match scalar {
        Scalar::Null => Some(seq![0x6eu8, 0x75u8, 0x6cu8, 0x6cu8]),
        Scalar::Boolean(b) => Some(if b {
            seq![0x74u8, 0x72u8, 0x75u8, 0x65u8]
        } else {
            seq![0x66u8, 0x61u8, 0x6cu8, 0x73u8, 0x65u8]
        }),
        Scalar::Text(t) => Some(quoted(t.spec_bytes())),
        Scalar::Integer(i) => if integer_allowed(option, i) {
            Some(integer_text(i))
        } else {
            None
        },
        Scalar::Float(Some(text)) => Some(text@),
        Scalar::Float(None) => Some(seq![0x6eu8, 0x75u8, 0x6cu8, 0x6cu8]),
        Scalar::EmptyArray => Some(seq![0x5bu8, 0x5du8]),
        Scalar::Fragment(bytes) => Some(bytes@),
    }
}

/// A line break followed by two spaces per level.
pub open spec fn indentation(levels: nat) -> Seq<u8> {
    seq![0x0au8] + Seq::new(2 * levels, |i: int| 0x20u8)
}

/// `new` extends `old` by `appended` on success; a failure leaves some
/// extension of `old`, and only a checked encoder can fail.
pub open spec fn extended_by(
    checked: bool,
    old: Seq<u8>,
    new: Seq<u8>,
    appended: Seq<u8>,
    ok: bool,
) -> bool {
    if ok {
        new == old + appended
    } else {
        checked && old.is_prefix_of(new)
    }
}

/// A successful extension followed by another step composes.
pub proof fn lemma_extended_chain(
    checked: bool,
    a: Seq<u8>,
    b: Seq<u8>,
    c: Seq<u8>,
    x: Seq<u8>,
    y: Seq<u8>,
    ok: bool,
)
    requires
        b == a + x,
        extended_by(checked, b, c, y, ok),
    ensures
        extended_by(checked, a, c, x + y, ok),
{
    if ok {
        assert(c =~= a + (x + y));
    } else {
        assert(c.subrange(0, a.len() as int) =~= c.subrange(0, b.len() as int).subrange(
            0,
            a.len() as int,
        ));
        assert(b.subrange(0, a.len() as int) =~= a);
    }
}

/// Serialized output plus the state that shapes it.
pub struct Encoder {
    output: Vec<u8>,
    option: i32,
    base_depth: usize,
    dataclass_root: bool,
    checked: bool,
    integer_layout: IntegerLayout,
    keys: Vec<CachedKey>,
    key_texts: Ghost<Seq<Seq<u8>>>,
    key_mask: u64,
}

impl Encoder {
    /// The bytes written so far.
    pub closed spec fn bytes(&self) -> Seq<u8> {
        self.output@
    }

    /// Option bits.
    pub closed spec fn flags(&self) -> i32 {
        self.option
    }

    /// Containers already open in the caller's serializer.
    pub closed spec fn base(&self) -> usize {
        self.base_depth
    }

    /// Dataclass fields keep their order and check depth before counting their object.
    pub closed spec fn root_is_dataclass(&self) -> bool {
        self.dataclass_root
    }

    /// Whether growth failures are reported rather than aborting.
    pub closed spec fn is_checked(&self) -> bool {
        self.checked
    }

    /// Cached integer layout decision.
    pub closed spec fn layout(&self) -> IntegerLayout {
        self.integer_layout
    }

    /// Option bits.
    pub fn option(&self) -> (option: i32)
        ensures
            option == self.flags(),
    {
        self.option
    }

    /// Containers already open in the caller's serializer.
    pub fn base_depth(&self) -> (depth: usize)
        ensures
            depth == self.base(),
    {
        self.base_depth
    }

    /// Whether the root is a dataclass's fields.
    pub fn dataclass_root(&self) -> (dataclass_root: bool)
        ensures
            dataclass_root == self.root_is_dataclass(),
    {
        self.dataclass_root
    }

    /// The cached keys in insertion order.
    pub closed spec fn cached_keys(&self) -> Seq<CachedKey> {
        self.keys@
    }

    /// The text each cached key was encoded from.
    pub closed spec fn cached_texts(&self) -> Seq<Seq<u8>> {
        self.key_texts@
    }

    /// Each cached range lies in the output and holds its key's quoted text;
    /// an unchecked encoder's filter has the bit of every cached identity.
    pub closed spec fn wf(&self) -> bool {
        &&& self.keys@.len() == self.key_texts@.len()
        &&& self.keys@.len() <= 16
        &&& forall|i: int| 0 <= i < self.keys@.len() ==> {
            let k = #[trigger] self.keys@[i];
            &&& k.start <= k.end <= self.output@.len()
            &&& self.output@.subrange(k.start as int, k.end as int) == quoted(self.key_texts@[i])
        }
        &&& !self.checked ==> forall|i: int| 0 <= i < self.keys@.len() ==> self.key_mask
            & identity_bit(#[trigger] self.keys@[i].identity) != 0
    }

    /// An encoder with empty output and an empty key cache.
    pub fn new(option: i32, base_depth: usize, dataclass_root: bool, capacity: usize) -> (encoder: Self)
        ensures
            encoder.wf(),
            encoder.bytes() == Seq::<u8>::empty(),
            encoder.cached_keys() == Seq::<CachedKey>::empty(),
            encoder.flags() == option,
            encoder.base() == base_depth,
            encoder.root_is_dataclass() == dataclass_root,
            !encoder.is_checked(),
            encoder.layout() == IntegerLayout::Unchecked,
    {
        Encoder {
            output: Vec::with_capacity(capacity),
            option,
            base_depth,
            dataclass_root,
            checked: false,
            integer_layout: IntegerLayout::Unchecked,
            keys: Vec::new(),
            key_texts: Ghost(Seq::empty()),
            key_mask: 0,
        }
    }

    /// The same encoder, reporting growth failures from now on.
    pub fn into_checked(self) -> (encoder: Self)
        requires
            self.wf(),
        ensures
            encoder.wf(),
            encoder.is_checked(),
            encoder.bytes() == self.bytes(),
            encoder.cached_keys() == self.cached_keys(),
            encoder.cached_texts() == self.cached_texts(),
            encoder.flags() == self.flags(),
            encoder.base() == self.base(),
            encoder.root_is_dataclass() == self.root_is_dataclass(),
            encoder.layout() == self.layout(),
    {
        Encoder {
            output: self.output,
            option: self.option,
            base_depth: self.base_depth,
            dataclass_root: self.dataclass_root,
            checked: true,
            integer_layout: self.integer_layout,
            keys: self.keys,
            key_texts: self.key_texts,
            key_mask: self.key_mask,
        }
    }

    /// Clear the output and the key cache, keeping the option bits.
    pub fn clear(&mut self)
        ensures
            final(self).wf(),
            final(self).bytes() == Seq::<u8>::empty(),
            final(self).cached_keys() == Seq::<CachedKey>::empty(),
            final(self).flags() == old(self).flags(),
            final(self).base() == old(self).base(),
            final(self).root_is_dataclass() == old(self).root_is_dataclass(),
            final(self).is_checked() == old(self).is_checked(),
            final(self).layout() == old(self).layout(),
    {
        self.output.clear();
        self.keys.clear();
        self.key_texts = Ghost(Seq::empty());
        self.key_mask = 0;
    }

    /// Give up the written bytes.
    pub fn into_bytes(self) -> (bytes: Vec<u8>)
        ensures
            bytes@ == self.bytes(),
    {
        self.output
    }

    /// Borrow the written bytes.
    pub fn as_bytes(&self) -> (bytes: &[u8])
        ensures
            bytes@ == self.bytes(),
    {
        self.output.as_slice()
    }

    /// Number of bytes written.
    pub fn len(&self) -> (len: usize)
        ensures
            len == self.bytes().len(),
    {
        self.output.len()
    }

    proof fn lemma_extend_keeps_wf(old_self: Self, new_self: Self)
        requires
            old_self.wf(),
            new_self.keys == old_self.keys,
            new_self.key_texts == old_self.key_texts,
            new_self.key_mask == old_self.key_mask,
            new_self.is_checked() == old_self.is_checked(),
            new_self.output@.len() >= old_self.output@.len(),
            new_self.output@.subrange(0, old_self.output@.len() as int) == old_self.output@,
        ensures
            new_self.wf(),
    {
        assert forall|i: int| 0 <= i < new_self.keys@.len() implies {
            let k = #[trigger] new_self.keys@[i];
            &&& k.start <= k.end <= new_self.output@.len()
            &&& new_self.output@.subrange(k.start as int, k.end as int) == quoted(
                new_self.key_texts@[i],
            )
        } by {
            let k = new_self.keys@[i];
            let n = old_self.output@.len() as int;
            assert(old_self.keys@[i] == k);
            assert(new_self.output@.subrange(k.start as int, k.end as int) =~= new_self.output@.subrange(0, n).subrange(
                k.start as int,
                k.end as int,
            ));
        }
    }

    /// Make room for `additional` bytes; only a checked encoder can fail.
    pub fn reserve(&mut self, additional: usize) -> (result: Result<(), OutputAllocationError>)
        requires
            old(self).wf(),
        ensures
            final(self).wf(),
            final(self).bytes() == old(self).bytes(),
            final(self).cached_keys() == old(self).cached_keys(),
            final(self).cached_texts() == old(self).cached_texts(),
            final(self).flags() == old(self).flags(),
            final(self).base() == old(self).base(),
            final(self).root_is_dataclass() == old(self).root_is_dataclass(),
            final(self).is_checked() == old(self).is_checked(),
            final(self).layout() == old(self).layout(),
            result is Err ==> old(self).is_checked(),
            old(self).is_checked() && old(self).bytes().len() + additional > isize::MAX ==> result is Err,
    {
        if self.checked {
            // A capacity beyond isize::MAX bytes cannot be allocated.
            let needed = match self.output.len().checked_add(additional) {
                Some(needed) => needed,
                None => {
                    return Err(OutputAllocationError);
                },
            };
            if needed > isize::MAX as usize {
                return Err(OutputAllocationError);
            }
            match self.output.try_reserve(additional) {
                Ok(()) => Ok(()),
                Err(_) => Err(OutputAllocationError),
            }
        } else {
            self.output.reserve(additional);
            Ok(())
        }
    }

    /// Whether only the output changed between two states of the encoder.
    pub open spec fn same_state(&self, other: &Self) -> bool {
        &&& self.cached_keys() == other.cached_keys()
        &&& self.cached_texts() == other.cached_texts()
        &&& self.same_settings(other)
    }

    /// Whether the option bits, depths, checking and layout agree.
    pub open spec fn same_settings(&self, other: &Self) -> bool {
        &&& self.flags() == other.flags()
        &&& self.base() == other.base()
        &&& self.root_is_dataclass() == other.root_is_dataclass()
        &&& self.is_checked() == other.is_checked()
        &&& self.layout() == other.layout()
    }

    /// Append one byte.
    pub fn push(&mut self, byte: u8) -> (result: Result<(), OutputAllocationError>)
        requires
            old(self).wf(),
        ensures
            final(self).wf(),
            extended_by(old(self).is_checked(), old(self).bytes(), final(self).bytes(), seq![byte], result is Ok),
            final(self).cached_keys() == old(self).cached_keys(),
            final(self).cached_texts() == old(self).cached_texts(),
            final(self).flags() == old(self).flags(),
            final(self).base() == old(self).base(),
            final(self).root_is_dataclass() == old(self).root_is_dataclass(),
            final(self).is_checked() == old(self).is_checked(),
            final(self).layout() == old(self).layout(),
    {
        if self.checked {
            self.reserve(1)?;
        }
        let ghost before = *self;
        self.output.push(byte);
        proof {
            assert(self.output@ =~= before.output@ + seq![byte]);
            assert(self.output@.subrange(0, before.output@.len() as int) =~= before.output@);
            Self::lemma_extend_keeps_wf(before, *self);
        }
        Ok(())
    }

    /// End a serialized document: a newline when `APPEND_NEWLINE` is set,
    /// nothing otherwise.
    pub fn finish(&mut self) -> (result: Result<(), OutputAllocationError>)
        requires
            old(self).wf(),
        ensures
            final(self).wf(),
            final(self).same_state(&*old(self)),
            extended_by(
                old(self).is_checked(),
                old(self).bytes(),
                final(self).bytes(),
                document_end(old(self).flags()),
                result is Ok,
            ),
    {
        if self.option & APPEND_NEWLINE != 0 {
            self.push(0x0a)
        } else {
            proof {
                assert(self.output@ =~= self.output@ + Seq::<u8>::empty());
            }
            Ok(())
        }
    }

    /// Append a run of bytes.
    pub fn extend(&mut self, bytes: &[u8]) -> (result: Result<(), OutputAllocationError>)
        requires
            old(self).wf(),
        ensures
            final(self).wf(),
            extended_by(old(self).is_checked(), old(self).bytes(), final(self).bytes(), bytes@, result is Ok),
            final(self).cached_keys() == old(self).cached_keys(),
            final(self).cached_texts() == old(self).cached_texts(),
            final(self).flags() == old(self).flags(),
            final(self).base() == old(self).base(),
            final(self).root_is_dataclass() == old(self).root_is_dataclass(),
            final(self).is_checked() == old(self).is_checked(),
            final(self).layout() == old(self).layout(),
    {
        if self.checked {
            self.reserve(bytes.len())?;
        }
        let ghost before = *self;
        append(&mut self.output, bytes);
        proof {
            assert(self.output@.subrange(0, before.output@.len() as int) =~= before.output@);
            Self::lemma_extend_keeps_wf(before, *self);
        }
        Ok(())
    }

    /// Write a byte already identified as a JSON escape.
    pub fn escape_byte(&mut self, byte: u8) -> (result: Result<(), OutputAllocationError>)
        requires
            old(self).wf(),
        ensures
            final(self).wf(),
            final(self).same_state(&*old(self)),
            extended_by(
                old(self).is_checked(),
                old(self).bytes(),
                final(self).bytes(),
                escape_sequence(byte),
                result is Ok,
            ),
    {
        if byte == 0x22 {
            self.extend(&[0x5cu8, 0x22u8])
        } else if byte == 0x5c {
            self.extend(&[0x5cu8, 0x5cu8])
        } else if byte == 0x0a {
            self.extend(&[0x5cu8, 0x6eu8])
        } else if byte == 0x0d {
            self.extend(&[0x5cu8, 0x72u8])
        } else if byte == 0x09 {
            self.extend(&[0x5cu8, 0x74u8])
        } else if byte == 0x08 {
            self.extend(&[0x5cu8, 0x62u8])
        } else if byte == 0x0c {
            self.extend(&[0x5cu8, 0x66u8])
        } else {
            proof {
                assert(byte >> 4u8 == byte / 16) by (bit_vector);
                assert(byte & 15u8 == byte % 16) by (bit_vector);
            }
            let high = hex(byte >> 4u8);
            let low = hex(byte & 15u8);
            let r = self.extend(&[0x5cu8, 0x75u8, 0x30u8, 0x30u8, high, low]);
            proof {
                assert(seq![0x5cu8, 0x75u8, 0x30u8, 0x30u8, high, low] =~= escape_sequence(byte));
            }
            r
        }
    }

    /// Write the escaped contents of a JSON string, without quotes.
    ///
    /// Plain runs are copied whole; a 16-byte block with two or more escapes
    /// is written from its escape mask.
    pub fn string_contents(&mut self, bytes: &[u8]) -> (result: Result<(), OutputAllocationError>)
        requires
            old(self).wf(),
        ensures
            final(self).wf(),
            final(self).same_state(&*old(self)),
            extended_by(
                old(self).is_checked(),
                old(self).bytes(),
                final(self).bytes(),
                escaped(bytes@),
                result is Ok,
            ),
    {
        let ghost start = self.bytes();
        let mut position: usize = 0;
        proof {
            assert(bytes@.subrange(0, 0) =~= Seq::<u8>::empty());
            assert(start + escaped(Seq::<u8>::empty()) =~= start);
        }
        while position < bytes.len()
            invariant
                self.wf(),
                self.same_state(&*old(self)),
                start == old(self).bytes(),
                position <= bytes.len(),
                self.bytes() == start + escaped(bytes@.subrange(0, position as int)),
            decreases bytes.len() - position,
        {
            let ghost before = self.bytes();
            let ghost done = bytes@.subrange(0, position as int);
            let remaining = &bytes[position..bytes.len()];
            let prefix = plain_string_prefix(remaining);
            let run = &remaining[0..prefix];
            let r = self.extend(run);
            proof {
                lemma_escaped_plain(run@);
                lemma_extended_chain(self.is_checked(), start, before, self.bytes(), escaped(done), run@, r is Ok);
                assert(bytes@.subrange(0, position + prefix) =~= done + run@);
                lemma_escaped_concat(done, run@);
            }
            if r.is_err() {
                proof {
                    lemma_escaped_concat(done, bytes@.subrange(position as int, bytes@.len() as int));
                }
                return Err(OutputAllocationError);
            }
            position = position + prefix;
            if position < bytes.len() {
                let ghost before = self.bytes();
                let ghost done = bytes@.subrange(0, position as int);
                let byte = bytes[position];
                assert(needs_escape(byte));
                if bytes.len() - position >= 16 {
                    let mut block = [0u8; 16];
                    let mut i: usize = 0;
                    while i < 16
                        invariant
                            i <= 16,
                            position + 16 <= bytes.len(),
                            forall|j: int| 0 <= j < i ==> block@[j] == bytes@[position + j],
                        decreases 16 - i,
                    {
                        block[i] = bytes[position + i];
                        i = i + 1;
                    }
                    let escapes = escape_mask(&block);
                    if escapes & escapes.wrapping_sub(1) != 0 {
                        let r = self.write_block(&block, escapes);
                        proof {
                            assert(block@ =~= bytes@.subrange(position as int, position + 16));
                            lemma_extended_chain(self.is_checked(), start, before, self.bytes(), escaped(done), escaped(block@), r is Ok);
                            assert(bytes@.subrange(0, position + 16) =~= done + block@);
                            lemma_escaped_concat(done, block@);
                        }
                        if r.is_err() {
                            return Err(OutputAllocationError);
                        }
                        position = position + 16;
                        continue;
                    }
                }
                let r = self.escape_byte(byte);
                proof {
                    lemma_escaped_single(byte);
                    assert(encode_byte(byte) == escape_sequence(byte));
                    lemma_extended_chain(self.is_checked(), start, before, self.bytes(), escaped(done), escape_sequence(byte), r is Ok);
                    assert(bytes@.subrange(0, position + 1) =~= done + seq![byte]);
                    lemma_escaped_concat(done, seq![byte]);
                }
                if r.is_err() {
                    return Err(OutputAllocationError);
                }
                position = position + 1;
            }
        }
        proof {
            assert(bytes@.subrange(0, bytes@.len() as int) =~= bytes@);
        }
        Ok(())
    }

    /// Write a 16-byte block whose escapes are the set bits of `escapes`.
    fn write_block(&mut self, block: &[u8; 16], escapes: u16) -> (result: Result<(), OutputAllocationError>)
        requires
            old(self).wf(),
            forall|i: int| 0 <= i < 16 ==> bit(escapes, i) == needs_escape(#[trigger] block@[i]),
        ensures
            final(self).wf(),
            final(self).same_state(&*old(self)),
            extended_by(
                old(self).is_checked(),
                old(self).bytes(),
                final(self).bytes(),
                escaped(block@),
                result is Ok,
            ),
    {
        let ghost start = self.bytes();
        let mut start_index: usize = 0;
        let mut index: usize = 0;
        proof {
            assert(block@.subrange(0, 0) =~= Seq::<u8>::empty());
            assert(start + escaped(Seq::<u8>::empty()) =~= start);
        }
        while index < 16
            invariant
                self.wf(),
                self.same_state(&*old(self)),
                start == old(self).bytes(),
                start_index <= index <= 16,
                forall|i: int| 0 <= i < 16 ==> bit(escapes, i) == needs_escape(#[trigger] block@[i]),
                is_plain(block@.subrange(start_index as int, index as int)),
                self.bytes() == start + escaped(block@.subrange(0, start_index as int)),
            decreases 16 - index,
        {
            let set = (escapes >> (index as u16)) & 1u16 == 1u16;
            assert(set == bit(escapes, index as int));
            if set {
                let ghost before = self.bytes();
                let ghost done = block@.subrange(0, start_index as int);
                let run = &block[start_index..index];
                proof {
                    assert(run@ =~= block@.subrange(start_index as int, index as int));
                }
                let r = self.extend(run);
                proof {
                    lemma_escaped_plain(run@);
                    lemma_extended_chain(self.is_checked(), start, before, self.bytes(), escaped(done), run@, r is Ok);
                    lemma_escaped_concat(done, run@);
                    assert(done + run@ =~= block@.subrange(0, index as int));
                }
                if r.is_err() {
                    return Err(OutputAllocationError);
                }
                let ghost before = self.bytes();
                let ghost done = block@.subrange(0, index as int);
                let byte = block[index];
                let r = self.escape_byte(byte);
                proof {
                    lemma_escaped_single(byte);
                    lemma_extended_chain(self.is_checked(), start, before, self.bytes(), escaped(done), escape_sequence(byte), r is Ok);
                    lemma_escaped_concat(done, seq![byte]);
                    assert(done + seq![byte] =~= block@.subrange(0, index + 1));
                }
                if r.is_err() {
                    return Err(OutputAllocationError);
                }
                start_index = index + 1;
                proof {
                    assert(block@.subrange(start_index as int, start_index as int) =~= Seq::<u8>::empty());
                }
            } else {
                proof {
                    assert forall|i: int| 0 <= i < index + 1 - start_index implies !needs_escape(
                        #[trigger] block@.subrange(start_index as int, index + 1)[i],
                    ) by {
                        if i < index - start_index {
                            assert(block@.subrange(start_index as int, index + 1)[i]
                                == block@.subrange(start_index as int, index as int)[i]);
                        }
                    }
                }
            }
            index = index + 1;
        }
        let ghost before = self.bytes();
        let ghost done = block@.subrange(0, start_index as int);
        let run = &block[start_index..16];
        proof {
            assert(run@ =~= block@.subrange(start_index as int, 16));
        }
        let r = self.extend(run);
        proof {
            lemma_escaped_plain(run@);
            lemma_extended_chain(self.is_checked(), start, before, self.bytes(), escaped(done), run@, r is Ok);
            lemma_escaped_concat(done, run@);
            assert(done + run@ =~= block@);
        }
        r
    }
}

impl Encoder {
    /// Write a complete JSON string literal.
    pub fn string(&mut self, value: &str) -> (result: Result<(), OutputAllocationError>)
        requires
            old(self).wf(),
            value.spec_bytes().len() + 2 <= usize::MAX,
        ensures
            final(self).wf(),
            final(self).same_state(&*old(self)),
            extended_by(
                old(self).is_checked(),
                old(self).bytes(),
                final(self).bytes(),
                quoted(value.spec_bytes()),
                result is Ok,
            ),
    {
        let bytes = value.as_bytes();
        let ghost start = self.bytes();
        // Avoid growing again just for the closing quote of a long plain prefix.
        if bytes.len() >= INITIAL_OUTPUT_CAPACITY {
            let r = self.reserve(bytes.len() + 2);
            if r.is_err() {
                proof {
                    assert(start.subrange(0, start.len() as int) =~= start);
                }
                return Err(OutputAllocationError);
            }
        }
        let r = self.push(0x22);
        if r.is_err() {
            return Err(OutputAllocationError);
        }
        let ghost before = self.bytes();
        let r = self.string_contents(bytes);
        proof {
            lemma_extended_chain(self.is_checked(), start, before, self.bytes(), seq![0x22u8], escaped(bytes@), r is Ok);
        }
        if r.is_err() {
            return Err(OutputAllocationError);
        }
        let ghost before = self.bytes();
        let r = self.push(0x22);
        proof {
            lemma_extended_chain(self.is_checked(), start, before, self.bytes(), seq![0x22u8] + escaped(bytes@), seq![0x22u8], r is Ok);
        }
        r
    }

    /// Start a new line indented by the container depth, when indenting.
    pub fn newline(&mut self, depth: usize) -> (result: Result<(), OutputAllocationError>)
        requires
            old(self).wf(),
            (depth + old(self).base()) * 2 + 1 <= usize::MAX,
        ensures
            final(self).wf(),
            final(self).same_state(&*old(self)),
            extended_by(
                old(self).is_checked(),
                old(self).bytes(),
                final(self).bytes(),
                if old(self).flags() & INDENT != 0 {
                    indentation((depth + old(self).base()) as nat)
                } else {
                    Seq::empty()
                },
                result is Ok,
            ),
    {
        let ghost start = self.bytes();
        if self.option & INDENT != 0 {
            let count = (depth + self.base_depth) * 2;
            if self.checked {
                let r = self.reserve(1 + count);
                if r.is_err() {
                    proof {
                        assert(start.subrange(0, start.len() as int) =~= start);
                    }
                    return Err(OutputAllocationError);
                }
            }
            let ghost before = *self;
            self.output.push(0x0a);
            let mut written: usize = 0;
            while written < count
                invariant
                    written <= count,
                    count == (depth + before.base()) * 2,
                    self.output@ == before.output@ + seq![0x0au8] + Seq::new(
                        written as nat,
                        |i: int| 0x20u8,
                    ),
                    self.keys == before.keys,
                    self.key_texts == before.key_texts,
                    self.key_mask == before.key_mask,
                    self.checked == before.checked,
                    self.option == before.option,
                    self.base_depth == before.base_depth,
                    self.dataclass_root == before.dataclass_root,
                    self.integer_layout == before.integer_layout,
                decreases count - written,
            {
                self.output.push(0x20);
                written = written + 1;
                proof {
                    assert(self.output@ =~= before.output@ + seq![0x0au8] + Seq::new(
                        written as nat,
                        |i: int| 0x20u8,
                    ));
                }
            }
            proof {
                assert(self.output@ =~= before.output@ + indentation((depth + before.base()) as nat));
                assert(self.output@.subrange(0, before.output@.len() as int) =~= before.output@);
                Self::lemma_extend_keeps_wf(before, *self);
            }
        } else {
            proof {
                assert(start + Seq::<u8>::empty() =~= start);
            }
        }
        Ok(())
    }

    /// Write an integer, rejecting one outside the 53-bit range under
    /// `STRICT_INTEGER` before any output.
    pub fn integer(&mut self, value: Integer) -> (result: Result<(), ScalarError>)
        requires
            old(self).wf(),
        ensures
            final(self).wf(),
            final(self).same_state(&*old(self)),
            !integer_allowed(old(self).flags(), value) ==> result == Err::<(), ScalarError>(
                ScalarError::IntegerExceeds53Bits,
            ) && final(self).bytes() == old(self).bytes(),
            integer_allowed(old(self).flags(), value) ==> result != Err::<(), ScalarError>(
                ScalarError::IntegerExceeds53Bits,
            ) && extended_by(
                old(self).is_checked(),
                old(self).bytes(),
                final(self).bytes(),
                integer_text(value),
                result is Ok,
            ),
    {
        let text = match value {
            Integer::Signed(v) => {
                if self.option & STRICT_INTEGER != 0 && !(-MAX_SAFE_INTEGER <= v && v <= MAX_SAFE_INTEGER) {
                    return Err(ScalarError::IntegerExceeds53Bits);
                }
                signed_text(v)
            },
            Integer::Unsigned(v) => {
                if self.option & STRICT_INTEGER != 0 && v > MAX_SAFE_INTEGER as u64 {
                    return Err(ScalarError::IntegerExceeds53Bits);
                }
                unsigned_text(v)
            },
        };
        match self.extend(text.as_slice()) {
            Ok(()) => Ok(()),
            Err(_) => Err(ScalarError::Allocation),
        }
    }

    /// Write a scalar value.
    pub fn scalar(&mut self, scalar: Scalar) -> (result: Result<(), ScalarError>)
        requires
            old(self).wf(),
            scalar matches Scalar::Text(t) ==> t.spec_bytes().len() + 2 <= usize::MAX,
        ensures
            final(self).wf(),
            final(self).same_state(&*old(self)),
            match scalar_text(old(self).flags(), scalar) {
                None => result == Err::<(), ScalarError>(ScalarError::IntegerExceeds53Bits)
                    && final(self).bytes() == old(self).bytes(),
                Some(text) => result != Err::<(), ScalarError>(ScalarError::IntegerExceeds53Bits)
                    && extended_by(
                    old(self).is_checked(),
                    old(self).bytes(),
                    final(self).bytes(),
                    text,
                    result is Ok,
                ),
            },
    {
        let written = match scalar {
            Scalar::Null => self.extend(&[0x6eu8, 0x75u8, 0x6cu8, 0x6cu8]),
            Scalar::Boolean(b) => if b {
                self.extend(&[0x74u8, 0x72u8, 0x75u8, 0x65u8])
            } else {
                self.extend(&[0x66u8, 0x61u8, 0x6cu8, 0x73u8, 0x65u8])
            },
            Scalar::Text(t) => self.string(t),
            Scalar::Integer(i) => {
                return self.integer(i);
            },
            Scalar::Float(Some(text)) => self.extend(text),
            Scalar::Float(None) => self.extend(&[0x6eu8, 0x75u8, 0x6cu8, 0x6cu8]),
            Scalar::EmptyArray => self.extend(&[0x5bu8, 0x5du8]),
            Scalar::Fragment(bytes) => self.extend(bytes),
        };
        proof {
            assert(seq![0x6eu8, 0x75u8, 0x6cu8, 0x6cu8] =~= [0x6eu8, 0x75u8, 0x6cu8, 0x6cu8]@);
        }
        match written {
            Ok(()) => Ok(()),
            Err(_) => Err(ScalarError::Allocation),
        }
    }
}

/// Entry `index` is the first cached key with this identity.
pub open spec fn first_match(keys: Seq<CachedKey>, identity: usize, index: int) -> bool {
    &&& 0 <= index < keys.len()
    &&& keys[index].identity == identity
    &&& forall|j: int| 0 <= j < index ==> (#[trigger] keys[j]).identity != identity
}

/// Whether a key write reuses a cached encoding: the output has reached
/// 1024 bytes and some cached key has the same identity.
pub open spec fn key_cache_hit(bytes: Seq<u8>, keys: Seq<CachedKey>, identity: usize) -> bool {
    bytes.len() >= 1024 && exists|i: int| 0 <= i < keys.len() && (#[trigger] keys[i]).identity == identity
}

impl Encoder {
    /// Append a copy of earlier output.
    pub fn duplicate(&mut self, start: usize, end: usize) -> (result: Result<(), OutputAllocationError>)
        requires
            old(self).wf(),
            start <= end <= old(self).bytes().len(),
        ensures
            final(self).wf(),
            final(self).same_state(&*old(self)),
            extended_by(
                old(self).is_checked(),
                old(self).bytes(),
                final(self).bytes(),
                old(self).bytes().subrange(start as int, end as int),
                result is Ok,
            ),
    {
        let ghost start_bytes = self.bytes();
        if self.checked {
            let r = self.reserve(end - start);
            if r.is_err() {
                proof {
                    assert(start_bytes.subrange(0, start_bytes.len() as int) =~= start_bytes);
                }
                return Err(OutputAllocationError);
            }
        }
        let ghost before = *self;
        let mut index = start;
        while index < end
            invariant
                start <= index <= end,
                end <= before.output@.len(),
                self.output@ == before.output@ + before.output@.subrange(start as int, index as int),
                self.keys == before.keys,
                self.key_texts == before.key_texts,
                self.key_mask == before.key_mask,
                self.checked == before.checked,
                self.option == before.option,
                self.base_depth == before.base_depth,
                self.dataclass_root == before.dataclass_root,
                self.integer_layout == before.integer_layout,
            decreases end - index,
        {
            let byte = self.output[index];
            self.output.push(byte);
            index = index + 1;
            proof {
                assert(self.output@ =~= before.output@ + before.output@.subrange(start as int, index as int));
            }
        }
        proof {
            assert(self.output@.subrange(0, before.output@.len() as int) =~= before.output@);
            Self::lemma_extend_keeps_wf(before, *self);
        }
        Ok(())
    }

    /// Write a string key, reusing the encoding cached for the same identity.
    ///
    /// Caching starts once the output reaches 1024 bytes; at most 16 keys of
    /// at most 64 bytes are retained, in first-written order.
    pub fn key(&mut self, identity: usize, text: &str) -> (result: Result<(), OutputAllocationError>)
        requires
            old(self).wf(),
            text.spec_bytes().len() + 2 <= usize::MAX,
        ensures
            final(self).wf(),
            final(self).same_settings(&*old(self)),
            (forall|i: int|
                first_match(old(self).cached_keys(), identity, i) ==> old(self).cached_texts()[i]
                    == text.spec_bytes()) ==> extended_by(
                old(self).is_checked(),
                old(self).bytes(),
                final(self).bytes(),
                quoted(text.spec_bytes()),
                result is Ok,
            ),
            key_cache_hit(old(self).bytes(), old(self).cached_keys(), identity) ==> {
                &&& final(self).cached_keys() == old(self).cached_keys()
                &&& final(self).cached_texts() == old(self).cached_texts()
                &&& exists|i: int| first_match(old(self).cached_keys(), identity, i)
                    && extended_by(
                    old(self).is_checked(),
                    old(self).bytes(),
                    final(self).bytes(),
                    quoted(old(self).cached_texts()[i]),
                    result is Ok,
                )
            },
            !key_cache_hit(old(self).bytes(), old(self).cached_keys(), identity) ==> {
                let stored = result is Ok && old(self).bytes().len() >= 1024
                    && old(self).cached_keys().len() < 16 && text.spec_bytes().len() <= 64;
                &&& extended_by(
                    old(self).is_checked(),
                    old(self).bytes(),
                    final(self).bytes(),
                    quoted(text.spec_bytes()),
                    result is Ok,
                )
                &&& final(self).cached_keys() == (if stored {
                    old(self).cached_keys().push(
                        CachedKey {
                            identity,
                            start: old(self).bytes().len() as usize,
                            end: final(self).bytes().len() as usize,
                        },
                    )
                } else {
                    old(self).cached_keys()
                })
                &&& final(self).cached_texts() == (if stored {
                    old(self).cached_texts().push(text.spec_bytes())
                } else {
                    old(self).cached_texts()
                })
            },
            (forall|i: int|
                0 <= i < old(self).cached_keys().len() && (#[trigger] old(self).cached_keys()[i]).identity
                    == identity ==> old(self).cached_texts()[i] == text.spec_bytes()) ==> extended_by(
                old(self).is_checked(),
                old(self).bytes(),
                final(self).bytes(),
                quoted(text.spec_bytes()),
                result is Ok,
            ),
    {
        let cache = self.output.len() >= 1024;
        if cache && (self.checked || self.keys.len() < 16 || self.key_mask & key_identity_bit(identity) != 0) {
            let mut i: usize = 0;
            while i < self.keys.len()
                invariant
                    self.wf(),
                    self == old(self),
                    cache,
                    self.output@.len() >= 1024,
                    i <= self.keys@.len(),
                    forall|j: int| 0 <= j < i ==> (#[trigger] self.keys@[j]).identity != identity,
                decreases self.keys@.len() - i,
            {
                if self.keys[i].identity == identity {
                    let k = self.keys[i];
                    proof {
                        assert(first_match(self.keys@, identity, i as int));
                        assert(self.keys@[i as int] == k);
                        assert(old(self).cached_keys()[i as int].identity == identity);
                        assert(key_cache_hit(old(self).bytes(), old(self).cached_keys(), identity));
                    }
                    let r = self.duplicate(k.start, k.end);
                    proof {
                        assert(first_match(old(self).cached_keys(), identity, i as int));
                    }
                    return r;
                }
                i = i + 1;
            }
        }
        proof {
            if cache {
                if !self.checked && self.keys@.len() >= 16 {
                    assert forall|j: int| 0 <= j < self.keys@.len() implies (#[trigger] self.keys@[j]).identity != identity by {
                        if self.keys@[j].identity == identity {
                            assert(self.key_mask & identity_bit(self.keys@[j].identity) != 0);
                        }
                    }
                }
            }
            assert(!key_cache_hit(old(self).bytes(), old(self).cached_keys(), identity));
        }
        let start = self.output.len();
        let r = self.string(text);
        if r.is_err() {
            return Err(OutputAllocationError);
        }
        if cache && self.keys.len() < 16 && text.len() <= 64 {
            if self.checked {
                match self.keys.try_reserve(1) {
                    Ok(()) => {},
                    Err(_) => {
                        proof {
                            let b = self.bytes();
                            assert(b.subrange(0, old(self).bytes().len() as int) =~= old(self).bytes());
                        }
                        return Err(OutputAllocationError);
                    },
                }
            }
            let ghost before = *self;
            let entry = CachedKey { identity, start, end: self.output.len() };
            self.keys.push(entry);
            self.key_texts = Ghost(self.key_texts@.push(text.spec_bytes()));
            if !self.checked {
                let b = key_identity_bit(identity);
                let m = self.key_mask;
                self.key_mask = m | b;
                proof {
                    assert(b != 0 ==> (m | b) & b != 0) by (bit_vector);
                    assert forall|i: int| 0 <= i < before.keys@.len() implies self.key_mask & identity_bit(
                        #[trigger] self.keys@[i].identity,
                    ) != 0 by {
                        let x = identity_bit(before.keys@[i].identity);
                        assert(self.keys@[i] == before.keys@[i]);
                        assert(m & x != 0 ==> (m | b) & x != 0) by (bit_vector);
                    }
                }
            }
            proof {
                assert forall|i: int| 0 <= i < self.keys@.len() implies {
                    let k = #[trigger] self.keys@[i];
                    &&& k.start <= k.end <= self.output@.len()
                    &&& self.output@.subrange(k.start as int, k.end as int) == quoted(self.key_texts@[i])
                } by {
                    if i < before.keys@.len() {
                        assert(self.keys@[i] == before.keys@[i]);
                    } else {
                        assert(self.output@ == old(self).bytes() + quoted(text.spec_bytes()));
                        assert(self.output@.subrange(start as int, self.output@.len() as int) =~= quoted(
                            text.spec_bytes(),
                        ));
                    }
                }
            }
        }
        Ok(())
    }
}

/// JSON text of a converted non-string key, without its quotes, or None when
/// the key is left to the caller.
pub open spec fn non_str_key_text(option: i32, key: KeyScalar) -> Option<Seq<u8>> {
    if option & NON_STR_KEYS == 0 {
        None
    } else {
        match key {
            KeyScalar::Null => Some(seq![0x6eu8, 0x75u8, 0x6cu8, 0x6cu8]),
            KeyScalar::Boolean(b) => Some(if b {
                seq![0x74u8, 0x72u8, 0x75u8, 0x65u8]
            } else {
                seq![0x66u8, 0x61u8, 0x6cu8, 0x73u8, 0x65u8]
            }),
            KeyScalar::Integer(i) => Some(integer_text(i)),
            KeyScalar::Float(Some(text)) => Some(text@),
            KeyScalar::Float(None) => Some(seq![0x6eu8, 0x75u8, 0x6cu8, 0x6cu8]),
            _ => None,
        }
    }
}

impl Encoder {
    /// Write a dictionary key of any type. Returns false, writing nothing,
    /// for a key that the native serializer leaves to the caller.
    ///
    /// Under `NON_STR_KEYS`, null, boolean, integer and float keys are
    /// written as quoted scalar text; `STRICT_INTEGER` does not apply to them.
    pub fn key_any(&mut self, key: KeyScalar) -> (result: Result<bool, OutputAllocationError>)
        requires
            old(self).wf(),
            key matches KeyScalar::Text(_, t) ==> t.spec_bytes().len() + 2 <= usize::MAX,
        ensures
            final(self).wf(),
            final(self).same_settings(&*old(self)),
            match key {
                KeyScalar::Text(identity, t) => result != Ok::<bool, OutputAllocationError>(false)
                    && ((forall|i: int|
                    0 <= i < old(self).cached_keys().len() && (#[trigger] old(
                        self,
                    ).cached_keys()[i]).identity == identity ==> old(self).cached_texts()[i]
                        == t.spec_bytes()) ==> extended_by(
                    old(self).is_checked(),
                    old(self).bytes(),
                    final(self).bytes(),
                    quoted(t.spec_bytes()),
                    result is Ok,
                )),
                _ => match non_str_key_text(old(self).flags(), key) {
                    None => result == Ok::<bool, OutputAllocationError>(false) && final(self).bytes()
                        == old(self).bytes() && final(self).same_state(&*old(self)),
                    Some(text) => result != Ok::<bool, OutputAllocationError>(false)
                        && final(self).same_state(&*old(self)) && extended_by(
                        old(self).is_checked(),
                        old(self).bytes(),
                        final(self).bytes(),
                        seq![0x22u8] + text + seq![0x22u8],
                        result is Ok,
                    ),
                },
            },
    {
        let scalar = match key {
            KeyScalar::Text(identity, text) => {
                return match self.key(identity, text) {
                    Ok(()) => Ok(true),
                    Err(e) => Err(e),
                };
            },
            KeyScalar::Other => {
                return Ok(false);
            },
            KeyScalar::Null => Scalar::Null,
            KeyScalar::Boolean(b) => Scalar::Boolean(b),
            KeyScalar::Integer(i) => Scalar::Integer(i),
            KeyScalar::Float(f) => Scalar::Float(f),
        };
        if self.option & NON_STR_KEYS == 0 {
            return Ok(false);
        }
        let ghost start = self.bytes();
        let r = self.push(0x22);
        if r.is_err() {
            return Err(OutputAllocationError);
        }
        let ghost before = self.bytes();
        // STRICT_INTEGER applies to values, not converted keys.
        let option = self.option;
        self.option = option & !STRICT_INTEGER;
        let r = self.scalar(scalar);
        self.option = option;
        proof {
            assert((option & !64i32) & 64i32 == 0) by (bit_vector);
            assert(option & NON_STR_KEYS != 0);
            lemma_extended_chain(self.is_checked(), start, before, self.bytes(), seq![0x22u8], non_str_key_text(option, key)->0, r is Ok);
        }
        if r.is_err() {
            return Err(OutputAllocationError);
        }
        let ghost before = self.bytes();
        let r = self.push(0x22);
        proof {
            lemma_extended_chain(self.is_checked(), start, before, self.bytes(), seq![0x22u8] + non_str_key_text(option, key)->0, seq![0x22u8], r is Ok);
        }
        match r {
            Ok(()) => Ok(true),
            Err(e) => Err(e),
        }
    }
}

/// Whether option bits are supported: nonnegative and within the twelve
/// defined flags.
pub fn option_bits_supported(flags: i32) -> (supported: bool)
    ensures
        supported == (0 <= flags < 4096),
{
    let supported = flags >= 0 && flags & !4095 == 0;
    proof {
        assert(flags >= 0 ==> (flags & !4095i32 == 0 <==> flags < 4096)) by (bit_vector);
    }
    supported
}

/// What ends a serialized document: a newline under `APPEND_NEWLINE`.
pub open spec fn document_end(flags: i32) -> Seq<u8> {
    if flags & APPEND_NEWLINE != 0 {
        seq![0x0au8]
    } else {
        Seq::empty()
    }
}

/// Setting `APPEND_NEWLINE` adds exactly one trailing newline to a
/// document's end, and so to a root string's output.
pub proof fn lemma_append_newline_adds_one(flags: i32, text: Seq<u8>)
    requires
        flags & APPEND_NEWLINE == 0,
    ensures
        document_end(flags) == Seq::<u8>::empty(),
        document_end(flags | APPEND_NEWLINE) == document_end(flags) + seq![0x0au8],
        root_string_output(text, flags | APPEND_NEWLINE) == root_string_output(text, flags) + seq![0x0au8],
{
    assert((flags | 1024i32) & 1024i32 != 0) by (bit_vector);
    assert(document_end(flags) + seq![0x0au8] =~= seq![0x0au8]);
    assert(quoted(text) + Seq::<u8>::empty() =~= quoted(text));
}

/// The complete output for a root string: its JSON literal, then a newline
/// under `APPEND_NEWLINE`.
pub open spec fn root_string_output(text: Seq<u8>, flags: i32) -> Seq<u8> {
    quoted(text) + document_end(flags)
}

/// Serialize a long root string, copying a plain prefix directly.
pub fn dump_long_string(text: &str, flags: i32) -> (output: Vec<u8>)
    requires
        text.spec_bytes().len() + 3 <= usize::MAX,
    ensures
        output@ == root_string_output(text.spec_bytes(), flags),
{
    let bytes = text.as_bytes();
    let prefix = plain_string_prefix(bytes);
    let mut output: Vec<u8> = Vec::with_capacity(bytes.len() + 2);
    output.push(0x22);
    let plain = &bytes[0..prefix];
    append(&mut output, plain);
    let mut encoder = Encoder {
        output,
        option: flags,
        base_depth: 0,
        dataclass_root: false,
        checked: false,
        integer_layout: IntegerLayout::Unchecked,
        keys: Vec::new(),
        key_texts: Ghost(Seq::empty()),
        key_mask: 0,
    };
    let rest = &bytes[prefix..bytes.len()];
    let _ = encoder.string_contents(rest);
    let mut output = encoder.output;
    output.push(0x22);
    if flags & APPEND_NEWLINE != 0 {
        output.push(0x0a);
    }
    proof {
        lemma_escaped_plain(plain@);
        assert(bytes@ =~= plain@ + rest@);
        lemma_escaped_concat(plain@, rest@);
        assert(output@ =~= root_string_output(text.spec_bytes(), flags));
    }
    output
}

/// A root string is written as an encoder writes the same string into empty
/// output, whether or not it needs escapes, followed by a newline under
/// `APPEND_NEWLINE`.
pub proof fn lemma_root_string_is_string_write(text: Seq<u8>, flags: i32, checked: bool, written: Seq<u8>)
    requires
        extended_by(checked, Seq::empty(), written, quoted(text), true),
    ensures
        root_string_output(text, flags) == if flags & APPEND_NEWLINE != 0 {
            written + seq![0x0au8]
        } else {
            written
        },
{
    assert(written =~= quoted(text));
}

/// Serialize a root string: a long one through `dump_long_string`, a short
/// one through an encoder, with the same result.
pub fn dump_root_string(text: &str, flags: i32) -> (output: Vec<u8>)
    requires
        text.spec_bytes().len() + 3 <= usize::MAX,
    ensures
        output@ == root_string_output(text.spec_bytes(), flags),
{
    if text.len() >= INITIAL_OUTPUT_CAPACITY {
        return dump_long_string(text, flags);
    }
    let mut encoder = Encoder::new(flags, 0, false, INITIAL_OUTPUT_CAPACITY);
    let _ = encoder.string(text);
    if flags & APPEND_NEWLINE != 0 {
        let _ = encoder.push(0x0a);
    }
    proof {
        assert(Seq::<u8>::empty() + quoted(text.spec_bytes()) =~= quoted(text.spec_bytes()));
    }
    encoder.into_bytes()
}

/// Lower-case hexadecimal digit of a value below 16.
fn hex(value: u8) -> (digit: u8)
    requires
        value < 16,
    ensures
        digit == hex_digit(value as int),
{
    if value < 10 {
        0x30 + value
    } else {
        0x57 + value
    }
}

} // verus!
