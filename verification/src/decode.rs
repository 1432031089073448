//! Complete-document decoding: which input is text, what the container
//! stack does with each peeked byte, which keys are cached, and where an
//! error lies in characters.

use vstd::prelude::*;
use vstd::string::StringSliceAdditionalSpecFns;
use vstd::utf8::valid_utf8;

verus! {

/// Containers nest at most this deep.
pub const MAX_DECODE_DEPTH: usize = 1024;
/// Inputs at least this long cache their short keys.
pub const KEY_CACHE_INPUT_LEN: usize = 1024;
/// Only keys at most this long are cached.
pub const MAX_CACHED_KEY_LEN: usize = 64;
/// The key cache holds at most this many keys.
pub const MAX_CACHED_KEYS: usize = 512;
/// A string buffer that grew beyond this is released.
pub const MAX_RETAINED_STRING_CAPACITY: usize = 65536;
/// Inputs at least this long with a non-ASCII byte among their first 32 take
/// the vectorized UTF-8 check.
pub const VECTOR_CHECK_LEN: usize = 128;

/// `simdutf8::compat::from_utf8`: the bytes as text exactly when they are
/// valid UTF-8.
#[verifier::external_body]
fn vector_from_utf8(bytes: &[u8]) -> (text: Option<&str>)
    ensures
        match text {
            Some(t) => valid_utf8(bytes@) && t.spec_bytes() == bytes@,
            None => !valid_utf8(bytes@),
        },
{
    simdutf8::compat::from_utf8(bytes).ok()
}

/// `std::str::from_utf8`: the bytes as text exactly when they are valid UTF-8.
#[verifier::external_body]
fn std_from_utf8(bytes: &[u8]) -> (text: Option<&str>)
    ensures
        match text {
            Some(t) => valid_utf8(bytes@) && t.spec_bytes() == bytes@,
            None => !valid_utf8(bytes@),
        },
{
    std::str::from_utf8(bytes).ok()
}

/// Whether the first `n` bytes are ASCII.
pub open spec fn ascii_prefix(bytes: Seq<u8>, n: int) -> bool {
    forall|i: int| 0 <= i < n ==> #[trigger] bytes[i] < 0x80
}

/// Whether the vectorized check is used: a long input with a non-ASCII byte
/// among its first 32.
pub open spec fn uses_vector_check(bytes: Seq<u8>) -> bool {
    bytes.len() >= VECTOR_CHECK_LEN && !ascii_prefix(bytes, 32)
}

/// Read input bytes as text: the text when they are valid UTF-8, else none.
/// Long inputs with early non-ASCII bytes take the vectorized check.
pub fn input_text(bytes: &[u8]) -> (text: Option<&str>)
    ensures
        match text {
            Some(t) => valid_utf8(bytes@) && t.spec_bytes() == bytes@,
            None => !valid_utf8(bytes@),
        },
{
    let mut vector = false;
    if bytes.len() >= VECTOR_CHECK_LEN {
        let mut i: usize = 0;
        while i < 32
            invariant
                i <= 32,
                bytes@.len() >= VECTOR_CHECK_LEN,
                ascii_prefix(bytes@, i as int),
            decreases 32 - i,
        {
            if bytes[i] >= 0x80 {
                vector = true;
                break;
            }
            i = i + 1;
        }
    }
    if vector {
        vector_from_utf8(bytes)
    } else {
        std_from_utf8(bytes)
    }
}

/// Whether a byte starts a character: it is not a UTF-8 continuation byte.
pub open spec fn starts_char(byte: u8) -> bool {
    !(0x80 <= byte < 0xc0)
}

/// Characters starting among the first `n` bytes.
pub open spec fn chars_before(bytes: Seq<u8>, n: int) -> nat
    decreases n,
{
    if n <= 0 {
        0
    } else {
        chars_before(bytes, n - 1) + if starts_char(bytes[n - 1]) {
            1nat
        } else {
            0nat
        }
    }
}

/// The character position of a byte offset in the input: the characters
/// that start before it. An offset inside a character or past the end counts
/// the characters that start before it all the same.
pub fn char_position(input: &str, offset: usize) -> (position: usize)
    ensures
        position == chars_before(
            input.spec_bytes(),
            if offset < input.spec_bytes().len() {
                offset as int
            } else {
                input.spec_bytes().len() as int
            },
        ),
{
    let bytes = input.as_bytes();
    let end = if offset < bytes.len() {
        offset
    } else {
        bytes.len()
    };
    let mut count: usize = 0;
    let mut i: usize = 0;
    while i < end
        invariant
            end <= bytes@.len(),
            i <= end,
            count == chars_before(bytes@, i as int),
            count <= i,
        decreases end - i,
    {
        if !(0x80 <= bytes[i] && bytes[i] < 0xc0) {
            count = count + 1;
        }
        i = i + 1;
    }
    count
}

/// Whether a key of this length is looked up in the key cache.
pub fn caches_key(input_len: usize, key_len: usize) -> (cached: bool)
    ensures
        cached == (input_len >= KEY_CACHE_INPUT_LEN && key_len <= MAX_CACHED_KEY_LEN),
{
    input_len >= KEY_CACHE_INPUT_LEN && key_len <= MAX_CACHED_KEY_LEN
}

/// Whether a key missing from the cache is added to it.
pub fn admits_key(cached_keys: usize) -> (admitted: bool)
    ensures
        admitted == (cached_keys < MAX_CACHED_KEYS),
{
    cached_keys < MAX_CACHED_KEYS
}

/// Whether the string buffer is released after a token that grew it.
pub fn releases_buffer(capacity: usize) -> (released: bool)
    ensures
        released == (capacity > MAX_RETAINED_STRING_CAPACITY),
{
    capacity > MAX_RETAINED_STRING_CAPACITY
}

/// A container with items still to come.
#[derive(Clone, Copy, Debug, PartialEq, Eq, Structural)]
pub enum Open {
    Array,
    Object,
}

/// Where the decoder stands between steps.
#[derive(Clone, Copy, Debug, PartialEq, Eq, Structural)]
pub enum Phase {
    /// A value starts at the next byte.
    Value,
    /// A container's opening bracket was just read.
    Opened(Open),
    /// A value was just completed.
    Completed,
    /// The document's value was returned or decoding failed.
    Finished,
}

/// Why decoding stopped.
#[derive(Clone, Copy, Debug, PartialEq, Eq, Structural)]
pub enum DecodeFailure {
    /// Containers nest deeper than `MAX_DECODE_DEPTH`.
    RecursionDepth,
    /// No value starts at the next byte.
    ExpectedValue,
    /// An array item is followed by neither `,` nor `]`.
    ExpectedCommaOrBracket,
    /// An object value is followed by neither `,` nor `}`.
    ExpectedCommaOrBrace,
    /// The input is empty.
    EmptyDocument,
    /// Bytes other than whitespace follow the document's value.
    TrailingContent,
}

impl DecodeFailure {
    /// The error's message.
    pub fn message(&self) -> (message: &'static str)
        ensures
            message@ == match self {
                DecodeFailure::RecursionDepth => "recursion depth exceeded"@,
                DecodeFailure::ExpectedValue => "expected JSON value"@,
                DecodeFailure::ExpectedCommaOrBracket => "expected comma or closing bracket"@,
                DecodeFailure::ExpectedCommaOrBrace => "expected comma or closing brace"@,
                DecodeFailure::EmptyDocument => "Input is a zero-length, empty document"@,
                DecodeFailure::TrailingContent => "unexpected content after document"@,
            },
    {
        match self {
            DecodeFailure::RecursionDepth => "recursion depth exceeded",
            DecodeFailure::ExpectedValue => "expected JSON value",
            DecodeFailure::ExpectedCommaOrBracket => "expected comma or closing bracket",
            DecodeFailure::ExpectedCommaOrBrace => "expected comma or closing brace",
            DecodeFailure::EmptyDocument => "Input is a zero-length, empty document",
            DecodeFailure::TrailingContent => "unexpected content after document",
        }
    }
}

/// Whether decoding may start: an empty input is refused.
pub fn begin_document(input_len: usize) -> (result: Result<(), DecodeFailure>)
    ensures
        input_len == 0 ==> result == Err::<(), DecodeFailure>(DecodeFailure::EmptyDocument),
        input_len != 0 ==> result is Ok,
{
    if input_len == 0 {
        Err(DecodeFailure::EmptyDocument)
    } else {
        Ok(())
    }
}

/// Whether the document ends after its value: the reader must have nothing
/// left to peek at.
pub fn end_document(peeked: Option<u8>) -> (result: Result<(), DecodeFailure>)
    ensures
        peeked is Some ==> result == Err::<(), DecodeFailure>(DecodeFailure::TrailingContent),
        peeked is None ==> result is Ok,
{
    match peeked {
        Some(_) => Err(DecodeFailure::TrailingContent),
        None => Ok(()),
    }
}

/// What the caller does next with the reader and the values built so far.
#[derive(Clone, Copy, Debug, PartialEq, Eq, Structural)]
pub enum Step {
    /// Read `[` and start an empty list.
    BeginArray,
    /// Read `{` and start an empty dict.
    BeginObject,
    /// Read the closing bracket: the container just started is empty and is
    /// the completed value.
    CloseEmpty,
    /// Keep the started list open for its items.
    EnterArray,
    /// Read a key and `:`, then keep the started dict open for its values.
    EnterObject,
    /// Read a string: the completed value.
    ReadString,
    /// Read `null`.
    ReadNull,
    /// Read `true`.
    ReadTrue,
    /// Read `false`.
    ReadFalse,
    /// Read a number.
    ReadNumber,
    /// Append the completed value to the innermost list and read `,`.
    AppendAndContinue,
    /// Store the completed value under the innermost dict's key, read `,`,
    /// then read the next key and `:`.
    StoreAndContinue,
    /// Add the completed value to the innermost container and read its
    /// closing bracket: the container is now the completed value.
    AddAndClose,
    /// The completed value is the document.
    Done,
    /// Stop with this error.
    Fail(DecodeFailure),
}

/// The closing bracket of a container.
pub open spec fn closing_byte(open: Open) -> u8 {
    match open {
        Open::Array => 0x5d,
        Open::Object => 0x7d,
    }
}

/// The step a value's first byte calls for, and the phase after it.
pub open spec fn value_step(depth: int, peeked: Option<u8>) -> (Phase, Step) {
    match peeked {
        Some(0x5bu8) => if depth >= MAX_DECODE_DEPTH {
            (Phase::Finished, Step::Fail(DecodeFailure::RecursionDepth))
        } else {
            (Phase::Opened(Open::Array), Step::BeginArray)
        },
        Some(0x7bu8) => if depth >= MAX_DECODE_DEPTH {
            (Phase::Finished, Step::Fail(DecodeFailure::RecursionDepth))
        } else {
            (Phase::Opened(Open::Object), Step::BeginObject)
        },
        Some(0x22u8) => (Phase::Completed, Step::ReadString),
        Some(0x6eu8) => (Phase::Completed, Step::ReadNull),
        Some(0x74u8) => (Phase::Completed, Step::ReadTrue),
        Some(0x66u8) => (Phase::Completed, Step::ReadFalse),
        Some(b) => if b == 0x2d || (0x30 <= b <= 0x39) {
            (Phase::Completed, Step::ReadNumber)
        } else {
            (Phase::Finished, Step::Fail(DecodeFailure::ExpectedValue))
        },
        None => (Phase::Finished, Step::Fail(DecodeFailure::ExpectedValue)),
    }
}

/// The next stack, phase and step for a peeked byte.
pub open spec fn next_step(stack: Seq<Open>, phase: Phase, peeked: Option<u8>) -> (Seq<Open>, Phase, Step) {
    match phase {
        Phase::Value => {
            let (p, s) = value_step(stack.len() as int, peeked);
            (stack, p, s)
        },
        Phase::Opened(open) => if peeked == Some(closing_byte(open)) {
            (stack, Phase::Completed, Step::CloseEmpty)
        } else {
            (
                stack.push(open),
                Phase::Value,
                match open {
                    Open::Array => Step::EnterArray,
                    Open::Object => Step::EnterObject,
                },
            )
        },
        Phase::Completed => if stack.len() == 0 {
            (stack, Phase::Finished, Step::Done)
        } else if peeked == Some(0x2cu8) {
            (
                stack,
                Phase::Value,
                match stack.last() {
                    Open::Array => Step::AppendAndContinue,
                    Open::Object => Step::StoreAndContinue,
                },
            )
        } else if peeked == Some(closing_byte(stack.last())) {
            (stack.drop_last(), Phase::Completed, Step::AddAndClose)
        } else {
            (
                stack,
                Phase::Finished,
                Step::Fail(
                    match stack.last() {
                        Open::Array => DecodeFailure::ExpectedCommaOrBracket,
                        Open::Object => DecodeFailure::ExpectedCommaOrBrace,
                    },
                ),
            )
        },
        Phase::Finished => (stack, Phase::Finished, Step::Done),
    }
}

/// The open containers of a document, kept in a `smallvec::SmallVec` that
/// holds the first two inline.
#[verifier::external_body]
pub struct OpenStack {
    open: smallvec::SmallVec<[Open; 2]>,
}

/// The containers a stack holds, outermost first.
pub uninterp spec fn stack_open(stack: OpenStack) -> Seq<Open>;

impl OpenStack {
    /// `SmallVec::new`: an empty stack.
    #[verifier::external_body]
    fn new() -> (stack: Self)
        ensures
            stack_open(stack) == Seq::<Open>::empty(),
    {
        OpenStack { open: smallvec::SmallVec::new() }
    }

    /// `SmallVec::len`: the number of open containers.
    #[verifier::external_body]
    fn len(&self) -> (len: usize)
        ensures
            len == stack_open(*self).len(),
    {
        self.open.len()
    }

    /// Indexing a `SmallVec`: a copy of container `index`.
    #[verifier::external_body]
    fn get(&self, index: usize) -> (open: Open)
        requires
            index < stack_open(*self).len(),
        ensures
            open == stack_open(*self)[index as int],
    {
        self.open[index]
    }

    /// `SmallVec::push`: the container goes on top.
    #[verifier::external_body]
    fn push(&mut self, open: Open)
        ensures
            stack_open(*final(self)) == stack_open(*old(self)).push(open),
    {
        self.open.push(open);
    }

    /// `SmallVec::pop`: the top container comes off, if there is one.
    #[verifier::external_body]
    fn pop(&mut self) -> (open: Option<Open>)
        ensures
            stack_open(*old(self)).len() == 0 ==> open is None && stack_open(*final(self))
                == stack_open(*old(self)),
            stack_open(*old(self)).len() > 0 ==> open == Some(stack_open(*old(self)).last())
                && stack_open(*final(self)) == stack_open(*old(self)).drop_last(),
    {
        self.open.pop()
    }
}

/// The decisions of one document's decoding: the containers still open and
/// what comes next.
pub struct Decoder {
    stack: OpenStack,
    phase: Phase,
}

impl Decoder {
    /// The open containers, outermost first.
    pub closed spec fn open(&self) -> Seq<Open> {
        stack_open(self.stack)
    }

    /// Where the decoder stands.
    pub closed spec fn stage(&self) -> Phase {
        self.phase
    }

    /// At most `MAX_DECODE_DEPTH` containers are open, and one fewer while a
    /// container has just been started.
    pub closed spec fn wf(&self) -> bool {
        &&& self.open().len() <= MAX_DECODE_DEPTH
        &&& self.phase is Opened ==> self.open().len() < MAX_DECODE_DEPTH
    }

    /// A decoder expecting the document's value.
    pub fn new() -> (decoder: Self)
        ensures
            decoder.wf(),
            decoder.open() == Seq::<Open>::empty(),
            decoder.stage() == Phase::Value,
    {
        Decoder { stack: OpenStack::new(), phase: Phase::Value }
    }

    /// Number of open containers.
    pub fn depth(&self) -> (depth: usize)
        ensures
            depth == self.open().len(),
    {
        self.stack.len()
    }

    /// Decide the next step from the byte the reader peeks at.
    pub fn step(&mut self, peeked: Option<u8>) -> (step: Step)
        requires
            old(self).wf(),
        ensures
            final(self).wf(),
            (final(self).open(), final(self).stage(), step) == next_step(
                old(self).open(),
                old(self).stage(),
                peeked,
            ),
    {
        match self.phase {
            Phase::Value => {
                let depth = self.stack.len();
                let (phase, step) = match peeked {
                    Some(0x5b) => if depth >= MAX_DECODE_DEPTH {
                        (Phase::Finished, Step::Fail(DecodeFailure::RecursionDepth))
                    } else {
                        (Phase::Opened(Open::Array), Step::BeginArray)
                    },
                    Some(0x7b) => if depth >= MAX_DECODE_DEPTH {
                        (Phase::Finished, Step::Fail(DecodeFailure::RecursionDepth))
                    } else {
                        (Phase::Opened(Open::Object), Step::BeginObject)
                    },
                    Some(0x22) => (Phase::Completed, Step::ReadString),
                    Some(0x6e) => (Phase::Completed, Step::ReadNull),
                    Some(0x74) => (Phase::Completed, Step::ReadTrue),
                    Some(0x66) => (Phase::Completed, Step::ReadFalse),
                    Some(b) => if b == 0x2d || (0x30 <= b && b <= 0x39) {
                        (Phase::Completed, Step::ReadNumber)
                    } else {
                        (Phase::Finished, Step::Fail(DecodeFailure::ExpectedValue))
                    },
                    None => (Phase::Finished, Step::Fail(DecodeFailure::ExpectedValue)),
                };
                self.phase = phase;
                step
            },
            Phase::Opened(open) => {
                let closing: u8 = match open {
                    Open::Array => 0x5d,
                    Open::Object => 0x7d,
                };
                if peeked == Some(closing) {
                    self.phase = Phase::Completed;
                    Step::CloseEmpty
                } else {
                    self.stack.push(open);
                    self.phase = Phase::Value;
                    match open {
                        Open::Array => Step::EnterArray,
                        Open::Object => Step::EnterObject,
                    }
                }
            },
            Phase::Completed => {
                let depth = self.stack.len();
                if depth == 0 {
                    self.phase = Phase::Finished;
                    return Step::Done;
                }
                let top = self.stack.get(depth - 1);
                let closing: u8 = match top {
                    Open::Array => 0x5d,
                    Open::Object => 0x7d,
                };
                if peeked == Some(0x2c) {
                    self.phase = Phase::Value;
                    match top {
                        Open::Array => Step::AppendAndContinue,
                        Open::Object => Step::StoreAndContinue,
                    }
                } else if peeked == Some(closing) {
                    self.stack.pop();
                    Step::AddAndClose
                } else {
                    self.phase = Phase::Finished;
                    Step::Fail(
                        match top {
                            Open::Array => DecodeFailure::ExpectedCommaOrBracket,
                            Open::Object => DecodeFailure::ExpectedCommaOrBrace,
                        },
                    )
                }
            },
            Phase::Finished => Step::Done,
        }
    }
}

} // verus!
