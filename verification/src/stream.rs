//! Streaming parser sessions: when `feed` and `finish` may run, how parser
//! error messages read, where a borrowed fragment lies in its input, and
//! which Python number a numeric lexeme becomes.

use vstd::prelude::*;
use crate::long_float::{all_digits, digits_value, is_digit};

verus! {

/// Why a session call was refused.
#[derive(Clone, Copy, Debug, PartialEq, Eq, Structural)]
pub enum StateError {
    /// The parser was already handed to `finish`.
    ParserFinished,
    /// `finish` already completed.
    FinishCalled,
}

impl StateError {
    /// The error's message.
    pub fn message(&self) -> (message: &'static str)
        ensures
            message@ == match self {
                StateError::ParserFinished => "parser has already finished"@,
                StateError::FinishCalled => "finish() has already been called"@,
            },
    {
        match self {
            StateError::ParserFinished => "parser has already finished",
            StateError::FinishCalled => "finish() has already been called",
        }
    }
}

/// Where a streaming session stands: whether it still owns its parser and
/// whether `finish` completed.
pub struct Lifecycle {
    parser: bool,
    finished: bool,
}

/// What `feed` is told: it may use the parser while the session owns it.
pub open spec fn feed_outcome(session: Lifecycle) -> Result<(), StateError> {
    if session.has_parser() {
        Ok(())
    } else {
        Err(StateError::ParserFinished)
    }
}

/// What `finish` is told: refused once it completed, or when the parser is gone.
pub open spec fn finish_outcome(session: Lifecycle) -> Result<(), StateError> {
    if session.is_done() {
        Err(StateError::FinishCalled)
    } else if !session.has_parser() {
        Err(StateError::ParserFinished)
    } else {
        Ok(())
    }
}

impl Lifecycle {
    /// Whether the session still owns its parser.
    pub closed spec fn has_parser(&self) -> bool {
        self.parser
    }

    /// Whether `finish` completed.
    pub closed spec fn is_done(&self) -> bool {
        self.finished
    }

    /// The session after `finish` took its parser.
    pub closed spec fn taken(&self) -> Lifecycle {
        Lifecycle { parser: false, finished: self.finished }
    }

    /// The session after `finish` completed.
    pub closed spec fn completed(&self) -> Lifecycle {
        Lifecycle { parser: self.parser, finished: true }
    }

    /// A session that owns its parser.
    pub fn new() -> (session: Self)
        ensures
            session.has_parser(),
            !session.is_done(),
    {
        Lifecycle { parser: true, finished: false }
    }

    /// Whether `feed` may use the parser.
    pub fn begin_feed(&self) -> (result: Result<(), StateError>)
        ensures
            result == feed_outcome(*self),
    {
        if self.parser {
            Ok(())
        } else {
            Err(StateError::ParserFinished)
        }
    }

    /// Hand the parser to `finish`, unless `finish` is refused.
    pub fn begin_finish(&mut self) -> (result: Result<(), StateError>)
        ensures
            result == finish_outcome(*old(self)),
            result is Ok ==> *final(self) == old(self).taken(),
            result is Err ==> *final(self) == *old(self),
    {
        if self.finished {
            return Err(StateError::FinishCalled);
        }
        if !self.parser {
            return Err(StateError::ParserFinished);
        }
        self.parser = false;
        Ok(())
    }

    /// Record that `finish` completed.
    pub fn complete_finish(&mut self)
        ensures
            *final(self) == old(self).completed(),
    {
        self.finished = true;
    }

    /// Whether `finish` completed.
    pub fn is_finished(&self) -> (finished: bool)
        ensures
            finished == self.is_done(),
    {
        self.finished
    }
}

/// After `finish` takes the parser and completes, `feed` is refused because
/// the parser is gone and `finish` is refused because it already ran.
pub proof fn lemma_finished_session_refuses(session: Lifecycle)
    requires
        finish_outcome(session) is Ok,
    ensures
        feed_outcome(session.taken().completed()) == Err::<(), StateError>(StateError::ParserFinished),
        finish_outcome(session.taken().completed()) == Err::<(), StateError>(StateError::FinishCalled),
        session.taken().completed().is_done(),
{
}

/// A `finish` that took the parser but failed before completing leaves
/// later calls of both refused as finished.
pub proof fn lemma_interrupted_finish_refuses(session: Lifecycle)
    requires
        finish_outcome(session) is Ok,
    ensures
        feed_outcome(session.taken()) == Err::<(), StateError>(StateError::ParserFinished),
        finish_outcome(session.taken()) == Err::<(), StateError>(StateError::ParserFinished),
        !session.taken().is_done(),
{
}

/// Whether `pattern` occurs in `text` at position `at`.
pub open spec fn occurs_at(text: Seq<u8>, pattern: Seq<u8>, at: int) -> bool {
    0 <= at && at + pattern.len() <= text.len() && text.subrange(at, at + pattern.len()) == pattern
}

/// `invalid character`.
pub open spec fn invalid_character() -> Seq<u8> {
    seq![
        0x69u8, 0x6eu8, 0x76u8, 0x61u8, 0x6cu8, 0x69u8, 0x64u8, 0x20u8, 0x63u8, 0x68u8, 0x61u8,
        0x72u8, 0x61u8, 0x63u8, 0x74u8, 0x65u8, 0x72u8,
    ]
}

/// `InvalidCharacter: `.
pub open spec fn invalid_character_prefix() -> Seq<u8> {
    seq![
        0x49u8, 0x6eu8, 0x76u8, 0x61u8, 0x6cu8, 0x69u8, 0x64u8, 0x43u8, 0x68u8, 0x61u8, 0x72u8,
        0x61u8, 0x63u8, 0x74u8, 0x65u8, 0x72u8, 0x3au8, 0x20u8,
    ]
}

/// The message shown for a parser error: messages about an invalid
/// character are prefixed with `InvalidCharacter: `.
pub open spec fn error_message_text(message: Seq<u8>) -> Seq<u8> {
    if exists|at: int| occurs_at(message, invalid_character(), at) {
        invalid_character_prefix() + message
    } else {
        message
    }
}

/// Whether a message mentions an invalid character.
fn mentions_invalid_character(message: &[u8]) -> (found: bool)
    ensures
        found == exists|at: int| occurs_at(message@, invalid_character(), at),
{
    let needle: [u8; 17] = [
        0x69, 0x6e, 0x76, 0x61, 0x6c, 0x69, 0x64, 0x20, 0x63, 0x68, 0x61, 0x72, 0x61, 0x63, 0x74,
        0x65, 0x72,
    ];
    proof {
        assert(needle@ =~= invalid_character());
    }
    let n = message.len();
    if n < 17 {
        proof {
            assert forall|j: int| !occurs_at(message@, invalid_character(), j) by {}
        }
        return false;
    }
    let last = n - 17;
    let mut at: usize = 0;
    while at <= last
        invariant
            needle@ == invalid_character(),
            last + 17 == n,
            n == message@.len(),
            at <= last + 1,
            forall|j: int| 0 <= j < at ==> !occurs_at(message@, invalid_character(), j),
        decreases last + 1 - at,
    {
        let mut k: usize = 0;
        while k < 17 && message[at + k] == needle[k]
            invariant
                k <= 17,
                at <= last,
                last + 17 == n,
                n == message@.len(),
                forall|i: int| 0 <= i < k ==> message@[at + i] == needle@[i],
            decreases 17 - k,
        {
            k = k + 1;
        }
        if k == 17 {
            proof {
                assert(message@.subrange(at as int, at + 17) =~= needle@);
                assert(occurs_at(message@, invalid_character(), at as int));
            }
            return true;
        }
        proof {
            assert(message@[at + k] != needle@[k as int]);
            assert(message@.subrange(at as int, at + 17)[k as int] == message@[at + k]);
        }
        at = at + 1;
    }
    proof {
        assert forall|j: int| !occurs_at(message@, invalid_character(), j) by {
            if 0 <= j && j + 17 <= message@.len() {
                assert(j < at);
            }
        }
    }
    false
}

/// Format a parser error's message.
pub fn format_error_message(message: &[u8]) -> (text: Vec<u8>)
    ensures
        text@ == error_message_text(message@),
{
    let mut text: Vec<u8> = Vec::new();
    if mentions_invalid_character(message) {
        crate::decimal::append(&mut text, &[
            0x49u8, 0x6e, 0x76, 0x61, 0x6c, 0x69, 0x64, 0x43, 0x68, 0x61, 0x72, 0x61, 0x63, 0x74,
            0x65, 0x72, 0x3a, 0x20,
        ]);
        proof {
            assert(text@ =~= invalid_character_prefix());
        }
    } else {
        proof {
            assert(text@ =~= Seq::<u8>::empty());
        }
    }
    crate::decimal::append(&mut text, message);
    text
}

/// The byte range a fragment occupies in its input, when it lies inside it;
/// addresses are plain integers and the sums must not wrap.
pub open spec fn fragment_range(input_start: int, input_len: int, start: int, len: int) -> Option<(int, int)> {
    if start + len > usize::MAX || input_start + input_len > usize::MAX {
        None
    } else if start < input_start || start + len > input_start + input_len {
        None
    } else {
        Some((start - input_start, start + len - input_start))
    }
}

/// Locate a fragment borrowed from the input by its address.
pub fn borrowed_range(input_start: usize, input_len: usize, start: usize, len: usize) -> (range: Option<(usize, usize)>)
    ensures
        match fragment_range(input_start as int, input_len as int, start as int, len as int) {
            Some((a, b)) => range == Some((a as usize, b as usize)),
            None => range is None,
        },
{
    let end = match start.checked_add(len) {
        Some(e) => e,
        None => {
            return None;
        },
    };
    let input_end = match input_start.checked_add(input_len) {
        Some(e) => e,
        None => {
            return None;
        },
    };
    if start < input_start || end > input_end {
        return None;
    }
    Some((start - input_start, end - input_start))
}

/// The Python number a numeric lexeme becomes.
#[derive(Clone, Copy, Debug, PartialEq, Eq, Structural)]
pub enum NumberKind {
    /// A lexeme with `.`, `e` or `E`: a float.
    Float,
    /// An integer that `i64::from_str` reads.
    Signed(i64),
    /// Otherwise an integer that `u64::from_str` reads.
    Unsigned(u64),
    /// Any other integer, which Python's `int` reads.
    Big,
}

/// Whether a lexeme is written as a float.
pub open spec fn has_float_marker(text: Seq<u8>) -> bool {
    exists|i: int| 0 <= i < text.len() && (#[trigger] text[i] == 0x2e || text[i] == 0x65 || text[i] == 0x45)
}

/// What `i64::from_str` gives: an optional sign, at least one digit, and a
/// value in range.
pub open spec fn signed_lexeme(text: Seq<u8>) -> Option<int> {
    let negative = text.len() > 0 && text[0] == 0x2d;
    let digits = if text.len() > 0 && (text[0] == 0x2b || text[0] == 0x2d) {
        text.skip(1)
    } else {
        text
    };
    let value = if negative {
        -digits_value(digits)
    } else {
        digits_value(digits)
    };
    if digits.len() > 0 && all_digits(digits) && i64::MIN <= value <= i64::MAX {
        Some(value)
    } else {
        None
    }
}

/// What `u64::from_str` gives: an optional `+`, at least one digit, and a
/// value in range.
pub open spec fn unsigned_lexeme(text: Seq<u8>) -> Option<int> {
    let digits = if text.len() > 0 && text[0] == 0x2b {
        text.skip(1)
    } else {
        text
    };
    if digits.len() > 0 && all_digits(digits) && digits_value(digits) <= u64::MAX {
        Some(digits_value(digits))
    } else {
        None
    }
}

/// The number kind of a lexeme: floats by their markers; lexemes of at
/// most twenty bytes as `i64`, then `u64`; the rest as Python integers.
pub open spec fn number_kind_of(text: Seq<u8>) -> NumberKind {
    if has_float_marker(text) {
        NumberKind::Float
    } else if text.len() <= 20 && signed_lexeme(text) is Some {
        NumberKind::Signed(signed_lexeme(text)->0 as i64)
    } else if text.len() <= 20 && unsigned_lexeme(text) is Some {
        NumberKind::Unsigned(unsigned_lexeme(text)->0 as u64)
    } else {
        NumberKind::Big
    }
}

/// A lexeme with a decimal point or an exponent marker of either case is a
/// float: `.`, `e` and `E` each make it one, wherever they stand.
pub proof fn lemma_markers_make_floats(text: Seq<u8>, i: int)
    requires
        0 <= i < text.len(),
        text[i] == 0x2e || text[i] == 0x65 || text[i] == 0x45,
    ensures
        number_kind_of(text) == NumberKind::Float,
{
    assert(text[i] == 0x2e || text[i] == 0x65 || text[i] == 0x45);
}

/// Only such a lexeme is a float: one without `.`, `e` and `E` becomes an
/// integer.
pub proof fn lemma_floats_have_markers(text: Seq<u8>)
    requires
        number_kind_of(text) == NumberKind::Float,
    ensures
        exists|i: int| 0 <= i < text.len() && (text[i] == 0x2e || text[i] == 0x65 || text[i] == 0x45),
{
    assert(has_float_marker(text));
    let i = choose|i: int| 0 <= i < text.len() && (#[trigger] text[i] == 0x2e || text[i] == 0x65 || text[i] == 0x45);
    assert(0 <= i < text.len() && (text[i] == 0x2e || text[i] == 0x65 || text[i] == 0x45));
}

/// Ten raised to `n`.
pub open spec fn pow10(n: nat) -> nat
    decreases n,
{
    if n == 0 {
        1
    } else {
        10 * pow10((n - 1) as nat)
    }
}

proof fn lemma_pow10_monotonic(a: nat, b: nat)
    requires
        a <= b,
    ensures
        pow10(a) <= pow10(b),
    decreases b,
{
    if a < b {
        lemma_pow10_monotonic(a, (b - 1) as nat);
    }
}

/// The decimal value of `digits` when all are digits and there are at most
/// twenty.
fn short_digits_value(text: &[u8], start: usize) -> (value: Option<u128>)
    requires
        start <= text@.len() <= 20,
    ensures
        match value {
            Some(v) => all_digits(text@.skip(start as int)) && v == digits_value(text@.skip(start as int)),
            None => !all_digits(text@.skip(start as int)),
        },
{
    let ghost digits = text@.skip(start as int);
    let mut value: u128 = 0;
    let mut i: usize = start;
    proof {
        assert(digits.take(0) =~= Seq::<u8>::empty());
    }
    while i < text.len()
        invariant
            start <= i <= text@.len() <= 20,
            digits == text@.skip(start as int),
            all_digits(digits.take(i - start)),
            value == digits_value(digits.take(i - start)),
            value < pow10((i - start) as nat),
        decreases text@.len() - i,
    {
        let byte = text[i];
        proof {
            assert(digits.take(i - start + 1).drop_last() =~= digits.take(i - start));
            assert(digits[i - start] == byte);
            lemma_pow10_monotonic((i - start) as nat, 19);
            reveal_with_fuel(pow10, 20);
        }
        if !(0x30 <= byte && byte <= 0x39) {
            proof {
                assert(!is_digit(digits[i - start]));
            }
            return None;
        }
        value = value * 10 + (byte - 0x30) as u128;
        i = i + 1;
    }
    proof {
        assert(digits.take(text@.len() - start) =~= digits);
    }
    Some(value)
}

/// Decide which Python number a numeric lexeme becomes.
pub fn number_kind(text: &[u8]) -> (kind: NumberKind)
    ensures
        kind == number_kind_of(text@),
{
    let mut i: usize = 0;
    while i < text.len()
        invariant
            i <= text@.len(),
            forall|j: int| 0 <= j < i ==> !(text@[j] == 0x2e || text@[j] == 0x65 || text@[j] == 0x45),
        decreases text@.len() - i,
    {
        let b = text[i];
        if b == 0x2e || b == 0x65 || b == 0x45 {
            return NumberKind::Float;
        }
        i = i + 1;
    }
    if text.len() > 20 {
        return NumberKind::Big;
    }
    let n = text.len();
    let first_sign = n > 0 && (text[0] == 0x2b || text[0] == 0x2d);
    let negative = n > 0 && text[0] == 0x2d;
    let start: usize = if first_sign {
        1
    } else {
        0
    };
    proof {
        assert(text@.skip(0) =~= text@);
    }
    let digits = if start < n {
        short_digits_value(text, start)
    } else {
        None
    };
    let signed: Option<i64> = match digits {
        Some(v) => {
            if negative {
                if v <= 9223372036854775808 {
                    Some((0 - (v as i128)) as i64)
                } else {
                    None
                }
            } else if v <= 9223372036854775807 {
                Some(v as i64)
            } else {
                None
            }
        },
        None => None,
    };
    if let Some(s) = signed {
        return NumberKind::Signed(s);
    }
    let plus = n > 0 && text[0] == 0x2b;
    let unsigned: Option<u64> = if negative {
        None
    } else {
        match digits {
            Some(v) => if v <= 18446744073709551615 {
                Some(v as u64)
            } else {
                None
            },
            None => None,
        }
    };
    proof {
        if negative {
            let d = text@;
            if d.len() > 0 && all_digits(d) {
                assert(!is_digit(d[0]));
            }
        }
    }
    match unsigned {
        Some(u) => NumberKind::Unsigned(u),
        None => NumberKind::Big,
    }
}

} // verus!
