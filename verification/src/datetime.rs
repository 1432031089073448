//! ISO 8601 text for exact date, time and datetime fields, written without
//! Python strings.

use vstd::prelude::*;
use crate::encoder::{
    Encoder, OutputAllocationError, extended_by, NAIVE_UTC, OMIT_MICROSECONDS, PASSTHROUGH_DATETIME,
    UTC_Z,
};

verus! {

/// Two zero-padded ASCII digits of a value below 100.
pub open spec fn two_digit_text(value: int) -> Seq<u8> {
    seq![(0x30 + value / 10) as u8, (0x30 + value % 10) as u8]
}

/// Calendar fields of a date.
#[derive(Clone, Copy, Debug, PartialEq, Eq, Structural)]
pub struct Date {
    pub year: i32,
    pub month: u8,
    pub day: u8,
}

/// Clock fields of a time.
#[derive(Clone, Copy, Debug, PartialEq, Eq, Structural)]
pub struct Time {
    pub hour: u8,
    pub minute: u8,
    pub second: u8,
    pub microsecond: u32,
}

/// The timezone of a datetime.
#[derive(Clone, Copy, Debug, PartialEq, Eq, Structural)]
pub enum Zone {
    /// No timezone.
    Naive,
    /// The UTC singleton.
    Utc,
    /// A fixed-offset timezone, with the offset's days and seconds.
    Fixed { days: i32, seconds: i32 },
    /// A fixed-offset timezone whose offset is a timedelta subclass, or any
    /// other timezone; left to the caller's serializer.
    Other,
}

/// An exact date, time or datetime, or any other value.
#[derive(Clone, Copy, Debug, PartialEq, Eq, Structural)]
pub enum Temporal {
    DateTime { date: Date, time: Time, zone: Zone },
    Date(Date),
    Time { time: Time, has_zone: bool },
    Other,
}

/// `YYYY-MM-DD` for a year in 1..=9999, or None outside the ordinary field
/// ranges.
#[verifier::opaque]
pub open spec fn date_text(date: Date) -> Option<Seq<u8>> {
    if 1 <= date.year <= 9999 && 1 <= date.month <= 12 && 1 <= date.day <= 31 {
        Some(two_digit_text(date.year as int / 100) + two_digit_text(date.year as int % 100) + seq![0x2du8]
            + two_digit_text(date.month as int) + seq![0x2du8] + two_digit_text(date.day as int))
    } else {
        None
    }
}

/// `HH:MM:SS`, then `.ffffff` for nonzero microseconds unless omitted, or
/// None outside the ordinary field ranges.
#[verifier::opaque]
pub open spec fn time_text(time: Time, omit_microseconds: bool) -> Option<Seq<u8>> {
    if time.hour <= 23 && time.minute <= 59 && time.second <= 59 && time.microsecond <= 999_999 {
        let clock = two_digit_text(time.hour as int) + seq![0x3au8] + two_digit_text(time.minute as int)
            + seq![0x3au8] + two_digit_text(time.second as int);
        Some(if time.microsecond != 0 && !omit_microseconds {
            clock + seq![0x2eu8] + two_digit_text(time.microsecond as int / 10_000) + two_digit_text(
                time.microsecond as int / 100 % 100,
            ) + two_digit_text(time.microsecond as int % 100)
        } else {
            clock
        })
    } else {
        None
    }
}

/// A nonzero UTC offset rounded to minutes, `Z` when it rounds to zero under
/// `UTC_Z`, or None outside (-24h, 24h).
#[verifier::opaque]
pub open spec fn offset_text(seconds: int, utc_z: bool) -> Option<Seq<u8>> {
    if -86_400 <= seconds < 86_400 {
        let minutes = ((if seconds < 0 { -seconds } else { seconds }) + 30) / 60;
        if minutes == 0 && utc_z {
            Some(seq![0x5au8])
        } else {
            Some(seq![if seconds < 0 { 0x2du8 } else { 0x2bu8 }] + two_digit_text(minutes / 60)
                + seq![0x3au8] + two_digit_text(minutes % 60))
        }
    } else {
        None
    }
}

/// The value of the two ASCII digits at `at`.
pub open spec fn digit_pair_value(text: Seq<u8>, at: int) -> int {
    (text[at] - 0x30) * 10 + (text[at + 1] - 0x30)
}

/// Whether the bytes at `at` and `at + 1` are ASCII digits.
pub open spec fn digit_pair(text: Seq<u8>, at: int) -> bool {
    0x30 <= text[at] <= 0x39 && 0x30 <= text[at + 1] <= 0x39
}

/// The magnitude of an offset, in whole minutes rounded half up.
pub open spec fn rounded_minutes(seconds: int) -> int {
    ((if seconds < 0 { -seconds } else { seconds }) + 30) / 60
}

proof fn lemma_two_digit_text(value: int)
    requires
        0 <= value < 100,
    ensures
        two_digit_text(value).len() == 2,
        digit_pair(two_digit_text(value), 0),
        digit_pair_value(two_digit_text(value), 0) == value,
{
}

/// A UTC offset within a day is written `±HH:MM`: the sign of the offset,
/// then hours and minutes below 60 that together make the offset's
/// magnitude rounded to the nearest minute; `Z` replaces it only under
/// `UTC_Z` when that rounds to zero.
pub proof fn lemma_offset_text_denotes_offset(seconds: int, utc_z: bool)
    requires
        -86_400 <= seconds < 86_400,
    ensures
        utc_z && rounded_minutes(seconds) == 0 ==> offset_text(seconds, utc_z) == Some(seq![0x5au8]),
        !(utc_z && rounded_minutes(seconds) == 0) ==> offset_text(seconds, utc_z) is Some && {
            let t = offset_text(seconds, utc_z)->0;
            &&& t.len() == 6
            &&& t[0] == (if seconds < 0 { 0x2du8 } else { 0x2bu8 })
            &&& t[3] == 0x3au8
            &&& digit_pair(t, 1) && digit_pair(t, 4)
            &&& digit_pair_value(t, 4) < 60
            &&& 60 * digit_pair_value(t, 1) + digit_pair_value(t, 4) == rounded_minutes(seconds)
        },
{
    reveal(offset_text);
    let minutes = rounded_minutes(seconds);
    assert(0 <= minutes <= 1440);
    if !(utc_z && minutes == 0) {
        let hours = minutes / 60;
        let rest = minutes % 60;
        lemma_two_digit_text(hours);
        lemma_two_digit_text(rest);
        let sign = seq![if seconds < 0 { 0x2du8 } else { 0x2bu8 }];
        let t = sign + two_digit_text(hours) + seq![0x3au8] + two_digit_text(rest);
        assert(offset_text(seconds, utc_z) == Some(t));
        assert(t[1] == two_digit_text(hours)[0] && t[2] == two_digit_text(hours)[1]);
        assert(t[4] == two_digit_text(rest)[0] && t[5] == two_digit_text(rest)[1]);
        assert(digit_pair_value(t, 1) == hours);
        assert(digit_pair_value(t, 4) == rest);
    }
}

/// Opposite offsets are written alike but for the sign: the text for `-s`
/// is the text for `s` with `+` turned into `-`.
pub proof fn lemma_offset_text_sign(seconds: int, utc_z: bool)
    requires
        0 < seconds < 86_400,
    ensures
        offset_text(seconds, utc_z) is Some,
        offset_text(-seconds, utc_z) == Some(
            if offset_text(seconds, utc_z)->0[0] == 0x2bu8 {
                offset_text(seconds, utc_z)->0.update(0, 0x2du8)
            } else {
                offset_text(seconds, utc_z)->0
            },
        ),
{
    reveal(offset_text);
    assert(rounded_minutes(seconds) == rounded_minutes(-seconds));
    let minutes = rounded_minutes(seconds);
    if !(utc_z && minutes == 0) {
        let tail = two_digit_text(minutes / 60) + seq![0x3au8] + two_digit_text(minutes % 60);
        assert(seq![0x2bu8] + two_digit_text(minutes / 60) + seq![0x3au8] + two_digit_text(minutes % 60)
            =~= seq![0x2bu8] + tail);
        assert(seq![0x2du8] + two_digit_text(minutes / 60) + seq![0x3au8] + two_digit_text(minutes % 60)
            =~= seq![0x2du8] + tail);
        assert((seq![0x2bu8] + tail).update(0, 0x2du8) =~= seq![0x2du8] + tail);
    }
}

/// The offset in seconds that a datetime's zone gives, None for a naive
/// datetime that is not treated as UTC; Err for a zone left to the caller.
pub open spec fn zone_offset(option: i32, zone: Zone) -> Result<Option<int>, ()> {
    match zone {
        Zone::Utc => Ok(Some(0)),
        Zone::Fixed { days, seconds } => Ok(Some(days * 86_400 + seconds)),
        Zone::Other => Err(()),
        Zone::Naive => Ok(if option & NAIVE_UTC != 0 { Some(0) } else { None }),
    }
}

/// The quoted JSON text of a datetime, or None when the caller's serializer
/// formats it.
pub open spec fn datetime_text(option: i32, date: Date, time: Time, zone: Zone) -> Option<Seq<u8>> {
    let omit = option & OMIT_MICROSECONDS != 0;
    let utc_z = option & UTC_Z != 0;
    match zone_offset(option, zone) {
        Err(()) => None,
        Ok(offset) => match (date_text(date), time_text(time, omit)) {
            (Some(d), Some(t)) => {
                let body = d + seq![0x54u8] + t;
                match offset {
                    None => Some(seq![0x22u8] + body + seq![0x22u8]),
                    Some(s) if s == 0 => Some(seq![0x22u8] + body + (if utc_z {
                        seq![0x5au8]
                    } else {
                        seq![0x2bu8, 0x30u8, 0x30u8, 0x3au8, 0x30u8, 0x30u8]
                    }) + seq![0x22u8]),
                    Some(seconds) => match offset_text(seconds, utc_z) {
                        Some(o) => Some(seq![0x22u8] + body + o + seq![0x22u8]),
                        None => None,
                    },
                }
            },
            _ => None,
        },
    }
}

/// The quoted JSON text of a value, or None when the caller's serializer
/// formats it.
pub open spec fn temporal_text(option: i32, value: Temporal) -> Option<Seq<u8>> {
    let omit = option & OMIT_MICROSECONDS != 0;
    let utc_z = option & UTC_Z != 0;
    if option & PASSTHROUGH_DATETIME != 0 {
        None
    } else {
        match value {
            Temporal::DateTime { date, time, zone } => datetime_text(option, date, time, zone),
            Temporal::Date(date) => match date_text(date) {
                Some(d) => Some(seq![0x22u8] + d + seq![0x22u8]),
                None => None,
            },
            Temporal::Time { time, has_zone } => if has_zone {
                None
            } else {
                match time_text(time, omit) {
                    Some(t) => Some(seq![0x22u8] + t + seq![0x22u8]),
                    None => None,
                }
            },
            Temporal::Other => None,
        }
    }
}

/// Quotes, ordinary date/time fields, six fractional digits and a UTC
/// offset; no byte written here needs JSON escaping.
pub struct FormattedDateTime {
    bytes: Vec<u8>,
}

impl FormattedDateTime {
    /// The bytes written so far.
    pub closed spec fn text(&self) -> Seq<u8> {
        self.bytes@
    }

    /// Text starting with the opening quote.
    pub fn new() -> (formatted: Self)
        ensures
            formatted.text() == seq![0x22u8],
    {
        let mut bytes: Vec<u8> = Vec::with_capacity(34);
        bytes.push(0x22);
        proof {
            assert(bytes@ =~= seq![0x22u8]);
        }
        FormattedDateTime { bytes }
    }

    /// Append one byte.
    pub fn push(&mut self, byte: u8)
        ensures
            final(self).text() == old(self).text().push(byte),
    {
        self.bytes.push(byte);
    }

    /// Append two zero-padded digits of a value below 100.
    pub fn two_digits(&mut self, value: u8)
        requires
            value < 100,
        ensures
            final(self).text() == old(self).text() + two_digit_text(value as int),
    {
        self.bytes.push(0x30 + value / 10);
        self.bytes.push(0x30 + value % 10);
        proof {
            assert(self.bytes@ =~= old(self).text() + two_digit_text(value as int));
        }
    }

    /// Append `YYYY-MM-DD`, or return false, writing nothing, for fields
    /// outside the ordinary ranges (pickle-state constructors accept them;
    /// their Python formatting is preserved instead).
    pub fn date(&mut self, date: Date) -> (written: bool)
        ensures
            written == date_text(date) is Some,
            written ==> final(self).text() == old(self).text() + date_text(date)->0,
            !written ==> final(self).text() == old(self).text(),
    {
        reveal(date_text);
        if !(1 <= date.year && date.year <= 9999) || !(1 <= date.month && date.month <= 12) || !(1
            <= date.day && date.day <= 31) {
            return false;
        }
        self.two_digits((date.year / 100) as u8);
        self.two_digits((date.year % 100) as u8);
        self.push(0x2d);
        self.two_digits(date.month);
        self.push(0x2d);
        self.two_digits(date.day);
        proof {
            assert(self.text() =~= old(self).text() + date_text(date)->0);
        }
        true
    }

    /// Append `HH:MM:SS[.ffffff]`, or return false, writing nothing, for
    /// fields outside the ordinary ranges.
    pub fn time(&mut self, time: Time, omit_microseconds: bool) -> (written: bool)
        ensures
            written == time_text(time, omit_microseconds) is Some,
            written ==> final(self).text() == old(self).text() + time_text(time, omit_microseconds)->0,
            !written ==> final(self).text() == old(self).text(),
    {
        reveal(time_text);
        if time.hour > 23 || time.minute > 59 || time.second > 59 || time.microsecond > 999_999 {
            return false;
        }
        self.two_digits(time.hour);
        self.push(0x3a);
        self.two_digits(time.minute);
        self.push(0x3a);
        self.two_digits(time.second);
        if time.microsecond != 0 && !omit_microseconds {
            self.push(0x2e);
            self.two_digits((time.microsecond / 10_000) as u8);
            self.two_digits((time.microsecond / 100 % 100) as u8);
            self.two_digits((time.microsecond % 100) as u8);
        }
        proof {
            assert(self.text() =~= old(self).text() + time_text(time, omit_microseconds)->0);
        }
        true
    }

    /// Append a UTC offset rounded to minutes, or return false, writing
    /// nothing, outside (-24h, 24h).
    ///
    /// Ignoring offset microseconds can produce -86400 for a valid offset
    /// just above -24 hours; rounding can then give either sign of 24:00.
    pub fn offset(&mut self, seconds: i64, utc_z: bool) -> (written: bool)
        ensures
            written == offset_text(seconds as int, utc_z) is Some,
            written ==> final(self).text() == old(self).text() + offset_text(seconds as int, utc_z)->0,
            !written ==> final(self).text() == old(self).text(),
    {
        reveal(offset_text);
        if !(-86_400 <= seconds && seconds < 86_400) {
            return false;
        }
        let magnitude: u64 = if seconds < 0 { (-seconds) as u64 } else { seconds as u64 };
        let minutes = (magnitude + 30) / 60;
        if minutes == 0 && utc_z {
            self.push(0x5a);
        } else {
            self.push(if seconds < 0 { 0x2d } else { 0x2b });
            self.two_digits((minutes / 60) as u8);
            self.push(0x3a);
            self.two_digits((minutes % 60) as u8);
        }
        proof {
            assert(self.text() =~= old(self).text() + offset_text(seconds as int, utc_z)->0);
        }
        true
    }

    /// The finished bytes.
    pub fn into_bytes(self) -> (bytes: Vec<u8>)
        ensures
            bytes@ == self.text(),
    {
        self.bytes
    }
}

/// Format a datetime, or return None when the caller's serializer owns it.
fn format_datetime(option: i32, date: Date, time: Time, zone: Zone) -> (text: Option<Vec<u8>>)
    ensures
        match datetime_text(option, date, time, zone) {
            Some(t) => text matches Some(v) && v@ == t,
            None => text is None,
        },
{
    let omit = option & OMIT_MICROSECONDS != 0;
    let utc_z = option & UTC_Z != 0;
    let offset_seconds: Option<i64> = match zone {
        Zone::Utc => Some(0),
        Zone::Fixed { days, seconds } => Some(days as i64 * 86_400 + seconds as i64),
        Zone::Other => {
            return None;
        },
        Zone::Naive => if option & NAIVE_UTC != 0 {
            Some(0)
        } else {
            None
        },
    };
    let mut formatted = FormattedDateTime::new();
    if !formatted.date(date) {
        return None;
    }
    formatted.push(0x54);
    if !formatted.time(time, omit) {
        return None;
    }
    let ghost body = formatted.text();
    if let Some(seconds) = offset_seconds {
        if seconds == 0 {
            if utc_z {
                formatted.push(0x5a);
            } else {
                formatted.push(0x2b);
                formatted.push(0x30);
                formatted.push(0x30);
                formatted.push(0x3a);
                formatted.push(0x30);
                formatted.push(0x30);
            }
        } else if !formatted.offset(seconds, utc_z) {
            return None;
        }
    }
    formatted.push(0x22);
    let bytes = formatted.into_bytes();
    proof {
        let d = date_text(date)->0;
        let t = time_text(time, omit)->0;
        assert(body == seq![0x22u8] + d + seq![0x54u8] + t);
        assert(bytes@ =~= datetime_text(option, date, time, zone)->0);
    }
    Some(bytes)
}

/// Format an exact date, time or datetime as a quoted JSON string, or
/// return None when the caller's serializer owns the value.
pub fn format(option: i32, value: Temporal) -> (text: Option<Vec<u8>>)
    ensures
        match temporal_text(option, value) {
            Some(t) => text matches Some(v) && v@ == t,
            None => text is None,
        },
{
    if option & PASSTHROUGH_DATETIME != 0 {
        return None;
    }
    let omit = option & OMIT_MICROSECONDS != 0;
    let mut formatted = FormattedDateTime::new();
    match value {
        Temporal::DateTime { date, time, zone } => {
            return format_datetime(option, date, time, zone);
        },
        Temporal::Date(date) => {
            if !formatted.date(date) {
                return None;
            }
        },
        Temporal::Time { time, has_zone } => {
            if has_zone || !formatted.time(time, omit) {
                return None;
            }
        },
        Temporal::Other => {
            return None;
        },
    }
    formatted.push(0x22);
    let bytes = formatted.into_bytes();
    proof {
        assert(bytes@ =~= temporal_text(option, value)->0);
    }
    Some(bytes)
}

/// Write an exact date, time or datetime, returning false, with nothing
/// written, when the caller's serializer owns the value.
pub fn write(encoder: &mut Encoder, value: Temporal) -> (result: Result<bool, OutputAllocationError>)
    requires
        old(encoder).wf(),
    ensures
        final(encoder).wf(),
        final(encoder).same_state(&*old(encoder)),
        match temporal_text(old(encoder).flags(), value) {
            None => result == Ok::<bool, OutputAllocationError>(false) && final(encoder).bytes()
                == old(encoder).bytes(),
            Some(t) => result != Ok::<bool, OutputAllocationError>(false) && extended_by(
                old(encoder).is_checked(),
                old(encoder).bytes(),
                final(encoder).bytes(),
                t,
                result is Ok,
            ),
        },
{
    match format(encoder.option(), value) {
        None => Ok(false),
        Some(text) => match encoder.extend(text.as_slice()) {
            Ok(()) => Ok(true),
            Err(e) => Err(e),
        },
    }
}

} // verus!
