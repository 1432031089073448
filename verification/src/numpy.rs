//! NumPy snapshot formatting: metadata checks, nested-array layout, and
//! `datetime64` values as ISO 8601 text.

use vstd::prelude::*;
use chrono::Datelike;
use crate::datetime::two_digit_text;

verus! {

/// Microseconds in a day.
pub const MICROS_PER_DAY: i64 = 86_400_000_000;

/// Why a snapshot was not formatted.
#[derive(Clone, Copy, Debug, PartialEq, Eq, Structural)]
pub enum NumpyError {
    /// A `datetime64` value outside years 0..=9999 or chrono's range.
    InvalidDatetime,
    /// A `datetime64` unit finer than nanoseconds, or a generic unit.
    UnsupportedUnit(UnitName),
    /// Too many dimensions, an item size other than 1, 2, 4 or 8, or a depth above 254.
    InvalidMetadata,
    /// The element count overflows.
    ShapeTooLarge,
    /// The byte length is not the element count times the item size.
    LengthMismatch,
    /// An unsupported kind and item size.
    UnsupportedDatatype,
}

/// Name of an unsupported `datetime64` unit, for the error message.
#[derive(Clone, Copy, Debug, PartialEq, Eq, Structural)]
pub enum UnitName {
    Picoseconds,
    Femtoseconds,
    Attoseconds,
    Generic,
}

impl UnitName {
    /// The unit's name as it appears in the error message.
    pub fn name(&self) -> (name: &'static str)
        ensures
            name@ == match self {
                UnitName::Picoseconds => "picoseconds"@,
                UnitName::Femtoseconds => "femtoseconds"@,
                UnitName::Attoseconds => "attoseconds"@,
                UnitName::Generic => "generic"@,
            },
    {
        match self {
            UnitName::Picoseconds => "picoseconds",
            UnitName::Femtoseconds => "femtoseconds",
            UnitName::Attoseconds => "attoseconds",
            UnitName::Generic => "generic",
        }
    }
}

/// A `datetime64` unit.
#[derive(Clone, Copy, Debug, PartialEq, Eq, Structural)]
pub enum DateUnit {
    Years,
    Months,
    Weeks,
    Days,
    Hours,
    Minutes,
    Seconds,
    Milliseconds,
    Microseconds,
    Nanoseconds,
    Unsupported(UnitName),
}

/// The unit a unit code names.
pub open spec fn unit_of(code: Seq<u8>) -> DateUnit {
    if code == seq![0x59u8] {
        DateUnit::Years
    } else if code == seq![0x4du8] {
        DateUnit::Months
    } else if code == seq![0x57u8] {
        DateUnit::Weeks
    } else if code == seq![0x44u8] {
        DateUnit::Days
    } else if code == seq![0x68u8] {
        DateUnit::Hours
    } else if code == seq![0x6du8] {
        DateUnit::Minutes
    } else if code == seq![0x73u8] {
        DateUnit::Seconds
    } else if code == seq![0x6du8, 0x73u8] {
        DateUnit::Milliseconds
    } else if code == seq![0x75u8, 0x73u8] {
        DateUnit::Microseconds
    } else if code == seq![0x6eu8, 0x73u8] {
        DateUnit::Nanoseconds
    } else if code == seq![0x70u8, 0x73u8] {
        DateUnit::Unsupported(UnitName::Picoseconds)
    } else if code == seq![0x66u8, 0x73u8] {
        DateUnit::Unsupported(UnitName::Femtoseconds)
    } else if code == seq![0x61u8, 0x73u8] {
        DateUnit::Unsupported(UnitName::Attoseconds)
    } else {
        DateUnit::Unsupported(UnitName::Generic)
    }
}

/// Read a `datetime64` unit code such as `D`, `ms` or `ns`.
pub fn parse_unit(code: &[u8]) -> (unit: DateUnit)
    ensures
        unit == unit_of(code@),
{
    let len = code.len();
    let unit = if len == 1 {
        let c = code[0];
        if c == 0x59 {
            DateUnit::Years
        } else if c == 0x4d {
            DateUnit::Months
        } else if c == 0x57 {
            DateUnit::Weeks
        } else if c == 0x44 {
            DateUnit::Days
        } else if c == 0x68 {
            DateUnit::Hours
        } else if c == 0x6d {
            DateUnit::Minutes
        } else if c == 0x73 {
            DateUnit::Seconds
        } else {
            DateUnit::Unsupported(UnitName::Generic)
        }
    } else if len == 2 && code[1] == 0x73 {
        let c = code[0];
        if c == 0x6d {
            DateUnit::Milliseconds
        } else if c == 0x75 {
            DateUnit::Microseconds
        } else if c == 0x6e {
            DateUnit::Nanoseconds
        } else if c == 0x70 {
            DateUnit::Unsupported(UnitName::Picoseconds)
        } else if c == 0x66 {
            DateUnit::Unsupported(UnitName::Femtoseconds)
        } else if c == 0x61 {
            DateUnit::Unsupported(UnitName::Attoseconds)
        } else {
            DateUnit::Unsupported(UnitName::Generic)
        }
    } else {
        DateUnit::Unsupported(UnitName::Generic)
    };
    proof {
        if len == 1 {
            assert(code@ =~= seq![code@[0]]);
        } else if len == 2 {
            assert(code@ =~= seq![code@[0], code@[1]]);
        }
    }
    unit
}

/// Two zero-padded ASCII digits of a value below 100.
pub fn two_digits(value: u32) -> (digits: [u8; 2])
    requires
        value < 100,
    ensures
        digits@ == two_digit_text(value as int),
{
    let digits = [(0x30 + value / 10) as u8, (0x30 + value % 10) as u8];
    proof {
        assert(digits@ =~= two_digit_text(value as int));
    }
    digits
}

/// `YYYY-MM-DD` for a year in 0..=9999.
pub open spec fn date_prefix_text(year: int, month: int, day: int) -> Result<Seq<u8>, NumpyError> {
    if 0 <= year <= 9999 {
        Ok(two_digit_text(year / 100) + two_digit_text(year % 100) + seq![0x2du8] + two_digit_text(
            month,
        ) + seq![0x2du8] + two_digit_text(day))
    } else {
        Err(NumpyError::InvalidDatetime)
    }
}

/// Write the date part of a datetime, rejecting years outside 0..=9999.
pub fn date_prefix(year: i32, month: u32, day: u32) -> (prefix: Result<[u8; 10], NumpyError>)
    requires
        1 <= month <= 12,
        1 <= day <= 31,
    ensures
        match date_prefix_text(year as int, month as int, day as int) {
            Ok(t) => prefix matches Ok(p) && p@ == t,
            Err(e) => prefix == Err::<[u8; 10], NumpyError>(e),
        },
{
    if !(0 <= year && year <= 9999) {
        return Err(NumpyError::InvalidDatetime);
    }
    let y = year as u32;
    let high = two_digits(y / 100);
    let low = two_digits(y % 100);
    let m = two_digits(month);
    let d = two_digits(day);
    let prefix = [high[0], high[1], low[0], low[1], 0x2d, m[0], m[1], 0x2d, d[0], d[1]];
    proof {
        assert(prefix@ =~= date_prefix_text(year as int, month as int, day as int)->Ok_0);
    }
    Ok(prefix)
}

/// The proleptic Gregorian (year, month, day) that falls `days` days after
/// 1970-01-01, when chrono's date type represents it.
pub uninterp spec fn epoch_days_date(days: i32) -> Option<(i32, u32, u32)>;

/// `chrono::NaiveDate::from_epoch_days`, read back as year, month and day.
/// Its result is named; its month lies in 1..=12 and its day in 1..=31, as
/// chrono documents for `month()` and `day()`.
#[verifier::external_body]
fn date_from_epoch_days(days: i32) -> (date: Option<(i32, u32, u32)>)
    ensures
        date == epoch_days_date(days),
        date matches Some(fields) ==> 1 <= fields.1 <= 12 && 1 <= fields.2 <= 31,
{
    match chrono::NaiveDate::from_epoch_days(days) {
        Some(date) => Some((date.year(), date.month(), date.day())),
        None => None,
    }
}

/// `chrono::NaiveDate::from_ymd_opt`, read back as year, month and day: a
/// date it returns has the given fields, and the first day of a month of
/// years 0..=9999 always exists.
#[verifier::external_body]
fn date_from_ymd(year: i32, month: u32, day: u32) -> (date: Option<(i32, u32, u32)>)
    ensures
        date matches Some(fields) ==> fields == (year, month, day),
        0 <= year <= 9999 && 1 <= month <= 12 && day == 1 ==> date == Some((year, month, day)),
{
    match chrono::NaiveDate::from_ymd_opt(year, month, day) {
        Some(date) => Some((date.year(), date.month(), date.day())),
        None => None,
    }
}

/// The date prefix of the day `day` days after the Unix epoch.
pub open spec fn day_prefix_text(day: i64) -> Result<Seq<u8>, NumpyError> {
    if i32::MIN <= day <= i32::MAX {
        match epoch_days_date(day as i32) {
            Some((y, m, d)) => date_prefix_text(y as int, m as int, d as int),
            None => Err(NumpyError::InvalidDatetime),
        }
    } else {
        Err(NumpyError::InvalidDatetime)
    }
}

/// One validated date prefix retained within a single snapshot serialization.
pub struct DayPrefix {
    previous: Option<(i64, [u8; 10])>,
}

impl DayPrefix {
    /// A retained prefix is the prefix of its day.
    pub closed spec fn wf(&self) -> bool {
        self.previous matches Some((day, prefix)) ==> day_prefix_text(day) == Ok::<Seq<u8>, NumpyError>(
            prefix@,
        )
    }

    /// The day whose prefix is retained, if any.
    pub closed spec fn cached_day(&self) -> Option<i64> {
        match self.previous {
            Some((day, _)) => Some(day),
            None => None,
        }
    }

    /// An empty cache.
    pub fn new() -> (cache: Self)
        ensures
            cache.wf(),
            cache.cached_day() == None::<i64>,
    {
        DayPrefix { previous: None }
    }

    /// The date prefix of a Unix-epoch day, reusing the previous one when the
    /// day repeats.
    pub fn get(&mut self, day: i64) -> (prefix: Result<[u8; 10], NumpyError>)
        requires
            old(self).wf(),
        ensures
            final(self).wf(),
            match day_prefix_text(day) {
                Ok(t) => prefix matches Ok(p) && p@ == t,
                Err(e) => prefix == Err::<[u8; 10], NumpyError>(e),
            },
            prefix is Ok ==> final(self).cached_day() == Some(day),
            prefix is Err ==> final(self).cached_day() == old(self).cached_day(),
    {
        if let Some((previous, prefix)) = self.previous {
            if previous == day {
                return Ok(prefix);
            }
        }
        if !(i32::MIN as i64 <= day && day <= i32::MAX as i64) {
            return Err(NumpyError::InvalidDatetime);
        }
        let (year, month, day_of_month) = match date_from_epoch_days(day as i32) {
            Some(date) => date,
            None => {
                return Err(NumpyError::InvalidDatetime);
            },
        };
        let prefix = date_prefix(year, month, day_of_month)?;
        self.previous = Some((day, prefix));
        Ok(prefix)
    }
}

/// Microseconds per unit for the units that scale by multiplication.
pub open spec fn micros_factor(unit: DateUnit) -> int {
    match unit {
        DateUnit::Weeks => 604_800_000_000,
        DateUnit::Days => 86_400_000_000,
        DateUnit::Hours => 3_600_000_000,
        DateUnit::Minutes => 60_000_000,
        DateUnit::Seconds => 1_000_000,
        DateUnit::Milliseconds => 1000,
        _ => 1,
    }
}

/// The date prefix and the microseconds into that day of a `datetime64`
/// value in its unit.
pub open spec fn datetime_parts(value: i64, unit: DateUnit) -> Result<(Seq<u8>, int), NumpyError> {
    match unit {
        DateUnit::Years | DateUnit::Months => {
            let (years, month) = if unit == DateUnit::Years {
                (value as int, 1int)
            } else {
                (value as int / 12, value as int % 12 + 1)
            };
            let year = years + 1970;
            if 0 <= year <= 9999 {
                Ok((date_prefix_text(year, month, 1)->Ok_0, 0))
            } else {
                Err(NumpyError::InvalidDatetime)
            }
        },
        DateUnit::Unsupported(name) => Err(NumpyError::UnsupportedUnit(name)),
        _ => {
            let micros = match unit {
                DateUnit::Nanoseconds => value as int / 1000,
                DateUnit::Microseconds => value as int,
                _ => value as int * micros_factor(unit),
            };
            if micros < i64::MIN || micros > i64::MAX {
                Err(NumpyError::InvalidDatetime)
            } else {
                match day_prefix_text((micros / MICROS_PER_DAY as int) as i64) {
                    Ok(prefix) => Ok((prefix, micros % MICROS_PER_DAY as int)),
                    Err(e) => Err(e),
                }
            }
        },
    }
}

/// The quoted text of a `datetime64` value: the date, the time to the
/// second, microseconds when nonzero and not omitted, and a UTC suffix under
/// `NAIVE_UTC`.
pub open spec fn datetime_text(value: i64, unit: DateUnit, option: i32) -> Result<Seq<u8>, NumpyError> {
    match datetime_parts(value, unit) {
        Err(e) => Err(e),
        Ok((prefix, micros_in_day)) => Ok(seq![0x22u8] + prefix + time_of_day_text(micros_in_day, option)
            + seq![0x22u8]),
    }
}

/// `THH:MM:SS`, then `.ffffff` when the microseconds are nonzero and not
/// omitted, then `Z` or `+00:00` under `NAIVE_UTC`.
pub open spec fn time_of_day_text(micros_in_day: int, option: i32) -> Seq<u8> {
    let seconds = micros_in_day / 1_000_000;
    let micros = micros_in_day % 1_000_000;
    let clock = seq![0x54u8] + two_digit_text(seconds / 3600) + seq![0x3au8] + two_digit_text(
        seconds / 60 % 60,
    ) + seq![0x3au8] + two_digit_text(seconds % 60);
    let fraction = if micros != 0 && option & 8 == 0 {
        seq![0x2eu8] + two_digit_text(micros / 10_000) + two_digit_text(micros / 100 % 100)
            + two_digit_text(micros % 100)
    } else {
        Seq::empty()
    };
    let zone = if option & 2 != 0 {
        if option & 128 != 0 {
            seq![0x5au8]
        } else {
            seq![0x2bu8, 0x30u8, 0x30u8, 0x3au8, 0x30u8, 0x30u8]
        }
    } else {
        Seq::empty()
    };
    clock + fraction + zone
}

/// The time of day and UTC suffix for microseconds within a day.
#[verifier::rlimit(40)]
fn time_of_day(micros_in_day: i64, option: i32) -> (text: Vec<u8>)
    requires
        0 <= micros_in_day < MICROS_PER_DAY,
    ensures
        text@ == time_of_day_text(micros_in_day as int, option),
{
    let mut text: Vec<u8> = Vec::with_capacity(24);
    text.push(0x54);
    let seconds = (micros_in_day / 1_000_000) as u32;
    let micros = (micros_in_day % 1_000_000) as u32;
    let hours = two_digits(seconds / 3600);
    let minutes = two_digits(seconds / 60 % 60);
    let secs = two_digits(seconds % 60);
    text.push(hours[0]);
    text.push(hours[1]);
    text.push(0x3a);
    text.push(minutes[0]);
    text.push(minutes[1]);
    text.push(0x3a);
    text.push(secs[0]);
    text.push(secs[1]);
    let ghost clock = text@;
    if micros != 0 && option & 8 == 0 {
        let a = two_digits(micros / 10_000);
        let b = two_digits(micros / 100 % 100);
        let c = two_digits(micros % 100);
        text.push(0x2e);
        text.push(a[0]);
        text.push(a[1]);
        text.push(b[0]);
        text.push(b[1]);
        text.push(c[0]);
        text.push(c[1]);
    }
    let ghost with_fraction = text@;
    if option & 2 != 0 {
        if option & 128 != 0 {
            text.push(0x5a);
        } else {
            text.push(0x2b);
            text.push(0x30);
            text.push(0x30);
            text.push(0x3a);
            text.push(0x30);
            text.push(0x30);
        }
    }
    proof {
        let s = micros_in_day / 1_000_000;
        assert(clock =~= seq![0x54u8] + two_digit_text(s / 3600) + seq![0x3au8] + two_digit_text(
            s / 60 % 60,
        ) + seq![0x3au8] + two_digit_text(s % 60));
        assert(text@ =~= time_of_day_text(micros_in_day as int, option));
    }
    text
}

/// The date prefix and microseconds into the day of a `datetime64` value.
fn datetime_prefix(value: i64, unit: DateUnit, day_prefix: &mut DayPrefix) -> (parts: Result<([u8; 10], i64), NumpyError>)
    requires
        old(day_prefix).wf(),
    ensures
        final(day_prefix).wf(),
        match datetime_parts(value, unit) {
            Ok((prefix, micros)) => parts matches Ok((p, m)) && p@ == prefix && m == micros,
            Err(e) => parts == Err::<([u8; 10], i64), NumpyError>(e),
        },
{
    match unit {
        DateUnit::Years | DateUnit::Months => {
            let (years, month): (i64, u32) = if unit == DateUnit::Years {
                (value, 1)
            } else {
                let quotient = match value.checked_div_euclid(12) {
                    Some(q) => q,
                    None => {
                        return Err(NumpyError::InvalidDatetime);
                    },
                };
                let remainder = match value.checked_rem_euclid(12) {
                    Some(r) => r,
                    None => {
                        return Err(NumpyError::InvalidDatetime);
                    },
                };
                (quotient, remainder as u32 + 1)
            };
            let year = match years.checked_add(1970) {
                Some(y) => y,
                None => {
                    return Err(NumpyError::InvalidDatetime);
                },
            };
            if !(i32::MIN as i64 <= year && year <= i32::MAX as i64) {
                return Err(NumpyError::InvalidDatetime);
            }
            let (y, m, d) = match date_from_ymd(year as i32, month, 1) {
                Some(date) => date,
                None => {
                    return Err(NumpyError::InvalidDatetime);
                },
            };
            let prefix = date_prefix(y, m, d)?;
            Ok((prefix, 0))
        },
        DateUnit::Unsupported(name) => Err(NumpyError::UnsupportedUnit(name)),
        _ => {
            let micros = match unit {
                DateUnit::Nanoseconds => match value.checked_div_euclid(1000) {
                    Some(q) => q,
                    None => {
                        return Err(NumpyError::InvalidDatetime);
                    },
                },
                DateUnit::Microseconds => value,
                _ => {
                    let factor: i64 = match unit {
                        DateUnit::Weeks => 604_800_000_000,
                        DateUnit::Days => MICROS_PER_DAY,
                        DateUnit::Hours => 3_600_000_000,
                        DateUnit::Minutes => 60_000_000,
                        DateUnit::Seconds => 1_000_000,
                        _ => 1000,
                    };
                    match value.checked_mul(factor) {
                        Some(m) => m,
                        None => {
                            return Err(NumpyError::InvalidDatetime);
                        },
                    }
                },
            };
            let day = match micros.checked_div_euclid(MICROS_PER_DAY) {
                Some(d) => d,
                None => {
                    return Err(NumpyError::InvalidDatetime);
                },
            };
            let in_day = match micros.checked_rem_euclid(MICROS_PER_DAY) {
                Some(r) => r,
                None => {
                    return Err(NumpyError::InvalidDatetime);
                },
            };
            let prefix = day_prefix.get(day)?;
            Ok((prefix, in_day))
        },
    }
}

/// Append one `datetime64` value, or report why it cannot be written; the
/// output is unchanged on error.
pub fn write_datetime(
    output: &mut Vec<u8>,
    value: i64,
    unit: DateUnit,
    option: i32,
    day_prefix: &mut DayPrefix,
) -> (result: Result<(), NumpyError>)
    requires
        old(day_prefix).wf(),
    ensures
        final(day_prefix).wf(),
        match datetime_text(value, unit, option) {
            Ok(text) => result is Ok && final(output)@ == old(output)@ + text,
            Err(e) => result == Err::<(), NumpyError>(e) && final(output)@ == old(output)@,
        },
{
    let (prefix, micros_in_day) = match datetime_prefix(value, unit, day_prefix) {
        Ok(parts) => parts,
        Err(e) => {
            return Err(e);
        },
    };
    let mut text: Vec<u8> = Vec::with_capacity(34);
    text.push(0x22);
    crate::decimal::append(&mut text, &prefix);
    let clock = time_of_day(micros_in_day, option);
    crate::decimal::append(&mut text, clock.as_slice());
    text.push(0x22);
    proof {
        assert(text@ =~= datetime_text(value, unit, option)->Ok_0);
    }
    crate::decimal::append(output, text.as_slice());
    Ok(())
}

/// Number of elements of a shape.
pub open spec fn product(shape: Seq<usize>) -> int
    decreases shape.len(),
{
    if shape.len() == 0 {
        1
    } else {
        shape[0] * product(shape.skip(1))
    }
}

proof fn lemma_product_nonnegative(shape: Seq<usize>)
    ensures
        product(shape) >= 0,
    decreases shape.len(),
{
    if shape.len() > 0 {
        lemma_product_nonnegative(shape.skip(1));
        let a = shape[0] as int;
        let b = product(shape.skip(1));
        assert(a >= 0 && b >= 0 ==> a * b >= 0) by (nonlinear_arith);
    }
}

/// A line break and two spaces per level when indenting, else nothing.
pub open spec fn line_text(option: i32, levels: int) -> Seq<u8> {
    if option & 1 != 0 {
        seq![0x0au8] + Seq::new((2 * levels) as nat, |i: int| 0x20u8)
    } else {
        Seq::empty()
    }
}

/// JSON text of a nested array: `items` in row-major order, `shape` the
/// remaining dimensions, `level` the number of enclosing arrays.
pub open spec fn layout(items: Seq<Seq<u8>>, shape: Seq<usize>, option: i32, depth: int, level: int) -> Seq<u8>
    decreases shape.len(), 1int, 0int,
{
    if shape.len() == 0 {
        if items.len() > 0 {
            items[0]
        } else {
            Seq::empty()
        }
    } else {
        seq![0x5bu8] + elements(items, shape, option, depth, level, shape[0] as int) + (if shape[0]
            != 0 {
            line_text(option, depth + level)
        } else {
            Seq::empty()
        }) + seq![0x5du8]
    }
}

/// The first `n` elements of an array, each preceded by its separator.
pub open spec fn elements(
    items: Seq<Seq<u8>>,
    shape: Seq<usize>,
    option: i32,
    depth: int,
    level: int,
    n: int,
) -> Seq<u8>
    decreases shape.len(), 0int, n,
{
    if shape.len() == 0 || n <= 0 {
        Seq::empty()
    } else {
        let stride = product(shape.skip(1));
        elements(items, shape, option, depth, level, n - 1) + (if n - 1 != 0 {
            seq![0x2cu8]
        } else {
            Seq::empty()
        }) + line_text(option, depth + level + 1) + layout(
            items.subrange((n - 1) * stride, n * stride),
            shape.skip(1),
            option,
            depth,
            level + 1,
        )
    }
}

/// Append a line break and indentation when indenting.
fn push_line(output: &mut Vec<u8>, option: i32, levels: usize)
    requires
        levels <= 1024,
    ensures
        final(output)@ == old(output)@ + line_text(option, levels as int),
{
    let ghost before = output@;
    if option & 1 != 0 {
        output.push(0x0a);
        let mut written: usize = 0;
        while written < 2 * levels
            invariant
                written <= 2 * levels,
                levels <= 1024,
                output@ == before + seq![0x0au8] + Seq::new(written as nat, |i: int| 0x20u8),
            decreases 2 * levels - written,
        {
            output.push(0x20);
            written = written + 1;
            proof {
                assert(output@ =~= before + seq![0x0au8] + Seq::new(written as nat, |i: int| 0x20u8));
            }
        }
        proof {
            assert(output@ =~= before + line_text(option, levels as int));
        }
    } else {
        assert(before + Seq::<u8>::empty() =~= before);
    }
}

/// Append the nested array for the `count` items starting at `first`, with
/// dimensions `shape[axis..]`.
fn write_array(
    output: &mut Vec<u8>,
    items: &[Vec<u8>],
    first: usize,
    count: usize,
    shape: &[usize],
    axis: usize,
    option: i32,
    depth: usize,
)
    requires
        axis < shape@.len() <= 64,
        depth <= 254,
        count == product(shape@.skip(axis as int)),
        first + count <= items@.len(),
    ensures
        final(output)@ == old(output)@ + layout(
            items@.subrange(first as int, first + count).map_values(|v: Vec<u8>| v@),
            shape@.skip(axis as int),
            option,
            depth as int,
            axis as int,
        ),
    decreases shape@.len() - axis,
{
    let ghost rest = shape@.skip(axis as int);
    let ghost views = items@.subrange(first as int, first + count).map_values(|v: Vec<u8>| v@);
    let n = shape[axis];
    proof {
        assert(rest[0] == n);
        assert(rest.skip(1) =~= shape@.skip(axis + 1));
        lemma_product_nonnegative(shape@.skip(axis + 1));
    }
    output.push(0x5b);
    let ghost start = output@;
    if n == 0 {
        output.push(0x5d);
        proof {
            assert(elements(views, rest, option, depth as int, axis as int, 0) =~= Seq::<u8>::empty());
            assert(output@ =~= old(output)@ + layout(views, rest, option, depth as int, axis as int));
        }
        return;
    }
    let stride = count / n;
    proof {
        let b = product(shape@.skip(axis + 1));
        assert(count == n * b);
        assert(n > 0 && count == n * b ==> count / n == b) by (nonlinear_arith);
    }
    let total = items.len();
    let mut index: usize = 0;
    while index < n
        invariant
            total == items@.len(),
            rest.len() > 0,
            rest.skip(1) == shape@.skip(axis + 1),
            axis < shape@.len() <= 64,
            depth <= 254,
            rest == shape@.skip(axis as int),
            n == shape@[axis as int],
            n > 0,
            stride == product(shape@.skip(axis + 1)),
            count == n * stride,
            first + count <= items@.len(),
            views == items@.subrange(first as int, first + count).map_values(|v: Vec<u8>| v@),
            index <= n,
            output@ == start + elements(views, rest, option, depth as int, axis as int, index as int),
        decreases n - index,
    {
        let ghost lo = index * stride;
        let ghost hi = lo + stride;
        proof {
            assert(hi <= n * stride && (index + 1) * stride == hi) by (nonlinear_arith)
                requires
                    index < n,
                    stride >= 0,
                    lo == index * stride,
                    hi == lo + stride,
            ;
            assert(lo <= count && hi <= count);
            assert(first + hi <= total);
        }
        if index != 0 {
            output.push(0x2c);
        }
        push_line(output, option, depth + axis + 1);
        let child = first + index * stride;
        let ghost sub = views.subrange(lo, hi);
        proof {
            assert(sub =~= items@.subrange(child as int, child + stride).map_values(|v: Vec<u8>| v@));
        }
        if axis + 1 == shape.len() {
            proof {
                assert(stride == 1) by {
                    assert(shape@.skip(axis + 1).len() == 0);
                }
            }
            crate::decimal::append(output, items[child].as_slice());
            proof {
                assert(sub.len() == 1);
                assert(sub[0] == items@[child as int]@);
                assert(rest.skip(1).len() == 0);
                assert(layout(sub, rest.skip(1), option, depth as int, axis + 1) == sub[0]);
            }
        } else {
            write_array(output, items, child, stride, shape, axis + 1, option, depth);
        }
        proof {
            assert(elements(views, rest, option, depth as int, axis as int, index + 1) == elements(
                views,
                rest,
                option,
                depth as int,
                axis as int,
                index as int,
            ) + (if index != 0 {
                seq![0x2cu8]
            } else {
                Seq::empty()
            }) + line_text(option, depth + axis + 1) + layout(sub, rest.skip(1), option, depth as int, axis + 1));
        }
        index = index + 1;
        proof {
            assert(output@ =~= start + elements(views, rest, option, depth as int, axis as int, index as int));
        }
    }
    push_line(output, option, depth + axis);
    output.push(0x5d);
    proof {
        assert(output@ =~= old(output)@ + layout(views, rest, option, depth as int, axis as int));
    }
}

/// Number of elements of every prefix of a shape, as a left fold.
pub proof fn lemma_product_push(shape: Seq<usize>, size: usize)
    ensures
        product(shape.push(size)) == product(shape) * size,
    decreases shape.len(),
{
    let pushed = shape.push(size);
    if shape.len() > 0 {
        lemma_product_push(shape.skip(1), size);
        assert(pushed.skip(1) =~= shape.skip(1).push(size));
        let a = shape[0] as int;
        let b = product(shape.skip(1));
        assert(pushed[0] == a);
        assert(product(pushed) == a * product(pushed.skip(1)));
        assert(a * (b * size) == (a * b) * size) by (nonlinear_arith);
    } else {
        assert(pushed.skip(1) =~= Seq::<usize>::empty());
        assert(product(pushed.skip(1)) == 1);
        assert(product(pushed) == size * 1);
    }
}

/// Every partial product of the shape, taken left to right, fits in `usize`.
pub open spec fn prefix_products_fit(shape: Seq<usize>) -> bool {
    forall|k: int| 0 <= k <= shape.len() ==> #[trigger] product(shape.take(k)) <= usize::MAX
}

/// The element count of a snapshot, or why its metadata is refused.
pub open spec fn snapshot_count(len: int, shape: Seq<usize>, itemsize: int, depth: int) -> Result<int, NumpyError> {
    if shape.len() > 64 || !(itemsize == 1 || itemsize == 2 || itemsize == 4 || itemsize == 8)
        || depth > 254 {
        Err(NumpyError::InvalidMetadata)
    } else if !prefix_products_fit(shape) {
        Err(NumpyError::ShapeTooLarge)
    } else if product(shape) * itemsize != len {
        Err(NumpyError::LengthMismatch)
    } else {
        Ok(product(shape))
    }
}

/// Check a snapshot's dimensions, item size and depth against its byte
/// length, and return its element count.
pub fn check_snapshot(len: usize, shape: &[usize], itemsize: usize, depth: usize) -> (count: Result<usize, NumpyError>)
    ensures
        match snapshot_count(len as int, shape@, itemsize as int, depth as int) {
            Ok(c) => count matches Ok(n) && n == c,
            Err(e) => count == Err::<usize, NumpyError>(e),
        },
{
    if shape.len() > 64 || !(itemsize == 1 || itemsize == 2 || itemsize == 4 || itemsize == 8)
        || depth > 254 {
        return Err(NumpyError::InvalidMetadata);
    }
    let mut count: usize = 1;
    let mut k: usize = 0;
    proof {
        assert(shape@.take(0) =~= Seq::<usize>::empty());
    }
    while k < shape.len()
        invariant
            k <= shape@.len() <= 64,
            itemsize == 1 || itemsize == 2 || itemsize == 4 || itemsize == 8,
            depth <= 254,
            count == product(shape@.take(k as int)),
            forall|j: int| 0 <= j <= k ==> #[trigger] product(shape@.take(j)) <= usize::MAX,
        decreases shape@.len() - k,
    {
        proof {
            assert(shape@.take(k + 1) =~= shape@.take(k as int).push(shape@[k as int]));
            lemma_product_push(shape@.take(k as int), shape@[k as int]);
        }
        match count.checked_mul(shape[k]) {
            Some(next) => {
                count = next;
            },
            None => {
                proof {
                    assert(!(product(shape@.take(k + 1)) <= usize::MAX));
                    assert(!prefix_products_fit(shape@));
                }
                return Err(NumpyError::ShapeTooLarge);
            },
        }
        k = k + 1;
    }
    proof {
        assert(shape@.take(shape@.len() as int) =~= shape@);
    }
    match count.checked_mul(itemsize) {
        Some(total) => {
            if total == len {
                Ok(count)
            } else {
                Err(NumpyError::LengthMismatch)
            }
        },
        None => Err(NumpyError::LengthMismatch),
    }
}

/// How the items of a snapshot are written, chosen by dtype kind and size.
#[derive(Clone, Copy, Debug, PartialEq, Eq, Structural)]
pub enum ItemFormat {
    Boolean,
    Signed,
    Unsigned,
    Float,
    Datetime,
    Unsupported,
}

/// The item format of a dtype kind code (`b`, `i`, `u`, `f`, `M`) and item size.
pub open spec fn item_format_of(kind: Seq<u8>, itemsize: int) -> ItemFormat {
    let integral = itemsize == 1 || itemsize == 2 || itemsize == 4 || itemsize == 8;
    if kind == seq![0x62u8] && itemsize == 1 {
        ItemFormat::Boolean
    } else if kind == seq![0x69u8] && integral {
        ItemFormat::Signed
    } else if kind == seq![0x75u8] && integral {
        ItemFormat::Unsigned
    } else if kind == seq![0x66u8] && (itemsize == 2 || itemsize == 4 || itemsize == 8) {
        ItemFormat::Float
    } else if kind == seq![0x4du8] && itemsize == 8 {
        ItemFormat::Datetime
    } else {
        ItemFormat::Unsupported
    }
}

/// Select the item format for a dtype kind code and item size.
pub fn item_format(kind: &[u8], itemsize: usize) -> (format: ItemFormat)
    ensures
        format == item_format_of(kind@, itemsize as int),
{
    if kind.len() != 1 {
        return ItemFormat::Unsupported;
    }
    let c = kind[0];
    proof {
        assert(kind@ =~= seq![c]);
    }
    let integral = itemsize == 1 || itemsize == 2 || itemsize == 4 || itemsize == 8;
    if c == 0x62 && itemsize == 1 {
        ItemFormat::Boolean
    } else if c == 0x69 && integral {
        ItemFormat::Signed
    } else if c == 0x75 && integral {
        ItemFormat::Unsigned
    } else if c == 0x66 && (itemsize == 2 || itemsize == 4 || itemsize == 8) {
        ItemFormat::Float
    } else if c == 0x4d && itemsize == 8 {
        ItemFormat::Datetime
    } else {
        ItemFormat::Unsupported
    }
}

/// 256 raised to `n`.
pub open spec fn pow256(n: nat) -> nat
    decreases n,
{
    if n == 0 {
        1
    } else {
        256 * pow256((n - 1) as nat)
    }
}

/// The unsigned value of little-endian bytes.
pub open spec fn le_value(bytes: Seq<u8>) -> nat
    decreases bytes.len(),
{
    if bytes.len() == 0 {
        0
    } else {
        bytes[0] as nat + 256 * le_value(bytes.skip(1))
    }
}

/// The two's-complement value of little-endian bytes.
pub open spec fn signed_value(bytes: Seq<u8>) -> int {
    let full = pow256(bytes.len());
    if 2 * le_value(bytes) >= full {
        le_value(bytes) - full
    } else {
        le_value(bytes) as int
    }
}

/// The bytes of item `index` of `size` bytes each.
pub open spec fn item_bytes(data: Seq<u8>, index: int, size: int) -> Seq<u8> {
    data.subrange(index * size, index * size + size)
}

proof fn lemma_le_value_bound(bytes: Seq<u8>)
    ensures
        le_value(bytes) < pow256(bytes.len()),
    decreases bytes.len(),
{
    if bytes.len() > 0 {
        lemma_le_value_bound(bytes.skip(1));
    }
}

proof fn lemma_pow256_monotonic(a: nat, b: nat)
    requires
        a <= b,
    ensures
        pow256(a) <= pow256(b),
    decreases b,
{
    if a < b {
        lemma_pow256_monotonic(a, (b - 1) as nat);
    }
}

proof fn lemma_pow256_values()
    ensures
        pow256(1) == 256,
        pow256(2) == 65536,
        pow256(4) == 4294967296,
        pow256(7) == 72057594037927936,
        pow256(8) == 18446744073709551616,
{
    reveal_with_fuel(pow256, 9);
}

/// Read item `index` of `size` bytes as a little-endian unsigned integer.
fn item_bits(data: &[u8], index: usize, size: usize) -> (bits: u64)
    requires
        1 <= size <= 8,
        index * size + size <= data@.len(),
    ensures
        bits == le_value(item_bytes(data@, index as int, size as int)),
{
    let total = data.len();
    proof {
        assert(index * size + size <= total);
    }
    let start = index * size;
    let mut value: u64 = 0;
    let mut k: usize = size;
    proof {
        assert(data@.subrange(start + size, start + size) =~= Seq::<u8>::empty());
    }
    while k > 0
        invariant
            k <= size <= 8,
            start == index * size,
            start + size <= data@.len(),
            total == data@.len(),
            value == le_value(data@.subrange(start + k, start + size)),
        decreases k,
    {
        proof {
            lemma_le_value_bound(data@.subrange(start + k, start + size));
            lemma_pow256_monotonic((size - k) as nat, 7);
            lemma_pow256_values();
        }
        k = k - 1;
        let byte = data[start + k];
        proof {
            let s = data@.subrange(start + k, start + size);
            assert(s.skip(1) =~= data@.subrange(start + k + 1, start + size));
            assert(s[0] == byte);
        }
        value = value * 256 + byte as u64;
    }
    value
}

/// The text of an item of a boolean or integer dtype.
pub open spec fn plain_item_text(format: ItemFormat, bytes: Seq<u8>) -> Seq<u8> {
    match format {
        ItemFormat::Boolean => if bytes[0] == 1 {
            seq![0x74u8, 0x72u8, 0x75u8, 0x65u8]
        } else {
            seq![0x66u8, 0x61u8, 0x6cu8, 0x73u8, 0x65u8]
        },
        ItemFormat::Signed => crate::decimal::decimal(signed_value(bytes)),
        _ => crate::decimal::decimal(le_value(bytes) as int),
    }
}

/// The views of a sequence of byte vectors.
pub open spec fn texts_of(items: Seq<Vec<u8>>) -> Seq<Seq<u8>> {
    items.map_values(|v: Vec<u8>| v@)
}

/// Write the text of one boolean or integer item.
fn plain_item(data: &[u8], index: usize, size: usize, format: ItemFormat) -> (text: Vec<u8>)
    requires
        format == ItemFormat::Boolean && size == 1 || (format == ItemFormat::Signed || format
            == ItemFormat::Unsigned) && (size == 1 || size == 2 || size == 4 || size == 8),
        index * size + size <= data@.len(),
    ensures
        text@ == plain_item_text(format, item_bytes(data@, index as int, size as int)),
{
    let bits = item_bits(data, index, size);
    let ghost bytes = item_bytes(data@, index as int, size as int);
    proof {
        lemma_le_value_bound(bytes);
        lemma_pow256_values();
    }
    match format {
        ItemFormat::Boolean => {
            let byte = data[index];
            let mut text: Vec<u8> = Vec::new();
            if byte == 1 {
                crate::decimal::append(&mut text, &[0x74u8, 0x72, 0x75, 0x65]);
            } else {
                crate::decimal::append(&mut text, &[0x66u8, 0x61, 0x6c, 0x73, 0x65]);
            }
            proof {
                assert(bytes[0] == byte);
                assert(text@ =~= plain_item_text(format, bytes));
            }
            text
        },
        ItemFormat::Signed => {
            let full: i128 = if size == 1 {
                256
            } else if size == 2 {
                65536
            } else if size == 4 {
                4294967296
            } else {
                18446744073709551616
            };
            let v = bits as i128;
            let value = if 2 * v >= full {
                v - full
            } else {
                v
            };
            crate::decimal::format_integer(value)
        },
        _ => crate::decimal::format_integer(bits as i128),
    }
}

/// Write the texts of all items of a boolean or integer snapshot.
fn plain_items(data: &[u8], count: usize, size: usize, format: ItemFormat) -> (texts: Vec<Vec<u8>>)
    requires
        format == ItemFormat::Boolean && size == 1 || (format == ItemFormat::Signed || format
            == ItemFormat::Unsigned) && (size == 1 || size == 2 || size == 4 || size == 8),
        count * size == data@.len(),
    ensures
        texts_of(texts@) =~= Seq::new(
            count as nat,
            |i: int| plain_item_text(format, item_bytes(data@, i, size as int)),
        ),
{
    let mut texts: Vec<Vec<u8>> = Vec::new();
    let mut i: usize = 0;
    while i < count
        invariant
            format == ItemFormat::Boolean && size == 1 || (format == ItemFormat::Signed || format
                == ItemFormat::Unsigned) && (size == 1 || size == 2 || size == 4 || size == 8),
            count * size == data@.len(),
            i <= count,
            texts@.len() == i,
            forall|j: int|
                0 <= j < i ==> (#[trigger] texts@[j])@ == plain_item_text(
                    format,
                    item_bytes(data@, j, size as int),
                ),
        decreases count - i,
    {
        proof {
            assert(i * size + size <= count * size) by (nonlinear_arith)
                requires
                    i < count,
            ;
        }
        let text = plain_item(data, i, size, format);
        texts.push(text);
        i = i + 1;
    }
    texts
}

/// The texts of the first `n` items of a `datetime64` snapshot, or the error
/// of the first item that cannot be written.
pub open spec fn datetime_items(data: Seq<u8>, n: nat, unit: DateUnit, option: i32) -> Result<Seq<Seq<u8>>, NumpyError>
    decreases n,
{
    if n == 0 {
        Ok(Seq::empty())
    } else {
        match datetime_items(data, (n - 1) as nat, unit, option) {
            Err(e) => Err(e),
            Ok(texts) => match datetime_text(
                signed_value(item_bytes(data, n - 1, 8)) as i64,
                unit,
                option,
            ) {
                Ok(text) => Ok(texts.push(text)),
                Err(e) => Err(e),
            },
        }
    }
}

/// Write the texts of all items of a `datetime64` snapshot, stopping at the
/// first item that cannot be written.
fn datetime_texts(data: &[u8], count: usize, unit: DateUnit, option: i32) -> (texts: Result<Vec<Vec<u8>>, NumpyError>)
    requires
        count * 8 == data@.len(),
    ensures
        match datetime_items(data@, count as nat, unit, option) {
            Ok(t) => texts matches Ok(v) && texts_of(v@) == t,
            Err(e) => texts == Err::<Vec<Vec<u8>>, NumpyError>(e),
        },
        texts matches Ok(v) ==> v@.len() == count,
{
    let mut cache = DayPrefix::new();
    let mut texts: Vec<Vec<u8>> = Vec::new();
    let mut i: usize = 0;
    proof {
        assert(texts_of(texts@) =~= Seq::<Seq<u8>>::empty());
    }
    while i < count
        invariant
            count * 8 == data@.len(),
            i <= count,
            texts@.len() == i,
            cache.wf(),
            datetime_items(data@, i as nat, unit, option) == Ok::<Seq<Seq<u8>>, NumpyError>(
                texts_of(texts@),
            ),
        decreases count - i,
    {
        proof {
            assert(i * 8 + 8 <= count * 8);
        }
        let bits = item_bits(data, i, 8);
        let ghost bytes = item_bytes(data@, i as int, 8);
        proof {
            lemma_le_value_bound(bytes);
            lemma_pow256_values();
        }
        let wide = bits as i128;
        let signed = if wide >= 9223372036854775808 {
            wide - 18446744073709551616
        } else {
            wide
        };
        let value = signed as i64;
        proof {
            assert(signed == signed_value(bytes));
        }
        let mut text: Vec<u8> = Vec::new();
        match write_datetime(&mut text, value, unit, option, &mut cache) {
            Ok(()) => {},
            Err(e) => {
                proof {
                    lemma_datetime_error_persists(data@, (i + 1) as nat, count as nat, unit, option);
                }
                return Err(e);
            },
        }
        proof {
            assert(text@ =~= datetime_text(value, unit, option)->Ok_0);
        }
        let ghost before = texts@;
        let ghost written = text@;
        texts.push(text);
        i = i + 1;
        proof {
            assert(texts_of(texts@) =~= texts_of(before).push(written));
        }
    }
    Ok(texts)
}

proof fn lemma_datetime_error_persists(data: Seq<u8>, m: nat, n: nat, unit: DateUnit, option: i32)
    requires
        m <= n,
        datetime_items(data, m, unit, option) is Err,
    ensures
        datetime_items(data, n, unit, option) == datetime_items(data, m, unit, option),
    decreases n,
{
    if m < n {
        lemma_datetime_error_persists(data, m, (n - 1) as nat, unit, option);
    }
}

/// Write the texts of all items of a floating-point snapshot with
/// `float_text`, which receives each item's bits and size.
fn float_items<F: Fn(u64, usize) -> Vec<u8>>(data: &[u8], count: usize, size: usize, float_text: &F) -> (texts: Vec<Vec<u8>>)
    requires
        1 <= size <= 8,
        count * size == data@.len(),
        forall|bits: u64, item_size: usize| float_text.requires((bits, item_size)),
    ensures
        texts@.len() == count,
        forall|j: int|
            0 <= j < count ==> float_text.ensures(
                (le_value(item_bytes(data@, j, size as int)) as u64, size),
                #[trigger] texts@[j],
            ),
{
    let mut texts: Vec<Vec<u8>> = Vec::new();
    let mut i: usize = 0;
    while i < count
        invariant
            1 <= size <= 8,
            count * size == data@.len(),
            forall|bits: u64, item_size: usize| float_text.requires((bits, item_size)),
            i <= count,
            texts@.len() == i,
            forall|j: int|
                0 <= j < i ==> float_text.ensures(
                    (le_value(item_bytes(data@, j, size as int)) as u64, size),
                    #[trigger] texts@[j],
                ),
        decreases count - i,
    {
        proof {
            assert(i * size + size <= count * size) by (nonlinear_arith)
                requires
                    i < count,
            ;
        }
        let bits = item_bits(data, i, size);
        let text = float_text(bits, size);
        texts.push(text);
        i = i + 1;
    }
    texts
}

/// Write the nested JSON array of `items` in row-major order with the
/// dimensions `shape`; a snapshot without dimensions is its single item.
pub fn write_layout(items: &[Vec<u8>], shape: &[usize], option: i32, depth: usize) -> (output: Vec<u8>)
    requires
        shape@.len() <= 64,
        depth <= 254,
        items@.len() == product(shape@),
    ensures
        output@ == layout(texts_of(items@), shape@, option, depth as int, 0),
{
    let mut output: Vec<u8> = Vec::new();
    if shape.len() == 0 {
        crate::decimal::append(&mut output, items[0].as_slice());
        proof {
            assert(output@ =~= layout(texts_of(items@), shape@, option, depth as int, 0));
        }
    } else {
        let count = items.len();
        proof {
            assert(shape@.skip(0) =~= shape@);
            assert(items@.subrange(0, count as int) =~= items@);
        }
        write_array(&mut output, items, 0, count, shape, 0, option, depth);
        proof {
            assert(output@ =~= layout(texts_of(items@), shape@, option, depth as int, 0));
        }
    }
    output
}

/// The JSON text of a snapshot whose items are not floating point, or why it
/// is refused.
pub open spec fn snapshot_json(
    data: Seq<u8>,
    shape: Seq<usize>,
    kind: Seq<u8>,
    itemsize: int,
    unit: Seq<u8>,
    option: i32,
    depth: int,
) -> Result<Seq<u8>, NumpyError> {
    match snapshot_count(data.len() as int, shape, itemsize, depth) {
        Err(e) => Err(e),
        Ok(count) => if count == 0 {
            Ok(layout(Seq::empty(), shape, option, depth, 0))
        } else {
            match item_format_of(kind, itemsize) {
                ItemFormat::Unsupported => Err(NumpyError::UnsupportedDatatype),
                ItemFormat::Datetime => match datetime_items(data, count as nat, unit_of(unit), option) {
                    Ok(texts) => Ok(layout(texts, shape, option, depth, 0)),
                    Err(e) => Err(e),
                },
                format => Ok(
                    layout(
                        Seq::new(count as nat, |i: int| plain_item_text(format, item_bytes(data, i, itemsize))),
                        shape,
                        option,
                        depth,
                        0,
                    ),
                ),
            }
        },
    }
}

/// Whether a snapshot passes its checks, has items, and has a floating-point
/// dtype, so that its item texts come from the caller's float formatter.
pub open spec fn float_items_needed(len: int, shape: Seq<usize>, kind: Seq<u8>, itemsize: int, depth: int) -> bool {
    &&& item_format_of(kind, itemsize) == ItemFormat::Float
    &&& snapshot_count(len, shape, itemsize, depth) is Ok
    &&& snapshot_count(len, shape, itemsize, depth)->Ok_0 > 0
}

/// Format a NumPy snapshot: its raw items `data`, its dimensions, dtype kind
/// code, item size and `datetime64` unit code. Floating-point items are
/// written by `float_text`, which receives each item's little-endian bits and
/// its size; every other item is written here.
pub fn numpy_dumps<F: Fn(u64, usize) -> Vec<u8>>(
    data: &[u8],
    shape: &[usize],
    kind: &[u8],
    itemsize: usize,
    unit: &[u8],
    option: i32,
    depth: usize,
    float_text: F,
) -> (result: Result<Vec<u8>, NumpyError>)
    requires
        forall|bits: u64, item_size: usize| float_text.requires((bits, item_size)),
    ensures
        !float_items_needed(data@.len() as int, shape@, kind@, itemsize as int, depth as int)
            ==> match snapshot_json(data@, shape@, kind@, itemsize as int, unit@, option, depth as int) {
            Ok(text) => result matches Ok(out) && out@ == text,
            Err(e) => result == Err::<Vec<u8>, NumpyError>(e),
        },
        float_items_needed(data@.len() as int, shape@, kind@, itemsize as int, depth as int) ==> (
        result matches Ok(out) && exists|texts: Seq<Vec<u8>>|
            texts.len() == product(shape@) && (forall|j: int|
                0 <= j < texts.len() ==> float_text.ensures(
                    (#[verifier::truncate] (le_value(item_bytes(data@, j, itemsize as int)) as u64), itemsize),
                    #[trigger] texts[j],
                )) && out@ == layout(texts_of(texts), shape@, option, depth as int, 0)),
{
    let count = check_snapshot(data.len(), shape, itemsize, depth)?;
    if count == 0 {
        let none: Vec<Vec<u8>> = Vec::new();
        proof {
            assert(texts_of(none@) =~= Seq::<Seq<u8>>::empty());
        }
        return Ok(write_layout(none.as_slice(), shape, option, depth));
    }
    let format = item_format(kind, itemsize);
    let texts = match format {
        ItemFormat::Unsupported => {
            return Err(NumpyError::UnsupportedDatatype);
        },
        ItemFormat::Datetime => datetime_texts(data, count, parse_unit(unit), option)?,
        ItemFormat::Float => float_items(data, count, itemsize, &float_text),
        _ => {
            let plain = plain_items(data, count, itemsize, format);
            proof {
                assert(texts_of(plain@).len() == count);
            }
            plain
        },
    };
    let output = write_layout(texts.as_slice(), shape, option, depth);
    proof {
        if format == ItemFormat::Float {
            assert(texts@.len() == count);
        }
    }
    Ok(output)
}

/// Whether the option bits allow the numeric root fast path: `SERIALIZE_NUMPY`
/// is set and nothing but `APPEND_NEWLINE` besides.
pub fn numeric_root_option(option: i32) -> (allowed: bool)
    ensures
        allowed == (option & crate::encoder::SERIALIZE_NUMPY != 0 && option & !(
        crate::encoder::SERIALIZE_NUMPY | crate::encoder::APPEND_NEWLINE) == 0),
{
    option & crate::encoder::SERIALIZE_NUMPY != 0 && option & !(crate::encoder::SERIALIZE_NUMPY
        | crate::encoder::APPEND_NEWLINE) == 0
}

/// A NumPy scalar type's storage: its width and how its bits are read.
#[derive(Clone, Copy, Debug, PartialEq, Eq, Structural)]
pub enum ScalarKind {
    Bool,
    I8,
    I16,
    I32,
    I64,
    U8,
    U16,
    U32,
    U64,
    F16,
    F32,
    F64,
}

/// The value of a scalar, with floats kept as their bits.
#[derive(Clone, Copy, Debug, PartialEq, Eq, Structural)]
pub enum ScalarValue {
    Bool(bool),
    Signed(i64),
    Unsigned(u64),
    Float16(u16),
    Float32(u32),
    Float64(u64),
}

/// The number of bytes a scalar kind stores.
pub open spec fn kind_width(kind: ScalarKind) -> int {
    match kind {
        ScalarKind::Bool | ScalarKind::I8 | ScalarKind::U8 => 1,
        ScalarKind::I16 | ScalarKind::U16 | ScalarKind::F16 => 2,
        ScalarKind::I32 | ScalarKind::U32 | ScalarKind::F32 => 4,
        _ => 8,
    }
}

/// The value stored in little-endian bytes of a scalar kind.
pub open spec fn scalar_of(kind: ScalarKind, raw: Seq<u8>) -> ScalarValue {
    match kind {
        ScalarKind::Bool => ScalarValue::Bool(raw[0] == 1),
        ScalarKind::I8 | ScalarKind::I16 | ScalarKind::I32 | ScalarKind::I64 => ScalarValue::Signed(
            signed_value(raw) as i64,
        ),
        ScalarKind::U8 | ScalarKind::U16 | ScalarKind::U32 | ScalarKind::U64 => ScalarValue::Unsigned(
            le_value(raw) as u64,
        ),
        ScalarKind::F16 => ScalarValue::Float16(le_value(raw) as u16),
        ScalarKind::F32 => ScalarValue::Float32(le_value(raw) as u32),
        ScalarKind::F64 => ScalarValue::Float64(le_value(raw) as u64),
    }
}

impl ScalarKind {
    /// The number of bytes this kind stores.
    pub fn width(&self) -> (width: usize)
        ensures
            width == kind_width(*self),
    {
        match self {
            ScalarKind::Bool | ScalarKind::I8 | ScalarKind::U8 => 1,
            ScalarKind::I16 | ScalarKind::U16 | ScalarKind::F16 => 2,
            ScalarKind::I32 | ScalarKind::U32 | ScalarKind::F32 => 4,
            _ => 8,
        }
    }
}

/// Whether a NumPy scalar type's `__name__` is one whose values are written
/// natively: the booleans, the sized integers, `longlong`, `ulonglong` and
/// the three float widths.
pub open spec fn is_scalar_type_name(name: Seq<u8>) -> bool {
    name == seq![0x62u8, 0x6fu8, 0x6fu8, 0x6cu8]
    || name == seq![0x62u8, 0x6fu8, 0x6fu8, 0x6cu8, 0x5fu8]
    || name == seq![0x69u8, 0x6eu8, 0x74u8, 0x38u8]
    || name == seq![0x69u8, 0x6eu8, 0x74u8, 0x31u8, 0x36u8]
    || name == seq![0x69u8, 0x6eu8, 0x74u8, 0x33u8, 0x32u8]
    || name == seq![0x69u8, 0x6eu8, 0x74u8, 0x36u8, 0x34u8]
    || name == seq![0x75u8, 0x69u8, 0x6eu8, 0x74u8, 0x38u8]
    || name == seq![0x75u8, 0x69u8, 0x6eu8, 0x74u8, 0x31u8, 0x36u8]
    || name == seq![0x75u8, 0x69u8, 0x6eu8, 0x74u8, 0x33u8, 0x32u8]
    || name == seq![0x75u8, 0x69u8, 0x6eu8, 0x74u8, 0x36u8, 0x34u8]
    || name == seq![0x6cu8, 0x6fu8, 0x6eu8, 0x67u8, 0x6cu8, 0x6fu8, 0x6eu8, 0x67u8]
    || name == seq![0x75u8, 0x6cu8, 0x6fu8, 0x6eu8, 0x67u8, 0x6cu8, 0x6fu8, 0x6eu8, 0x67u8]
    || name == seq![0x66u8, 0x6cu8, 0x6fu8, 0x61u8, 0x74u8, 0x31u8, 0x36u8]
    || name == seq![0x66u8, 0x6cu8, 0x6fu8, 0x61u8, 0x74u8, 0x33u8, 0x32u8]
    || name == seq![0x66u8, 0x6cu8, 0x6fu8, 0x61u8, 0x74u8, 0x36u8, 0x34u8]
}

/// Whether a scalar type's name admits it to the native table.
pub fn scalar_type_name(name: &[u8]) -> (accepted: bool)
    ensures
        accepted == is_scalar_type_name(name@),
{
    proof {
        assert([0x62u8, 0x6fu8, 0x6fu8, 0x6cu8]@ =~= seq![0x62u8, 0x6fu8, 0x6fu8, 0x6cu8]);
        assert([0x62u8, 0x6fu8, 0x6fu8, 0x6cu8, 0x5fu8]@ =~= seq![0x62u8, 0x6fu8, 0x6fu8, 0x6cu8, 0x5fu8]);
        assert([0x69u8, 0x6eu8, 0x74u8, 0x38u8]@ =~= seq![0x69u8, 0x6eu8, 0x74u8, 0x38u8]);
        assert([0x69u8, 0x6eu8, 0x74u8, 0x31u8, 0x36u8]@ =~= seq![0x69u8, 0x6eu8, 0x74u8, 0x31u8, 0x36u8]);
        assert([0x69u8, 0x6eu8, 0x74u8, 0x33u8, 0x32u8]@ =~= seq![0x69u8, 0x6eu8, 0x74u8, 0x33u8, 0x32u8]);
        assert([0x69u8, 0x6eu8, 0x74u8, 0x36u8, 0x34u8]@ =~= seq![0x69u8, 0x6eu8, 0x74u8, 0x36u8, 0x34u8]);
        assert([0x75u8, 0x69u8, 0x6eu8, 0x74u8, 0x38u8]@ =~= seq![0x75u8, 0x69u8, 0x6eu8, 0x74u8, 0x38u8]);
        assert([0x75u8, 0x69u8, 0x6eu8, 0x74u8, 0x31u8, 0x36u8]@ =~= seq![0x75u8, 0x69u8, 0x6eu8, 0x74u8, 0x31u8, 0x36u8]);
        assert([0x75u8, 0x69u8, 0x6eu8, 0x74u8, 0x33u8, 0x32u8]@ =~= seq![0x75u8, 0x69u8, 0x6eu8, 0x74u8, 0x33u8, 0x32u8]);
        assert([0x75u8, 0x69u8, 0x6eu8, 0x74u8, 0x36u8, 0x34u8]@ =~= seq![0x75u8, 0x69u8, 0x6eu8, 0x74u8, 0x36u8, 0x34u8]);
        assert([0x6cu8, 0x6fu8, 0x6eu8, 0x67u8, 0x6cu8, 0x6fu8, 0x6eu8, 0x67u8]@ =~= seq![0x6cu8, 0x6fu8, 0x6eu8, 0x67u8, 0x6cu8, 0x6fu8, 0x6eu8, 0x67u8]);
        assert([0x75u8, 0x6cu8, 0x6fu8, 0x6eu8, 0x67u8, 0x6cu8, 0x6fu8, 0x6eu8, 0x67u8]@ =~= seq![0x75u8, 0x6cu8, 0x6fu8, 0x6eu8, 0x67u8, 0x6cu8, 0x6fu8, 0x6eu8, 0x67u8]);
        assert([0x66u8, 0x6cu8, 0x6fu8, 0x61u8, 0x74u8, 0x31u8, 0x36u8]@ =~= seq![0x66u8, 0x6cu8, 0x6fu8, 0x61u8, 0x74u8, 0x31u8, 0x36u8]);
        assert([0x66u8, 0x6cu8, 0x6fu8, 0x61u8, 0x74u8, 0x33u8, 0x32u8]@ =~= seq![0x66u8, 0x6cu8, 0x6fu8, 0x61u8, 0x74u8, 0x33u8, 0x32u8]);
        assert([0x66u8, 0x6cu8, 0x6fu8, 0x61u8, 0x74u8, 0x36u8, 0x34u8]@ =~= seq![0x66u8, 0x6cu8, 0x6fu8, 0x61u8, 0x74u8, 0x36u8, 0x34u8]);
    }
    crate::value::bytes_equal(name, &[0x62u8, 0x6fu8, 0x6fu8, 0x6cu8])
        || crate::value::bytes_equal(name, &[0x62u8, 0x6fu8, 0x6fu8, 0x6cu8, 0x5fu8])
        || crate::value::bytes_equal(name, &[0x69u8, 0x6eu8, 0x74u8, 0x38u8])
        || crate::value::bytes_equal(name, &[0x69u8, 0x6eu8, 0x74u8, 0x31u8, 0x36u8])
        || crate::value::bytes_equal(name, &[0x69u8, 0x6eu8, 0x74u8, 0x33u8, 0x32u8])
        || crate::value::bytes_equal(name, &[0x69u8, 0x6eu8, 0x74u8, 0x36u8, 0x34u8])
        || crate::value::bytes_equal(name, &[0x75u8, 0x69u8, 0x6eu8, 0x74u8, 0x38u8])
        || crate::value::bytes_equal(name, &[0x75u8, 0x69u8, 0x6eu8, 0x74u8, 0x31u8, 0x36u8])
        || crate::value::bytes_equal(name, &[0x75u8, 0x69u8, 0x6eu8, 0x74u8, 0x33u8, 0x32u8])
        || crate::value::bytes_equal(name, &[0x75u8, 0x69u8, 0x6eu8, 0x74u8, 0x36u8, 0x34u8])
        || crate::value::bytes_equal(name, &[0x6cu8, 0x6fu8, 0x6eu8, 0x67u8, 0x6cu8, 0x6fu8, 0x6eu8, 0x67u8])
        || crate::value::bytes_equal(name, &[0x75u8, 0x6cu8, 0x6fu8, 0x6eu8, 0x67u8, 0x6cu8, 0x6fu8, 0x6eu8, 0x67u8])
        || crate::value::bytes_equal(name, &[0x66u8, 0x6cu8, 0x6fu8, 0x61u8, 0x74u8, 0x31u8, 0x36u8])
        || crate::value::bytes_equal(name, &[0x66u8, 0x6cu8, 0x6fu8, 0x61u8, 0x74u8, 0x33u8, 0x32u8])
        || crate::value::bytes_equal(name, &[0x66u8, 0x6cu8, 0x6fu8, 0x61u8, 0x74u8, 0x36u8, 0x34u8])
}

/// The scalar kind of a dtype kind code and item size, if the native writer
/// handles it.
pub open spec fn scalar_kind_of(kind: Seq<u8>, width: int) -> Option<ScalarKind> {
    if kind == seq![0x62u8] && width == 1 {
        Some(ScalarKind::Bool)
    } else if kind == seq![0x69u8] && width == 1 {
        Some(ScalarKind::I8)
    } else if kind == seq![0x69u8] && width == 2 {
        Some(ScalarKind::I16)
    } else if kind == seq![0x69u8] && width == 4 {
        Some(ScalarKind::I32)
    } else if kind == seq![0x69u8] && width == 8 {
        Some(ScalarKind::I64)
    } else if kind == seq![0x75u8] && width == 1 {
        Some(ScalarKind::U8)
    } else if kind == seq![0x75u8] && width == 2 {
        Some(ScalarKind::U16)
    } else if kind == seq![0x75u8] && width == 4 {
        Some(ScalarKind::U32)
    } else if kind == seq![0x75u8] && width == 8 {
        Some(ScalarKind::U64)
    } else if kind == seq![0x66u8] && width == 2 {
        Some(ScalarKind::F16)
    } else if kind == seq![0x66u8] && width == 4 {
        Some(ScalarKind::F32)
    } else if kind == seq![0x66u8] && width == 8 {
        Some(ScalarKind::F64)
    } else {
        None
    }
}

/// Select the scalar kind for a dtype's kind code and item size.
pub fn scalar_kind(kind: &[u8], width: usize) -> (selected: Option<ScalarKind>)
    ensures
        selected == scalar_kind_of(kind@, width as int),
{
    if kind.len() != 1 {
        proof {
            assert(kind@ != seq![0x62u8] && kind@ != seq![0x69u8] && kind@ != seq![0x75u8] && kind@ != seq![0x66u8]);
        }
        return None;
    }
    let c = kind[0];
    proof {
        assert(kind@ =~= seq![c]);
    }
    if c == 0x62 && width == 1 {
        Some(ScalarKind::Bool)
    } else if c == 0x69 && width == 1 {
        Some(ScalarKind::I8)
    } else if c == 0x69 && width == 2 {
        Some(ScalarKind::I16)
    } else if c == 0x69 && width == 4 {
        Some(ScalarKind::I32)
    } else if c == 0x69 && width == 8 {
        Some(ScalarKind::I64)
    } else if c == 0x75 && width == 1 {
        Some(ScalarKind::U8)
    } else if c == 0x75 && width == 2 {
        Some(ScalarKind::U16)
    } else if c == 0x75 && width == 4 {
        Some(ScalarKind::U32)
    } else if c == 0x75 && width == 8 {
        Some(ScalarKind::U64)
    } else if c == 0x66 && width == 2 {
        Some(ScalarKind::F16)
    } else if c == 0x66 && width == 4 {
        Some(ScalarKind::F32)
    } else if c == 0x66 && width == 8 {
        Some(ScalarKind::F64)
    } else {
        None
    }
}

/// The array item format that stores a scalar kind's values.
pub open spec fn format_of_kind(kind: ScalarKind) -> ItemFormat {
    match kind {
        ScalarKind::Bool => ItemFormat::Boolean,
        ScalarKind::I8 | ScalarKind::I16 | ScalarKind::I32 | ScalarKind::I64 => ItemFormat::Signed,
        ScalarKind::U8 | ScalarKind::U16 | ScalarKind::U32 | ScalarKind::U64 => ItemFormat::Unsigned,
        ScalarKind::F16 | ScalarKind::F32 | ScalarKind::F64 => ItemFormat::Float,
    }
}

/// Every dtype the native scalar writer supports is an array format too,
/// of the same category and the scalar kind's width; and every boolean,
/// integer or float array format is such a dtype. So `float16`, `float32`
/// and `float64` arrays are all written as floats.
pub proof fn lemma_array_formats_match_scalar_kinds(kind: Seq<u8>, width: int)
    ensures
        scalar_kind_of(kind, width) matches Some(k) ==> item_format_of(kind, width) == format_of_kind(k)
            && kind_width(k) == width,
        (item_format_of(kind, width) != ItemFormat::Unsupported && item_format_of(kind, width)
            != ItemFormat::Datetime) ==> scalar_kind_of(kind, width) is Some,
{
}

/// Read a scalar from its copied little-endian bytes.
pub fn decode_scalar(kind: ScalarKind, raw: &[u8]) -> (value: ScalarValue)
    requires
        raw@.len() == kind_width(kind),
    ensures
        value == scalar_of(kind, raw@),
{
    let width = kind.width();
    let bits = item_bits(raw, 0, width);
    proof {
        assert(item_bytes(raw@, 0, width as int) =~= raw@);
        lemma_le_value_bound(raw@);
        lemma_pow256_values();
    }
    match kind {
        ScalarKind::Bool => ScalarValue::Bool(raw[0] == 1),
        ScalarKind::I8 | ScalarKind::I16 | ScalarKind::I32 | ScalarKind::I64 => {
            let full: i128 = if width == 1 {
                256
            } else if width == 2 {
                65536
            } else if width == 4 {
                4294967296
            } else {
                18446744073709551616
            };
            let wide = bits as i128;
            let value = if 2 * wide >= full {
                wide - full
            } else {
                wide
            };
            ScalarValue::Signed(value as i64)
        },
        ScalarKind::U8 | ScalarKind::U16 | ScalarKind::U32 | ScalarKind::U64 => ScalarValue::Unsigned(bits),
        ScalarKind::F16 => ScalarValue::Float16(bits as u16),
        ScalarKind::F32 => ScalarValue::Float32(bits as u32),
        ScalarKind::F64 => ScalarValue::Float64(bits),
    }
}

/// The JSON text of a boolean or integer scalar; a float's text is the
/// caller's.
pub open spec fn scalar_text(value: ScalarValue) -> Option<Seq<u8>> {
    match value {
        ScalarValue::Bool(b) => Some(
            if b {
                seq![0x74u8, 0x72u8, 0x75u8, 0x65u8]
            } else {
                seq![0x66u8, 0x61u8, 0x6cu8, 0x73u8, 0x65u8]
            },
        ),
        ScalarValue::Signed(v) => Some(crate::decimal::decimal(v as int)),
        ScalarValue::Unsigned(v) => Some(crate::decimal::decimal(v as int)),
        _ => None,
    }
}

/// Append a boolean or integer scalar's text, or report a float.
pub fn write_scalar(output: &mut Vec<u8>, value: ScalarValue) -> (written: bool)
    ensures
        match scalar_text(value) {
            Some(t) => written && final(output)@ == old(output)@ + t,
            None => !written && final(output)@ == old(output)@,
        },
{
    match value {
        ScalarValue::Bool(b) => {
            if b {
                crate::decimal::append(output, &[0x74u8, 0x72, 0x75, 0x65]);
            } else {
                crate::decimal::append(output, &[0x66u8, 0x61, 0x6c, 0x73, 0x65]);
            }
            proof {
                assert([0x74u8, 0x72, 0x75, 0x65]@ =~= seq![0x74u8, 0x72u8, 0x75u8, 0x65u8]);
                assert([0x66u8, 0x61, 0x6c, 0x73, 0x65]@ =~= seq![0x66u8, 0x61u8, 0x6cu8, 0x73u8, 0x65u8]);
            }
            true
        },
        ScalarValue::Signed(v) => {
            crate::decimal::push_signed(output, v);
            true
        },
        ScalarValue::Unsigned(v) => {
            crate::decimal::push_unsigned(output, v);
            true
        },
        _ => false,
    }
}

} // verus!
