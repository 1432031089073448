use jsonmodem_py::datetime::{Date, Temporal, Time, Zone};
use jsonmodem_py::encoder::{Encoder, NAIVE_UTC, OMIT_MICROSECONDS, PASSTHROUGH_DATETIME, UTC_Z};

fn date(year: i32, month: u8, day: u8) -> Date {
    Date { year, month, day }
}

fn time(hour: u8, minute: u8, second: u8, microsecond: u32) -> Time {
    Time { hour, minute, second, microsecond }
}

fn text(option: i32, value: Temporal) -> Option<String> {
    jsonmodem_py::datetime::format(option, value).map(|bytes| String::from_utf8(bytes).unwrap())
}

fn at(zone: Zone) -> Temporal {
    Temporal::DateTime { date: date(2024, 3, 5), time: time(7, 8, 9, 10), zone }
}

#[test]
fn dates_and_times() {
    assert_eq!(text(0, Temporal::Date(date(5, 1, 31))).as_deref(), Some("\"0005-01-31\""));
    assert_eq!(text(0, Temporal::Time { time: time(23, 59, 59, 0), has_zone: false }).as_deref(), Some("\"23:59:59\""));
    assert_eq!(
        text(0, Temporal::Time { time: time(1, 2, 3, 456), has_zone: false }).as_deref(),
        Some("\"01:02:03.000456\"")
    );
    assert_eq!(text(0, Temporal::Time { time: time(1, 2, 3, 0), has_zone: true }), None);
}

#[test]
fn out_of_range_fields_are_left_to_python() {
    assert_eq!(text(0, Temporal::Date(date(0, 1, 1))), None);
    assert_eq!(text(0, Temporal::Date(date(10000, 1, 1))), None);
    assert_eq!(text(0, Temporal::Date(date(2024, 13, 1))), None);
    assert_eq!(text(0, Temporal::Time { time: time(24, 0, 0, 0), has_zone: false }), None);
    assert_eq!(text(0, Temporal::Time { time: time(0, 0, 0, 1_000_000), has_zone: false }), None);
    assert_eq!(text(0, Temporal::Other), None);
}

#[test]
fn datetimes_and_their_zones() {
    assert_eq!(text(0, at(Zone::Naive)).as_deref(), Some("\"2024-03-05T07:08:09.000010\""));
    assert_eq!(text(NAIVE_UTC, at(Zone::Naive)).as_deref(), Some("\"2024-03-05T07:08:09.000010+00:00\""));
    assert_eq!(text(OMIT_MICROSECONDS, at(Zone::Utc)).as_deref(), Some("\"2024-03-05T07:08:09+00:00\""));
    assert_eq!(text(UTC_Z, at(Zone::Utc)).as_deref(), Some("\"2024-03-05T07:08:09.000010Z\""));
    assert_eq!(text(0, at(Zone::Fixed { days: 0, seconds: 3600 * 5 + 1800 })).as_deref(), Some("\"2024-03-05T07:08:09.000010+05:30\""));
    assert_eq!(text(0, at(Zone::Fixed { days: -1, seconds: 86400 - 3600 })).as_deref(), Some("\"2024-03-05T07:08:09.000010-01:00\""));
    assert_eq!(text(UTC_Z, at(Zone::Fixed { days: 0, seconds: 29 })).as_deref(), Some("\"2024-03-05T07:08:09.000010Z\""));
    assert_eq!(text(0, at(Zone::Fixed { days: 0, seconds: 29 })).as_deref(), Some("\"2024-03-05T07:08:09.000010+00:00\""));
    assert_eq!(text(0, at(Zone::Fixed { days: 0, seconds: 30 })).as_deref(), Some("\"2024-03-05T07:08:09.000010+00:01\""));
    assert_eq!(text(0, at(Zone::Fixed { days: 1, seconds: 0 })), None);
    assert_eq!(text(0, at(Zone::Other)), None);
    assert_eq!(text(PASSTHROUGH_DATETIME, at(Zone::Utc)), None);
}

#[test]
fn write_appends_to_the_encoder() {
    let mut encoder = Encoder::new(0, 0, false, 8);
    assert_eq!(jsonmodem_py::datetime::write(&mut encoder, Temporal::Date(date(2000, 2, 29))), Ok(true));
    assert_eq!(jsonmodem_py::datetime::write(&mut encoder, Temporal::Other), Ok(false));
    assert_eq!(encoder.into_bytes(), b"\"2000-02-29\"".to_vec());
}
