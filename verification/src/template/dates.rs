//! The `date` and `datetime` filters: a value is read as an instant (an RFC
//! 3339 string, else a `YYYY-MM-DD` day at midnight UTC, or a Unix
//! timestamp), moved to the requested UTC offset and formatted with the
//! template's `YYYY MM DD HH mm ss` tokens. The calendar arithmetic is
//! chrono's; the choices between the readings, the errors and the tokens
//! are this module's.
use vstd::prelude::*;
use std::fmt::Write;
use chrono::{DateTime, FixedOffset, NaiveDate, TimeZone, Utc};
use crate::chars::{chars_of, string_of};
use crate::numbers::{parse_i64, parse_i64_spec};
use crate::template::filters::{translate_fmt, translate_fmt_spec, tz_fits_spec, tz_offset_seconds, tz_spec};

verus! {

/// The value a date filter reads: a string, or the text of any other value
/// (a number read as a Unix timestamp).
#[derive(Debug)]
pub enum DateInput {
    Text(String),
    Number(String),
}

/// The plain-value picture of a [`DateInput`].
pub enum DateInputV {
    Text(Seq<char>),
    Number(Seq<char>),
}

/// The view of a date input.
pub open spec fn date_input_view(d: DateInput) -> DateInputV {
    match d {
        DateInput::Text(s) => DateInputV::Text(s@),
        DateInput::Number(s) => DateInputV::Number(s@),
    }
}

/// The view of an optional `&str`.
pub open spec fn opt_str(o: Option<&str>) -> Option<Seq<char>> {
    match o {
        Some(s) => Some(s@),
        None => None,
    }
}

/// What chrono reads an RFC 3339 text as: its instant in UTC, as seconds
/// since the epoch and the nanosecond within the second.
pub uninterp spec fn rfc3339_utc(s: Seq<char>) -> Option<(i64, u32)>;

/// What chrono reads a `%Y-%m-%d` text as: the Unix time of that day's
/// midnight UTC.
pub uninterp spec fn ymd_utc(s: Seq<char>) -> Option<i64>;

/// Whether chrono has a UTC instant for a Unix timestamp.
pub uninterp spec fn timestamp_in_range(ts: i64) -> bool;

/// What chrono writes for the instant `(secs, nanos)` seen at `offset`
/// seconds east of UTC, in the strftime format `fmt`; `None` when the format
/// (or the instant) is not one chrono can write.
pub uninterp spec fn chrono_format(secs: i64, nanos: u32, offset: i32, fmt: Seq<char>) -> Option<Seq<char>>;

/// `DateTime::parse_from_rfc3339`, the result taken to UTC.
#[verifier::external_body]
fn parse_rfc3339(s: &str) -> (res: Option<(i64, u32)>)
    ensures
        res == rfc3339_utc(s@),
{
    match DateTime::parse_from_rfc3339(s) {
        Ok(dt) => Some((dt.timestamp(), dt.timestamp_subsec_nanos())),
        Err(_) => None,
    }
}

/// `NaiveDate::parse_from_str(s, "%Y-%m-%d")` at midnight, taken as UTC.
#[verifier::external_body]
fn parse_ymd(s: &str) -> (res: Option<i64>)
    ensures
        res == ymd_utc(s@),
{
    match NaiveDate::parse_from_str(s, "%Y-%m-%d") {
        Ok(d) => match d.and_hms_opt(0, 0, 0) {
            Some(n) => Some(Utc.from_utc_datetime(&n).timestamp()),
            None => None,
        },
        Err(_) => None,
    }
}

/// `Utc.timestamp_opt(ts, 0).single()`: whether the timestamp is an instant
/// chrono represents.
#[verifier::external_body]
fn timestamp_ok(ts: i64) -> (res: bool)
    ensures
        res == timestamp_in_range(ts),
{
    Utc.timestamp_opt(ts, 0).single().is_some()
}

/// The instant at `offset` (`FixedOffset::east_opt`) written with chrono's
/// `format` into a `String`; `None` where chrono has no such offset or
/// instant, or the writing fails.
#[verifier::external_body]
fn format_instant(secs: i64, nanos: u32, offset: i32, fmt: &str) -> (res: Option<String>)
    ensures
        match res {
            Some(t) => chrono_format(secs, nanos, offset, fmt@) == Some(t@),
            None => chrono_format(secs, nanos, offset, fmt@) is None,
        },
{
    let (Some(off), Some(utc)) = (FixedOffset::east_opt(offset), Utc.timestamp_opt(secs, nanos).single()) else {
        return None;
    };
    let mut out = String::new();
    match write!(out, "{}", utc.with_timezone(&off).format(fmt)) {
        Ok(()) => Some(out),
        Err(_) => None,
    }
}

/// The instant a date input stands for, or the filter's error.
pub open spec fn instant_spec(input: DateInputV) -> Result<(i64, u32), Seq<char>> {
    match input {
        DateInputV::Text(s) => match rfc3339_utc(s) {
            Some(t) => Ok(t),
            None => match ymd_utc(s) {
                Some(ts) => Ok((ts, 0u32)),
                None => Err("date(): unrecognized date string"@),
            },
        },
        DateInputV::Number(t) => match parse_i64_spec(t) {
            None => Err("date(): not a timestamp"@),
            Some(ts) => if timestamp_in_range(ts) {
                Ok((ts, 0u32))
            } else {
                Err("date(): timestamp out of range"@)
            },
        },
    }
}

/// The formatted date, or the filter's error: the value is read first, then
/// the offset, then the instant is written in the translated format.
pub open spec fn format_date_spec(input: DateInputV, fmt: Seq<char>, tz: Option<Seq<char>>) -> Result<Seq<char>, Seq<char>> {
    match instant_spec(input) {
        Err(e) => Err(e),
        Ok((secs, nanos)) => match tz_spec(tz) {
            Err(e) => Err(e),
            Ok(off) => match chrono_format(secs, nanos, off as i32, translate_fmt_spec(fmt)) {
                Some(out) => Ok(out),
                None => Err("date(): invalid format"@),
            },
        },
    }
}

/// The view of a filter result.
pub open spec fn result_view(r: Result<String, String>) -> Result<Seq<char>, Seq<char>> {
    match r {
        Ok(s) => Ok(s@),
        Err(e) => Err(e@),
    }
}

/// A message as a `String`.
fn message(text: &str) -> (res: String)
    ensures
        res@ == text@,
{
    let cs = chars_of(text);
    string_of(cs.as_slice())
}

/// The instant a date input stands for.
fn read_instant(input: &DateInput) -> (res: Result<(i64, u32), String>)
    ensures
        match res {
            Ok(t) => instant_spec(date_input_view(*input)) == Ok::<(i64, u32), Seq<char>>(t),
            Err(e) => instant_spec(date_input_view(*input)) == Err::<(i64, u32), Seq<char>>(e@),
        },
{
    match input {
        DateInput::Text(s) => {
            match parse_rfc3339(s.as_str()) {
                Some(t) => return Ok(t),
                None => {},
            }
            match parse_ymd(s.as_str()) {
                Some(ts) => Ok((ts, 0)),
                None => Err(message("date(): unrecognized date string")),
            }
        },
        DateInput::Number(t) => {
            let cs = chars_of(t.as_str());
            match parse_i64(cs.as_slice()) {
                None => Err(message("date(): not a timestamp")),
                Some(ts) => if timestamp_ok(ts) {
                    Ok((ts, 0))
                } else {
                    Err(message("date(): timestamp out of range"))
                },
            }
        },
    }
}

/// Format a date input with the template tokens of `fmt` at the UTC offset
/// named by `tz`.
pub fn format_date(input: &DateInput, fmt: &str, tz: Option<&str>) -> (res: Result<String, String>)
    requires
        tz_fits_spec(opt_str(tz)),
    ensures
        result_view(res) == format_date_spec(date_input_view(*input), fmt@, opt_str(tz)),
{
    let (secs, nanos) = match read_instant(input) {
        Ok(t) => t,
        Err(e) => return Err(e),
    };
    let off = match tz_offset_seconds(tz) {
        Ok(o) => o,
        Err(e) => return Err(e),
    };
    let f = translate_fmt(fmt);
    match format_instant(secs, nanos, off, f.as_str()) {
        Some(out) => Ok(out),
        None => Err(message("date(): invalid format")),
    }
}

/// `date(value, fmt="YYYY-MM-DD", tz="UTC")`.
pub fn date(input: &DateInput, fmt: Option<&str>, tz: Option<&str>) -> (res: Result<String, String>)
    requires
        tz_fits_spec(opt_str(tz)),
    ensures
        result_view(res) == format_date_spec(
            date_input_view(*input),
            match fmt {
                Some(f) => f@,
                None => "YYYY-MM-DD"@,
            },
            opt_str(tz),
        ),
{
    match fmt {
        Some(f) => format_date(input, f, tz),
        None => format_date(input, "YYYY-MM-DD", tz),
    }
}

/// `datetime(value, fmt="YYYY-MM-DD HH:mm:ss", tz="UTC")`.
pub fn datetime(input: &DateInput, fmt: Option<&str>, tz: Option<&str>) -> (res: Result<String, String>)
    requires
        tz_fits_spec(opt_str(tz)),
    ensures
        result_view(res) == format_date_spec(
            date_input_view(*input),
            match fmt {
                Some(f) => f@,
                None => "YYYY-MM-DD HH:mm:ss"@,
            },
            opt_str(tz),
        ),
{
    match fmt {
        Some(f) => format_date(input, f, tz),
        None => format_date(input, "YYYY-MM-DD HH:mm:ss", tz),
    }
}

} // verus!
