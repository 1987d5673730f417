//! The wording of the `now` tool: the time, `a.m.` or `p.m.`, and the date,
//! formatted by jiff from the fields of the local date and time.  Reading the
//! clock and the time zone is the program's business.
use vstd::prelude::*;
use crate::text::{append_chars, chars_of, string_of};

verus! {

/// `a` before noon, `p` from noon on.
pub fn day_period(hour: i8) -> (r: char)
    ensures
        r == (if hour < 12 {
            'a'
        } else {
            'p'
        }),
{
    if hour < 12 {
        'a'
    } else {
        'p'
    }
}

/// The line printed: `TIME P.m. on DATE`.
pub fn now_line(time: &str, period: char, date: &str) -> (r: String)
    ensures
        r@ == time@ + seq![' ', period] + ".m. on "@ + date@,
{
    let mut t = chars_of(time);
    t.push(' ');
    t.push(period);
    append_chars(&mut t, &chars_of(".m. on "));
    append_chars(&mut t, &chars_of(date));
    string_of(&t)
}

/// What `jiff::fmt::strtime::format` gives for the format `fmt` and the
/// civil date and time with the given fields and no fraction of a second, or
/// `None` where those fields name no such date and time or the format fails.
pub uninterp spec fn jiff_strftime(
    fmt: Seq<char>,
    year: i16,
    month: i8,
    day: i8,
    hour: i8,
    minute: i8,
    second: i8,
) -> Option<Seq<char>>;

/// Builds `jiff::civil::DateTime::new` from the fields and formats it with
/// `jiff::fmt::strtime::format`.  Claimed: the result is `jiff_strftime` of
/// these arguments (the formatting reads nothing but them).
#[verifier::external_body]
fn strftime_fields(fmt: &str, year: i16, month: i8, day: i8, hour: i8, minute: i8, second: i8) -> (r:
    Option<String>)
    ensures
        r matches Some(t) ==> jiff_strftime(fmt@, year, month, day, hour, minute, second) == Some(t@),
        r is None ==> jiff_strftime(fmt@, year, month, day, hour, minute, second) is None,
{
    let dt = jiff::civil::DateTime::new(year, month, day, hour, minute, second, 0).ok()?;
    jiff::fmt::strtime::format(fmt, dt).ok()
}

/// The line printed for the local date and time with the given fields, as
/// `%-I:%M:%S P.m. on %B %-d, %Y`; `None` where jiff formats neither part.
pub fn now_text(year: i16, month: i8, day: i8, hour: i8, minute: i8, second: i8) -> (r: Option<
    String,
>)
    ensures
        match (
            jiff_strftime("%-I:%M:%S"@, year, month, day, hour, minute, second),
            jiff_strftime("%B %-d, %Y"@, year, month, day, hour, minute, second),
        ) {
            (Some(time), Some(date)) => r matches Some(t) && t@ == time + seq![
                ' ',
                if hour < 12 {
                    'a'
                } else {
                    'p'
                },
            ] + ".m. on "@ + date,
            _ => r is None,
        },
{
    let time = strftime_fields("%-I:%M:%S", year, month, day, hour, minute, second);
    let date = strftime_fields("%B %-d, %Y", year, month, day, hour, minute, second);
    match (time, date) {
        (Some(time), Some(date)) => Some(now_line(time.as_str(), day_period(hour), date.as_str())),
        _ => None,
    }
}

} // verus!
