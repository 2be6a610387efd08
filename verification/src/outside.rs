use vstd::prelude::*;

use chrono::{TimeZone, Utc};

verus! {

/// An instant of UTC time as `chrono` gives it: whole seconds since the Unix epoch and the
/// nanoseconds past them (`timestamp()` and `timestamp_subsec_nanos()`).
pub struct UtcInstant {
    pub secs: i64,
    pub nanos: u32,
}

/// The calendar date of the UTC instant `millis` milliseconds after the Unix epoch, as
/// `NaiveDate`'s `Display` writes it (`YYYY-MM-DD` for the years 0 to 9999, with a sign and
/// more digits for the others), or nothing where `chrono` cannot represent the instant.
pub uninterp spec fn utc_date_text(millis: i64) -> Option<Seq<char>>;

/// Whether the day `day`, counted from the Unix epoch, is one that `chrono` represents: from
/// `NaiveDate::MIN` (-262143-01-01, day -96465292) to `NaiveDate::MAX` (+262142-12-31, day
/// 95026236).
pub open spec fn in_chrono_range(day: int) -> bool {
    -96_465_292 <= day <= 95_026_236
}

/// The current time (`chrono::Utc::now`). Nothing is promised of it.
#[verifier::external_body]
pub(crate) fn utc_now() -> UtcInstant {
    let now = Utc::now();
    UtcInstant { secs: now.timestamp(), nanos: now.timestamp_subsec_nanos() }
}

/// `Utc.timestamp_millis_opt(millis).single()`, then `date_naive().to_string()`: the date of
/// that instant, or nothing where the instant is out of `chrono`'s range, which is where its
/// day is. The result is named by [`utc_date_text`]; it depends on `millis` alone.
#[verifier::external_body]
pub(crate) fn utc_date_of_millis(millis: i64) -> (res: Option<String>)
    ensures
        match res {
            Some(s) => utc_date_text(millis) == Some(s@),
            None => utc_date_text(millis) is None,
        },
        res is Some <==> in_chrono_range(millis / 86_400_000),
{
    Utc.timestamp_millis_opt(millis).single().map(|dt| dt.date_naive().to_string())
}

/// The whole days, truncated toward zero, from the instant `secs` seconds and `nanos`
/// nanoseconds after the Unix epoch to the instant `millis` milliseconds after it; nothing
/// where `chrono` cannot represent either instant.
pub uninterp spec fn utc_whole_days(secs: i64, nanos: u32, millis: i64) -> Option<i64>;

/// The midnight (UTC), in milliseconds after the Unix epoch, that starts the day lying `days`
/// days after the UTC date of the instant `secs` seconds and `nanos` nanoseconds after the
/// epoch; nothing where `chrono` cannot represent the instant or the day.
pub uninterp spec fn utc_midnight_after(secs: i64, nanos: u32, days: i64) -> Option<i64>;

/// The whole days in `ns` nanoseconds, truncated toward zero.
pub open spec fn days_toward_zero(ns: int) -> int {
    if ns >= 0 {
        ns / 86_400_000_000_000
    } else {
        -((-ns) / 86_400_000_000_000)
    }
}

/// `(instant - now).num_days()` for the instant `millis` milliseconds after the epoch: the
/// whole days from `now` to it, truncated toward zero; nothing where either instant is out of
/// `chrono`'s range. The result is named by [`utc_whole_days`]. Where `now` is no leap second
/// (`nanos` below one second), the result is there exactly when the days of both instants are
/// in that range, and `chrono` subtracts the two instants as plain nanosecond counts, truncates
/// that to whole seconds toward zero (`num_seconds`) and those to whole days (`num_days`): the
/// nanosecond difference truncated to whole days.
#[verifier::external_body]
pub(crate) fn whole_days_until(now: &UtcInstant, millis: i64) -> (res: Option<i64>)
    ensures
        res == utc_whole_days(now.secs, now.nanos, millis),
        now.nanos < 1_000_000_000 ==> (res is Some <==> (in_chrono_range(now.secs / 86_400)
            && in_chrono_range(millis / 86_400_000))),
        res matches Some(d) ==> (now.nanos < 1_000_000_000 ==> d == days_toward_zero(
            millis * 1_000_000 - (now.secs * 1_000_000_000 + now.nanos),
        )),
{
    let now = Utc.timestamp_opt(now.secs, now.nanos).single()?;
    Some((Utc.timestamp_millis_opt(millis).single()? - now).num_days())
}

/// The millisecond timestamp of midnight (UTC) at the start of the day that lies `days` days
/// after the UTC date of `now` (`date_naive()`, `checked_add_signed`, `and_hms_opt(0, 0, 0)`,
/// `timestamp_millis`); nothing where that date is out of `chrono`'s range. The result is
/// named by [`utc_midnight_after`]. The date of `now` is the day `now.secs` lies in, counted
/// from the epoch by flooring division (`div_euclid`); the midnight is that day number plus
/// `days`, in milliseconds, since Unix time counts no leap seconds. Where `now` is no leap
/// second, the result is there exactly when both that day and the day `days` later are in
/// `chrono`'s range.
#[verifier::external_body]
pub(crate) fn midnight_after_days(now: &UtcInstant, days: i64) -> (res: Option<i64>)
    ensures
        res == utc_midnight_after(now.secs, now.nanos, days),
        now.nanos < 1_000_000_000 ==> (res is Some <==> (in_chrono_range(now.secs / 86_400)
            && in_chrono_range(now.secs / 86_400 + days))),
        res matches Some(ms) ==> ms == (now.secs / 86_400 + days) * 86_400_000,
        res matches Some(ms) ==> ms % 86_400_000 == 0,
{
    let now = Utc.timestamp_opt(now.secs, now.nanos).single()?;
    let date = now.date_naive().checked_add_signed(chrono::TimeDelta::try_days(days)?)?;
    Some(date.and_hms_opt(0, 0, 0)?.and_utc().timestamp_millis())
}

/// Whether `c` is a lower-case hexadecimal digit.
pub open spec fn is_lower_hex(c: char) -> bool {
    ('0' <= c && c <= '9') || ('a' <= c && c <= 'f')
}

/// Whether `s` is the hyphenated lower-case text of a random (version 4, RFC 4122 variant)
/// UUID: 36 characters, hyphens at 8, 13, 18 and 23, hexadecimal digits elsewhere, the
/// version digit `4` at 14 and one of `8`, `9`, `a`, `b` at 19.
pub open spec fn is_v4_uuid_text(s: Seq<char>) -> bool {
    &&& s.len() == 36
    &&& forall|i: int|
        0 <= i < 36 ==> if i == 8 || i == 13 || i == 18 || i == 23 {
            s[i] == '-'
        } else {
            is_lower_hex(#[trigger] s[i])
        }
    &&& s[14] == '4'
    &&& (s[19] == '8' || s[19] == '9' || s[19] == 'a' || s[19] == 'b')
}

/// `Uuid::new_v4().to_string()`: a fresh random UUID. `new_v4` sets the version and variant
/// bits of random bits, and `Display` writes the hyphenated lower-case form; which UUID comes
/// out is chance, so only its form is stated.
#[verifier::external_body]
pub(crate) fn new_uuid_text() -> (res: String)
    ensures
        is_v4_uuid_text(res@),
{
    uuid::Uuid::new_v4().to_string()
}

} // verus!
