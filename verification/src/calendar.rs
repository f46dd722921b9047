//! Dates as the journal writes them: the day, month and year of a point
//! in time at a given offset from UTC.

use vstd::prelude::*;

verus! {

/// The text that chrono writes for the point in time `seconds` after the
/// start of 1970 in UTC, seen at `offset_seconds` east of UTC, under a
/// `strftime` pattern; `None` where chrono has no such time or offset.
pub uninterp spec fn chrono_formatted(
    seconds: i64,
    offset_seconds: i32,
    pattern: Seq<char>,
) -> Option<Seq<char>>;

/// The two patterns that the journal writes dates with.
pub open spec fn is_date_pattern(pattern: Seq<char>) -> bool {
    pattern == "%d/%m/%Y"@ || pattern == "%d/%m/%Y %H:%M"@
}

/// Calls `DateTime::from_timestamp`, `FixedOffset::east_opt`,
/// `DateTime::with_timezone` and `DateTime::format`.
///
/// Trusted: for the journal's two patterns the text depends on the
/// seconds, the offset and the pattern alone.
#[verifier::external_body]
fn chrono_format(seconds: i64, offset_seconds: i32, pattern: &str) -> (r: Option<String>)
    requires
        is_date_pattern(pattern@),
    ensures
        match r {
            Some(text) => chrono_formatted(seconds, offset_seconds, pattern@) == Some(text@),
            None => chrono_formatted(seconds, offset_seconds, pattern@) is None,
        },
{
    let offset = chrono::FixedOffset::east_opt(offset_seconds)?;
    let utc = chrono::DateTime::from_timestamp(seconds, 0)?;
    Some(utc.with_timezone(&offset).format(pattern).to_string())
}

/// Today's date as `DD/MM/YYYY`: the key of the folder that may be
/// written at the point in time `now_seconds` after the start of 1970 in
/// UTC, for a user at `offset_seconds` east of UTC.
pub fn today_str(now_seconds: i64, offset_seconds: i32) -> (today: Option<String>)
    ensures
        match today {
            Some(text) => chrono_formatted(now_seconds, offset_seconds, "%d/%m/%Y"@) == Some(text@),
            None => chrono_formatted(now_seconds, offset_seconds, "%d/%m/%Y"@) is None,
        },
{
    chrono_format(now_seconds, offset_seconds, "%d/%m/%Y")
}

/// What `get_user_creation_date` returns.
pub open spec fn creation_date(created_seconds: Option<u64>, offset_seconds: i32) -> Option<
    Seq<char>,
> {
    match created_seconds {
        Some(seconds) if seconds <= i64::MAX => chrono_formatted(
            seconds as i64,
            offset_seconds,
            "%d/%m/%Y %H:%M"@,
        ),
        _ => None,
    }
}

/// The time at which a user's store file was created, as
/// `DD/MM/YYYY HH:MM`, from the file's time in seconds after the start of
/// 1970 in UTC; `None` where the file has no such time.
pub fn get_user_creation_date(created_seconds: Option<u64>, offset_seconds: i32) -> (date: Option<
    String,
>)
    ensures
        match date {
            Some(text) => creation_date(created_seconds, offset_seconds) == Some(text@),
            None => creation_date(created_seconds, offset_seconds) is None,
        },
{
    match created_seconds {
        Some(seconds) => {
            if seconds > i64::MAX as u64 {
                None
            } else {
                chrono_format(seconds as i64, offset_seconds, "%d/%m/%Y %H:%M")
            }
        },
        None => None,
    }
}

} // verus!
