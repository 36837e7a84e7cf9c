//! The start of the trailing window in which completed reviews count as recent.
use vstd::prelude::*;

verus! {

/// Length of the recent-review window, in days.
pub const RECENT_WINDOW_DAYS: u64 = 7;

/// A calendar date (proleptic Gregorian).
#[derive(Clone, Copy, Debug, PartialEq, Eq, Structural)]
pub struct CivilDate {
    pub year: i32,
    /// 1 to 12.
    pub month: u32,
    /// 1 to 31.
    pub day: u32,
}

/// The date `days` days before `year-month-day`, as (year, month, day), where
/// that is a valid date and the result lies in chrono's range.
pub uninterp spec fn date_days_before(year: int, month: int, day: int, days: int) -> Option<(i32, u32, u32)>;

/// Relies on `chrono::NaiveDate::from_ymd_opt` and
/// `NaiveDate::checked_sub_days`: the earlier date, or `None` for an invalid
/// date or one out of range; months and days of a date it returns lie in
/// 1..=12 and 1..=31.
#[verifier::external_body]
fn days_before(d: CivilDate, days: u64) -> (r: Option<CivilDate>)
    ensures
        r is None <==> date_days_before(d.year as int, d.month as int, d.day as int, days as int) is None,
        r matches Some(e) ==> {
            &&& date_days_before(d.year as int, d.month as int, d.day as int, days as int) == Some((e.year, e.month, e.day))
            &&& 1 <= e.month <= 12
            &&& 1 <= e.day <= 31
        },
{
    match chrono::NaiveDate::from_ymd_opt(d.year, d.month, d.day) {
        Some(n) => match n.checked_sub_days(chrono::Days::new(days)) {
            Some(e) => Some(CivilDate {
                year: chrono::Datelike::year(&e),
                month: chrono::Datelike::month(&e),
                day: chrono::Datelike::day(&e),
            }),
            None => None,
        },
        None => None,
    }
}

/// The text of the decimal digit `k`.
pub open spec fn digit_text(k: int) -> Seq<char> {
    "0123456789"@.subrange(k, k + 1)
}

/// The last `width` decimal digits of `n`, zeros in front.
pub open spec fn padded_digits(n: int, width: nat) -> Seq<char>
    decreases width,
{
    if width == 0 {
        Seq::empty()
    } else {
        padded_digits(n / 10, (width - 1) as nat) + digit_text(n % 10)
    }
}

/// A date as `YYYY-MM-DD`.
pub open spec fn date_text(year: int, month: int, day: int) -> Seq<char> {
    padded_digits(year, 4) + "-"@ + padded_digits(month, 2) + "-"@ + padded_digits(day, 2)
}

fn push_padded(s: &mut String, n: u32, width: usize)
    ensures
        final(s)@ == old(s)@ + padded_digits(n as int, width as nat),
    decreases width,
{
    if width == 0 {
        proof {
            assert(old(s)@ + padded_digits(n as int, 0) =~= old(s)@);
        }
        return;
    }
    push_padded(s, n / 10, width - 1);
    let digits = "0123456789";
    proof {
        reveal_strlit("0123456789");
    }
    let k = (n % 10) as usize;
    s.append(digits.substring_char(k, k + 1));
    proof {
        assert(s@ =~= old(s)@ + padded_digits(n as int, width as nat));
    }
}

/// The first day of the recent-review window ending on `today`, as
/// `YYYY-MM-DD`: the date `RECENT_WINDOW_DAYS` days earlier. `None` where
/// `today` is no valid date, or that date is out of range or has no four-digit
/// year.
pub fn search_window_start(today: CivilDate) -> (r: Option<String>)
    ensures
        r is Some <==> (date_days_before(today.year as int, today.month as int, today.day as int, 7) matches Some(
            e,
        ) && 0 <= e.0 <= 9999),
        r matches Some(t) ==> (date_days_before(today.year as int, today.month as int, today.day as int, 7) matches Some(
            e,
        ) && t@ == date_text(e.0 as int, e.1 as int, e.2 as int)),
{
    match days_before(today, RECENT_WINDOW_DAYS) {
        Some(start) => {
            if start.year < 0 || start.year > 9999 {
                return None;
            }
            let mut t = String::new();
            push_padded(&mut t, start.year as u32, 4);
            t.append("-");
            push_padded(&mut t, start.month, 2);
            t.append("-");
            push_padded(&mut t, start.day, 2);
            Some(t)
        },
        None => None,
    }
}

} // verus!
