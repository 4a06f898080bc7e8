use vstd::prelude::*;

use crate::date::spec_days_in_month;
use crate::date::Date;

verus! {

/// The full English weekday name ("Monday" .. "Sunday") of a calendar day,
/// as the calendar computes it from year, month and day alone.
pub uninterp spec fn weekday_of(y: int, m: int, d: int) -> Seq<char>;

/// Relies on `chrono::Local::now`: the clock and time zone decide which day
/// comes back, so nothing is promised beyond it being a real calendar day
/// (`chrono::NaiveDate` values always are).
#[verifier::external_body]
fn current_local_ymd() -> (r: (i32, u32, u32))
    ensures
        1 <= r.1 <= 12,
        1 <= r.2 <= spec_days_in_month(r.0 as int, r.1 as int),
{
    let today = chrono::Local::now().date_naive();
    (
        chrono::Datelike::year(&today),
        chrono::Datelike::month(&today),
        chrono::Datelike::day(&today),
    )
}

/// Relies on `chrono::NaiveDate::from_ymd_opt` and `format("%A")`: for a real
/// calendar day in the supported years the date exists, and formatting it
/// with `%A` yields its full weekday name, a function of the components
/// alone.
#[verifier::external_body]
fn weekday_name_ymd(y: u32, m: u32, d: u32) -> (r: String)
    requires
        y <= 9999,
        1 <= m <= 12,
        1 <= d <= spec_days_in_month(y as int, m as int),
    ensures
        r@ == weekday_of(y as int, m as int, d as int),
{
    let date = chrono::NaiveDate::from_ymd_opt(y as i32, m, d).unwrap();
    date.format("%A").to_string()
}

impl Date {
    /// The current local day, clamped into the supported years (the clamp can
    /// only act when the system clock is set outside years 0..=9999).
    pub fn today() -> (r: Date)
        ensures
            r.wf(),
    {
        let (y, m, d) = current_local_ymd();
        if y < 0 {
            Date { year: 0, month: 1, day: 1 }
        } else if y > 9999 {
            Date { year: 9999, month: 12, day: 31 }
        } else {
            Date { year: y as u32, month: m, day: d }
        }
    }

    /// This date's full weekday name.
    pub fn weekday_name(&self) -> (r: String)
        requires
            self.wf(),
        ensures
            r@ == weekday_of(self.year as int, self.month as int, self.day as int),
    {
        weekday_name_ymd(self.year, self.month, self.day)
    }
}

} // verus!
