use vstd::prelude::*;

verus! {

/// The largest day number the library works with. The calendar backend
/// represents years up to about 262,000 either side of year 1, which stays
/// well inside this bound.
pub const MAX_ABS_DAY: i64 = 100_000_000;

/// A calendar date without a time of day, held as a day number: day 1 is
/// January 1 of year 1, and earlier dates count downward through zero.
#[derive(Clone, Copy, PartialEq, Eq, Structural, Debug)]
pub struct Date {
    pub days: i64,
}

impl Date {
    /// True when the day number lies in the range the library supports.
    pub open spec fn in_range(self) -> bool {
        -MAX_ABS_DAY <= self.days <= MAX_ABS_DAY
    }
}

/// Relies on chrono: `Utc::now` for the current instant, `date_naive` for
/// its calendar date, and `Datelike::num_days_from_ce` for that date's day
/// number. The result depends on the clock, so nothing is claimed of it
/// beyond the range of dates chrono can represent.
#[verifier::external_body]
pub(crate) fn today() -> (r: Date)
    ensures
        r.in_range(),
{
    let now = chrono::Utc::now().date_naive();
    Date { days: chrono::Datelike::num_days_from_ce(&now) as i64 }
}

} // verus!
