//! Dates of the Gregorian calendar.

use vstd::prelude::*;

verus! {

/// A date and a time of day.
#[derive(Clone, Copy, PartialEq, Eq, Structural, Debug)]
pub struct RtcDateTime {
    pub year: u32,
    pub month: u32,
    pub day: u32,
    pub hour: u32,
    pub minute: u32,
    pub second: u32,
}

/// Whether a year has a day more.
pub open spec fn is_leap(year: int) -> bool {
    year % 4 == 0 && (year % 100 != 0 || year % 400 == 0)
}

/// How many days a month has.
pub open spec fn days_in_month(year: int, month: int) -> int {
    if month == 2 {
        if is_leap(year) {
            29
        } else {
            28
        }
    } else if month == 4 || month == 6 || month == 9 || month == 11 {
        30
    } else {
        31
    }
}

/// How many days of a year are before a month.
pub open spec fn days_before_month(year: int, month: int) -> int
    decreases month,
{
    if month <= 1 {
        0
    } else {
        days_before_month(year, month - 1) + days_in_month(year, month - 1)
    }
}

/// How many days are between the beginning of 1970 and that of a year from then on.
pub open spec fn days_before_year(year: int) -> int
    decreases year - 1970,
{
    if year <= 1970 {
        0
    } else {
        days_before_year(year - 1) + 365 + if is_leap(year - 1) {
            1int
        } else {
            0
        }
    }
}

/// The leap days before a year, counted from the year zero.
pub open spec fn leaps_before(year: int) -> int {
    (year - 1) / 4 - (year - 1) / 100 + (year - 1) / 400
}

proof fn lemma_days_before_year(year: int)
    requires
        year >= 1970,
    ensures
        days_before_year(year) == 365 * (year - 1970) + leaps_before(year) - 477,
    decreases year - 1970,
{
    if year > 1970 {
        lemma_days_before_year(year - 1);
        let y = year - 1;
        assert(leaps_before(year) - leaps_before(y) == if is_leap(y) {
            1int
        } else {
            0
        });
    }
}

proof fn lemma_days_before_month(year: int, month: int)
    requires
        1 <= month <= 12,
    ensures
        0 <= days_before_month(year, month) <= 31 * (month - 1),
    decreases month,
{
    if month > 1 {
        lemma_days_before_month(year, month - 1);
    }
}

impl RtcDateTime {
    /// Whether there is such a date.
    pub open spec fn valid(self) -> bool {
        &&& 1 <= self.month <= 12
        &&& 1 <= self.day <= days_in_month(self.year as int, self.month as int)
        &&& self.hour < 24
        &&& self.minute < 60
        &&& self.second < 60
    }

    /// The seconds since the beginning of 1970.
    pub open spec fn unix_seconds(self) -> int {
        (days_before_year(self.year as int) + days_before_month(
            self.year as int,
            self.month as int,
        ) + self.day - 1) * 86400 + self.hour * 3600 + self.minute * 60 + self.second
    }

    /// A date, if there is such a one.
    pub fn new(year: u32, month: u32, day: u32, hour: u32, minute: u32, second: u32) -> (result:
        Option<Self>)
        ensures
            ({
                let time = RtcDateTime { year, month, day, hour, minute, second };
                result == if time.valid() {
                    Some(time)
                } else {
                    None
                }
            }),
    {
        if month < 1 || month > 12 || hour >= 24 || minute >= 60 || second >= 60 {
            return None;
        }
        if day < 1 || day > month_length(year, month) {
            return None;
        }
        Some(RtcDateTime { year, month, day, hour, minute, second })
    }

    /// The nanoseconds since the beginning of 1970, if they can be counted.
    pub fn unix_time_ns(self) -> (result: Option<u64>)
        requires
            self.valid(),
        ensures
            result == if self.year < 1970 || self.unix_seconds() * 1_000_000_000 > u64::MAX {
                None::<u64>
            } else {
                Some((self.unix_seconds() * 1_000_000_000) as u64)
            },
    {
        if self.year < 1970 {
            return None;
        }
        proof {
            lemma_days_before_year(self.year as int);
            lemma_days_before_month(self.year as int, self.month as int);
        }
        let past: i128 = self.year as i128 - 1;
        let years: i128 = 365 * (self.year as i128 - 1970) + past / 4 - past / 100 + past / 400
            - 477;
        let mut days: i128 = years;
        let mut month: u32 = 1;
        while month < self.month
            invariant
                self.valid(),
                1 <= month <= self.month,
                days == years + days_before_month(self.year as int, month as int),
                0 <= years <= 0x1_0000_0000 * 400,
                years <= days <= years + 31 * (month - 1),
            decreases self.month - month,
        {
            days = days + month_length(self.year, month) as i128;
            month += 1;
        }
        let seconds: i128 = (days + self.day as i128 - 1) * 86400 + (self.hour as i128) * 3600 + (
        self.minute as i128) * 60 + self.second as i128;
        let nanoseconds: i128 = seconds * 1_000_000_000;
        if nanoseconds > 0xffff_ffff_ffff_ffff {
            None
        } else {
            Some(nanoseconds as u64)
        }
    }
}

/// How many days a month has.
pub fn month_length(year: u32, month: u32) -> (days: u32)
    ensures
        days == days_in_month(year as int, month as int),
{
    if month == 2 {
        if year % 4 == 0 && (year % 100 != 0 || year % 400 == 0) {
            29
        } else {
            28
        }
    } else if month == 4 || month == 6 || month == 9 || month == 11 {
        30
    } else {
        31
    }
}

} // verus!
