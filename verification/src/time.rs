//! Calendar dates.

use vstd::prelude::*;
use vstd::string::*;
use crate::text::{padded_decimal, push_char, push_padded_decimal};

verus! {

/// Whether `year` is a leap year of the Gregorian calendar.
pub open spec fn spec_is_leap_year(year: int) -> bool {
    year % 400 == 0 || (year % 100 != 0 && year % 4 == 0)
}

/// Number of days of `month` in `year`. A number that is no month, below 1
/// or above 12, counts as a month of 30 days.
pub open spec fn spec_days_in_month(month: int, year: int) -> int {
    if month == 2 {
        if spec_is_leap_year(year) {
            29
        } else {
            28
        }
    } else if month == 1 || month == 3 || month == 5 || month == 7 || month == 8 || month == 10
        || month == 12 {
        31
    } else {
        30
    }
}

/// Whether the three numbers name a day of the calendar.
pub open spec fn valid_date(year: int, month: int, day: int) -> bool {
    1 <= month <= 12 && 1 <= day <= spec_days_in_month(month, year)
}

/// The form `YYYY-MM-DD` of a date: the year with at least four digits, month
/// and day with at least two.
pub open spec fn iso_text(year: int, month: int, day: int) -> Seq<char> {
    padded_decimal(year as nat, 4) + seq!['-'] + padded_decimal(month as nat, 2) + seq!['-']
        + padded_decimal(day as nat, 2)
}

/// The message with which [`LocalDate::ymd`] refuses numbers that name no day.
pub open spec fn invalid_date_message(year: int, month: int, day: int) -> Seq<char> {
    "invalid month "@ + iso_text(year, month, day)
}

pub fn is_leap_year(year: u16) -> (leap: bool)
    ensures
        leap == spec_is_leap_year(year as int),
{
    year % 400 == 0 || (year % 100 != 0 && year % 4 == 0)
}

pub fn days_in_month(month: u8, year: u16) -> (days: u8)
    ensures
        days == spec_days_in_month(month as int, year as int),
{
    match month {
        1 | 3 | 5 | 7 | 8 | 10 | 12 => 31,
        2 => if is_leap_year(year) {
            29
        } else {
            28
        },
        _ => 30,
    }
}

fn push_iso(text: &mut String, year: u16, month: u8, day: u8)
    ensures
        final(text)@ == old(text)@ + iso_text(year as int, month as int, day as int),
{
    push_padded_decimal(text, year as u32, 4);
    push_char(text, '-');
    push_padded_decimal(text, month as u32, 2);
    push_char(text, '-');
    push_padded_decimal(text, day as u32, 2);
}

/// A day of the Gregorian calendar.
#[derive(Clone, Copy, Debug, PartialEq, Eq)]
pub struct LocalDate {
    year: u16,
    month: u8,
    day: u8,
}

impl LocalDate {
    #[verifier::type_invariant]
    spec fn is_valid(self) -> bool {
        valid_date(self.year as int, self.month as int, self.day as int)
    }

    pub closed spec fn spec_year(&self) -> int {
        self.year as int
    }

    pub closed spec fn spec_month(&self) -> int {
        self.month as int
    }

    pub closed spec fn spec_day(&self) -> int {
        self.day as int
    }

    /// The date's text, as [`LocalDate::iso_string`] returns it.
    pub open spec fn spec_iso(&self) -> Seq<char> {
        iso_text(self.spec_year(), self.spec_month(), self.spec_day())
    }

    pub fn year(&self) -> (year: u16)
        ensures
            year == self.spec_year(),
    {
        self.year
    }

    /// The month, from 1 to 12.
    pub fn month(&self) -> (month: u8)
        ensures
            month == self.spec_month(),
            1 <= month <= 12,
    {
        proof {
            use_type_invariant(self);
        }
        self.month
    }

    /// The day of the month, which the month has in this year.
    pub fn day(&self) -> (day: u8)
        ensures
            day == self.spec_day(),
            valid_date(self.spec_year(), self.spec_month(), self.spec_day()),
    {
        proof {
            use_type_invariant(self);
        }
        self.day
    }

    /// The date of the given year, month and day, or a message when the
    /// calendar has no such day.
    pub fn ymd(year: u16, month: u8, day: u8) -> (result: Result<LocalDate, String>)
        ensures
            valid_date(year as int, month as int, day as int) ==> result is Ok,
            match result {
                Ok(date) => {
                    &&& valid_date(year as int, month as int, day as int)
                    &&& date.spec_year() == year
                    &&& date.spec_month() == month
                    &&& date.spec_day() == day
                },
                Err(message) => {
                    &&& !valid_date(year as int, month as int, day as int)
                    &&& message@ == invalid_date_message(year as int, month as int, day as int)
                },
            },
    {
        if month >= 1 && month <= 12 && day >= 1 && day <= days_in_month(month, year) {
            Ok(LocalDate { year, month, day })
        } else {
            let mut message = String::from_str("invalid month ");
            push_iso(&mut message, year, month, day);
            Err(message)
        }
    }

    pub fn iso_string(&self) -> (text: String)
        ensures
            text@ == self.spec_iso(),
    {
        let mut text = String::new();
        push_iso(&mut text, self.year, self.month, self.day);
        text
    }
}

} // verus!
