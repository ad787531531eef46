//! Dates as the files write them: `YYYY-MM-DD`, in the Gregorian calendar.
use vstd::prelude::*;

use crate::text::{Class, all_digits, chars_of, digits_value, split, split_chars, views};

verus! {

/// A leap year of the Gregorian calendar.
pub open spec fn leap(year: nat) -> bool {
    year % 4 == 0 && (year % 100 != 0 || year % 400 == 0)
}

/// The number of days of a month.
pub open spec fn month_days(year: nat, month: nat) -> nat {
    if month == 2 {
        if leap(year) {
            29
        } else {
            28
        }
    } else if month == 4 || month == 6 || month == 9 || month == 11 {
        30
    } else {
        31
    }
}

/// A run of exactly `n` decimal digits, and its value.
pub open spec fn number_of(s: Seq<char>, n: nat) -> Option<nat> {
    if s.len() == n && all_digits(s) {
        Some(digits_value(s))
    } else {
        None
    }
}

/// A date: a year of four digits, a month of two and a day of two, with dashes
/// between, that the calendar has.
pub open spec fn date_of(s: Seq<char>) -> bool {
    let parts = split(s, Class::Is('-'));
    &&& parts.len() == 3
    &&& number_of(parts[0], 4) is Some
    &&& number_of(parts[1], 2) is Some
    &&& number_of(parts[2], 2) is Some
    &&& 1 <= number_of(parts[1], 2)->0 <= 12
    &&& 1 <= number_of(parts[2], 2)->0 <= month_days(
        number_of(parts[0], 4)->0,
        number_of(parts[1], 2)->0,
    )
}

fn is_leap(year: u32) -> (r: bool)
    ensures
        r == leap(year as nat),
{
    year % 4 == 0 && (year % 100 != 0 || year % 400 == 0)
}

fn days_in(year: u32, month: u32) -> (r: u32)
    ensures
        r == month_days(year as nat, month as nat),
{
    if month == 2 {
        if is_leap(year) {
            29
        } else {
            28
        }
    } else if month == 4 || month == 6 || month == 9 || month == 11 {
        30
    } else {
        31
    }
}

fn number(value: &Vec<char>, digits: usize) -> (r: Option<u32>)
    requires
        digits <= 4,
    ensures
        match number_of(value@, digits as nat) {
            Some(v) => r == Some(v as u32) && v < 10000,
            None => r is None,
        },
{
    if value.len() != digits {
        return None;
    }
    let mut v: u32 = 0;
    let mut i: usize = 0;
    while i < value.len()
        invariant
            i <= value@.len() == digits <= 4,
            v == digits_value(value@.take(i as int)),
            all_digits(value@.take(i as int)),
            v < crate::export::escape::pow10(i as nat),
        decreases value.len() - i,
    {
        let c = value[i];
        assert(value@.take(i + 1).drop_last() == value@.take(i as int));
        if !crate::text::digit(c) {
            assert(!all_digits(value@));
            return None;
        }
        assert(crate::export::escape::pow10((i + 1) as nat) == 10 * crate::export::escape::pow10(
            i as nat,
        ));
        assert(crate::export::escape::pow10(i as nat) <= 1000) by {
            reveal_with_fuel(crate::export::escape::pow10, 5);
        }
        v = v * 10 + (c as u32 - '0' as u32);
        i = i + 1;
        assert(all_digits(value@.take(i as int))) by {
            assert forall|j: int| 0 <= j < i implies crate::text::is_digit(
                #[trigger] value@.take(i as int)[j],
            ) by {
                if j < i - 1 {
                    assert(value@.take(i as int)[j] == value@.take(i - 1)[j]);
                }
            }
        }
    }
    assert(value@.take(i as int) == value@);
    assert(crate::export::escape::pow10(i as nat) <= 10000) by {
        reveal_with_fuel(crate::export::escape::pow10, 5);
    }
    Some(v)
}

/// Whether the text is a date of the calendar, `YYYY-MM-DD`.
pub fn is_date(value: &str) -> (r: bool)
    ensures
        r == date_of(value@),
{
    let s = chars_of(value);
    let parts = split_chars(s.as_slice(), &Class::Is('-'));
    if parts.len() != 3 {
        return false;
    }
    let year = number(&parts[0], 4);
    let month = number(&parts[1], 2);
    let day = number(&parts[2], 2);
    match (year, month, day) {
        (Some(y), Some(m), Some(d)) => 1 <= m && m <= 12 && 1 <= d && d <= days_in(y, m),
        _ => false,
    }
}

} // verus!
