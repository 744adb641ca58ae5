//! The run date and the output directory named after it.
//!
//! All ingestors of one run share a single output directory whose name is
//! the run date, `YYYY-MM-DD`. The date itself comes from the machine's
//! clock through a trusted call; everything derived from it is verified.

use vstd::prelude::*;
use vstd::string::StringExecFns;
use chrono::Datelike;

verus! {

/// The calendar date a run is scoped to.
#[derive(Clone, Copy, PartialEq, Eq, Structural, Debug)]
pub struct RunDate {
    pub year: u32,
    pub month: u32,
    pub day: u32,
}

/// The decimal digit character for `d`.
pub open spec fn digit(d: int) -> char {
    if d == 0 {
        '0'
    } else if d == 1 {
        '1'
    } else if d == 2 {
        '2'
    } else if d == 3 {
        '3'
    } else if d == 4 {
        '4'
    } else if d == 5 {
        '5'
    } else if d == 6 {
        '6'
    } else if d == 7 {
        '7'
    } else if d == 8 {
        '8'
    } else {
        '9'
    }
}

/// The `YYYY-MM-DD` form of a date, zero-padded.
pub open spec fn spec_dir_name(y: int, m: int, d: int) -> Seq<char> {
    seq![
        digit(y / 1000 % 10),
        digit(y / 100 % 10),
        digit(y / 10 % 10),
        digit(y % 10),
        '-',
        digit(m / 10 % 10),
        digit(m % 10),
        '-',
        digit(d / 10 % 10),
        digit(d % 10),
    ]
}

/// The one-character string for a decimal digit.
fn digit_str(d: u32) -> (r: &'static str)
    requires
        d <= 9,
    ensures
        r@ == seq![digit(d as int)],
{
    proof {
        reveal_strlit("0");
        reveal_strlit("1");
        reveal_strlit("2");
        reveal_strlit("3");
        reveal_strlit("4");
        reveal_strlit("5");
        reveal_strlit("6");
        reveal_strlit("7");
        reveal_strlit("8");
        reveal_strlit("9");
    }
    match d {
        0 => "0",
        1 => "1",
        2 => "2",
        3 => "3",
        4 => "4",
        5 => "5",
        6 => "6",
        7 => "7",
        8 => "8",
        _ => "9",
    }
}

impl RunDate {
    /// Four-digit year, calendar month and day.
    pub open spec fn wf(self) -> bool {
        self.year <= 9999 && 1 <= self.month <= 12 && 1 <= self.day <= 31
    }

    /// Builds a run date, rejecting anything outside the four-digit-year
    /// calendar ranges.
    pub fn new(year: u32, month: u32, day: u32) -> (r: Option<RunDate>)
        ensures
            match r {
                Some(d) => d.wf() && d.year == year && d.month == month && d.day == day,
                None => !(year <= 9999 && 1 <= month <= 12 && 1 <= day <= 31),
            },
    {
        if year <= 9999 && 1 <= month && month <= 12 && 1 <= day && day <= 31 {
            Some(RunDate { year, month, day })
        } else {
            None
        }
    }

    /// The name of the run's output directory: the date as `YYYY-MM-DD`.
    /// Runs of the same day share it, so same-day runs accumulate into one
    /// directory.
    pub fn dir_name(&self) -> (r: String)
        requires
            self.wf(),
        ensures
            r@ == spec_dir_name(self.year as int, self.month as int, self.day as int),
    {
        proof {
            reveal_strlit("-");
        }
        let mut out = String::new();
        out.append(digit_str(self.year / 1000 % 10));
        out.append(digit_str(self.year / 100 % 10));
        out.append(digit_str(self.year / 10 % 10));
        out.append(digit_str(self.year % 10));
        out.append("-");
        out.append(digit_str(self.month / 10 % 10));
        out.append(digit_str(self.month % 10));
        out.append("-");
        out.append(digit_str(self.day / 10 % 10));
        out.append(digit_str(self.day % 10));
        proof {
            assert(out@ =~= spec_dir_name(self.year as int, self.month as int, self.day as int));
        }
        out
    }
}

/// Relies on chrono::Local::now().date_naive() and chrono's Datelike: the
/// month is between 1 and 12 and the day between 1 and 31; the year is
/// whatever the local clock says.
#[verifier::external_body]
fn local_today() -> (r: (i32, u32, u32))
    ensures
        1 <= r.1 <= 12 && 1 <= r.2 <= 31,
{
    let d = chrono::Local::now().date_naive();
    (d.year(), d.month(), d.day())
}

/// Today's date, from the local clock, as a run date; `None` only when the
/// clock reports a year outside the four-digit range this library formats.
pub fn current_run_date() -> (r: Option<RunDate>)
    ensures
        r matches Some(d) ==> d.wf(),
{
    let (y, m, d) = local_today();
    if 0 <= y && y <= 9999 {
        RunDate::new(y as u32, m, d)
    } else {
        None
    }
}

} // verus!
