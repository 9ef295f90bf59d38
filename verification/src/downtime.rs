//! The downtime report's inputs and its date arithmetic: a `dd-mm-yyyy`
//! date parses to the Unix timestamp of its midnight, and a report period
//! exists exactly where both bounds are given and parse.

use vstd::prelude::*;
use vstd::string::StrSliceExecFns;

verus! {

/// The downtime report's arguments: an optional period, the subgraph to
/// read trades from, and the gap threshold in seconds.
#[derive(Debug, Clone)]
pub struct DowntimeArgs {
    /// Period start, as `dd-mm-yyyy`.
    pub start: Option<String>,
    /// Period end, as `dd-mm-yyyy`.
    pub end: Option<String>,
    pub subgraph_url: String,
    /// Minimum gap between trades to count, in seconds.
    pub threshold_secs: u64,
}

/// Whether a year has a leap day.
pub open spec fn is_leap(y: int) -> bool {
    y % 4 == 0 && (y % 100 != 0 || y % 400 == 0)
}

/// The days of a month.
pub open spec fn month_days(m: int, leap: bool) -> nat {
    if m == 2 {
        if leap {
            29nat
        } else {
            28nat
        }
    } else if m == 4 || m == 6 || m == 9 || m == 11 {
        30nat
    } else {
        31nat
    }
}

/// Days from the epoch to the start of a year.
pub open spec fn days_before_year(y: int) -> nat
    decreases y,
{
    if y <= 1970 {
        0nat
    } else {
        days_before_year(y - 1) + if is_leap(y - 1) {
            366nat
        } else {
            365nat
        }
    }
}

/// Days from the start of a year to the start of a month.
pub open spec fn days_before_month(m: int, leap: bool) -> nat
    decreases m,
{
    if m <= 1 {
        0nat
    } else {
        days_before_month(m - 1, leap) + month_days(m - 1, leap)
    }
}

/// The Unix timestamp of a date's midnight.
pub open spec fn date_timestamp(y: int, m: int, d: int) -> nat {
    (86400 * (days_before_year(y) + days_before_month(m, is_leap(y)) + (d - 1))) as nat
}

/// Whether a character is a decimal digit.
pub open spec fn is_dec_digit(c: char) -> bool {
    '0' <= c && c <= '9'
}

/// The value of a decimal digit.
pub open spec fn dec_val(c: char) -> nat {
    (c as nat - '0' as nat) as nat
}

/// The day, month and year a well-formed `dd-mm-yyyy` text carries.
pub open spec fn date_fields(s: Seq<char>) -> (int, int, int) {
    (
        (dec_val(s[0]) * 10 + dec_val(s[1])) as int,
        (dec_val(s[3]) * 10 + dec_val(s[4])) as int,
        (dec_val(s[6]) * 1000 + dec_val(s[7]) * 100 + dec_val(s[8]) * 10 + dec_val(s[9])) as int,
    )
}

/// A well-formed date text: ten characters, dashes between the fields, all
/// else digits, and a real calendar date from 1970 on.
pub open spec fn valid_date_text(s: Seq<char>) -> bool {
    let (d, m, y) = date_fields(s);
    &&& s.len() == 10
    &&& s[2] == '-'
    &&& s[5] == '-'
    &&& is_dec_digit(s[0]) && is_dec_digit(s[1]) && is_dec_digit(s[3]) && is_dec_digit(s[4])
    &&& is_dec_digit(s[6]) && is_dec_digit(s[7]) && is_dec_digit(s[8]) && is_dec_digit(s[9])
    &&& 1970 <= y <= 9999
    &&& 1 <= m <= 12
    &&& 1 <= d <= month_days(m, is_leap(y))
}

/// A year holds at most 366 days of the epoch count per year passed.
proof fn lemma_days_before_year_bound(y: int)
    requires
        y <= 10000,
    ensures
        days_before_year(y) <= 366 * 8030,
    decreases y,
{
    lemma_days_before_year_linear(y);
}

/// The epoch day count grows by at most 366 a year.
proof fn lemma_days_before_year_linear(y: int)
    ensures
        y <= 1970 ==> days_before_year(y) == 0,
        y > 1970 ==> days_before_year(y) <= 366 * (y - 1970),
    decreases y,
{
    if y > 1970 {
        lemma_days_before_year_linear(y - 1);
    }
}

/// Days from the start of a year to the start of a month stay bounded by
/// the longest months.
proof fn lemma_days_before_month_bound(m: int, leap: bool)
    ensures
        days_before_month(m, leap) <= 31 * (if m <= 1 {
            0int
        } else {
            m - 1
        }),
    decreases m,
{
    if m > 1 {
        lemma_days_before_month_bound(m - 1, leap);
    }
}

/// The digit at a position of a date text.
fn date_digit(st: &str, i: usize) -> (r: Option<u64>)
    requires
        st@.len() == 10,
        i < 10,
    ensures
        match r {
            Some(v) => is_dec_digit(st@[i as int]) && v == dec_val(st@[i as int]) && v <= 9,
            None => !is_dec_digit(st@[i as int]),
        },
{
    let c = st.get_char(i);
    if '0' <= c && c <= '9' {
        Some(((c as u8) - ('0' as u8)) as u64)
    } else {
        None
    }
}

impl DowntimeArgs {
    /// Parses a `dd-mm-yyyy` date into the Unix timestamp of its midnight:
    /// exactly the well-formed calendar dates from 1970 on parse.
    pub fn parse_date(date_str: &String) -> (r: Option<u64>)
        ensures
            match r {
                Some(t) => valid_date_text(date_str@) && ({
                    let (d, m, y) = date_fields(date_str@);
                    t == date_timestamp(y, m, d)
                }),
                None => !valid_date_text(date_str@),
            },
    {
        let st = date_str.as_str();
        if st.unicode_len() != 10 {
            return None;
        }
        if st.get_char(2) != '-' || st.get_char(5) != '-' {
            return None;
        }
        let d = match (date_digit(st, 0), date_digit(st, 1)) {
            (Some(a), Some(b)) => a * 10 + b,
            _ => {
                return None;
            },
        };
        let m = match (date_digit(st, 3), date_digit(st, 4)) {
            (Some(a), Some(b)) => a * 10 + b,
            _ => {
                return None;
            },
        };
        let y = match (date_digit(st, 6), date_digit(st, 7), date_digit(st, 8), date_digit(st, 9)) {
            (Some(a), Some(b), Some(c), Some(e)) => a * 1000 + b * 100 + c * 10 + e,
            _ => {
                return None;
            },
        };
        if y < 1970 {
            return None;
        }
        if m < 1 || m > 12 {
            return None;
        }
        let leap = (y % 4 == 0) && (y % 100 != 0 || y % 400 == 0);
        proof {
            assert(leap == is_leap(y as int));
        }
        let mdays: u64 = if m == 2 {
            if leap {
                29
            } else {
                28
            }
        } else if m == 4 || m == 6 || m == 9 || m == 11 {
            30
        } else {
            31
        };
        proof {
            assert(mdays == month_days(m as int, is_leap(y as int)));
        }
        if d < 1 || d > mdays {
            return None;
        }

        // days from the epoch to the start of the year
        let mut year_days: u64 = 0;
        let mut yi: u64 = 1970;
        while yi < y
            invariant
                1970 <= yi <= y <= 9999,
                year_days == days_before_year(yi as int),
                year_days <= 366 * 8030,
            decreases y - yi,
        {
            proof {
                lemma_days_before_year_bound(yi as int + 1);
            }
            let leap_yi = (yi % 4 == 0) && (yi % 100 != 0 || yi % 400 == 0);
            year_days = year_days + if leap_yi {
                366
            } else {
                365
            };
            yi = yi + 1;
        }

        // days from the start of the year to the start of the month
        let mut month_days_sum: u64 = 0;
        let mut mi: u64 = 1;
        while mi < m
            invariant
                1 <= mi <= m <= 12,
                leap == is_leap(y as int),
                month_days_sum == days_before_month(mi as int, is_leap(y as int)),
                month_days_sum <= 372,
            decreases m - mi,
        {
            proof {
                lemma_days_before_month_bound(mi as int + 1, is_leap(y as int));
            }
            let md: u64 = if mi == 2 {
                if leap {
                    29
                } else {
                    28
                }
            } else if mi == 4 || mi == 6 || mi == 9 || mi == 11 {
                30
            } else {
                31
            };
            month_days_sum = month_days_sum + md;
            mi = mi + 1;
        }

        let days = year_days + month_days_sum + (d - 1);
        Some(86400 * days)
    }

    /// The report period: both bounds parsed where both are given, nothing
    /// where either is absent, and no period at all where one is malformed.
    pub fn period(&self) -> (r: Result<Option<(u64, u64)>, ()>)
        ensures
            match r {
                Ok(Some(p)) => self.start matches Some(s) && (valid_date_text(s@) && (self.end
                    matches Some(e) && (valid_date_text(e@) && ({
                    let (sd, sm, sy) = date_fields(s@);
                    let (ed, em, ey) = date_fields(e@);
                    p.0 == date_timestamp(sy, sm, sd) && p.1 == date_timestamp(ey, em, ed)
                })))),
                Ok(None) => self.start is None || self.end is None,
                Err(_) => (self.start matches Some(s) && !valid_date_text(s@)) || (self.end
                    matches Some(e) && !valid_date_text(e@)),
            },
    {
        let start = match &self.start {
            Some(s) => match DowntimeArgs::parse_date(s) {
                Some(t) => Some(t),
                None => {
                    return Err(());
                },
            },
            None => None,
        };
        let end = match &self.end {
            Some(e) => match DowntimeArgs::parse_date(e) {
                Some(t) => Some(t),
                None => {
                    return Err(());
                },
            },
            None => None,
        };
        match (start, end) {
            (Some(a), Some(b)) => Ok(Some((a, b))),
            _ => Ok(None),
        }
    }
}

} // verus!
