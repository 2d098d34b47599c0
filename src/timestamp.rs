//! Naive calendar timestamps: their text layout `YYYY-MM-DD HH:MM:SS.f`, where the
//! fraction has one to nine digits, and their count of nanoseconds since 1970-01-01.

use crate::calendar::{
    chrono_date_of_epoch_day, chrono_epoch_day, epoch_day, is_valid_date, lemma_date_in_year,
    lemma_epoch_day_injective, lemma_years_ordered,
};
use crate::digits::{
    all_digits, digits_value, lemma_digits_bound, lemma_pow10_monotone, padded_digits, pow10,
    push_padded, read_digits,
};
use vstd::arithmetic::div_mod::lemma_fundamental_div_mod;
use vstd::prelude::*;

verus! {

pub const NANOS_PER_SECOND: u32 = 1_000_000_000;

pub const SECONDS_PER_DAY: u32 = 86_400;

/// Whole days added before dividing, so that every `i64` count becomes positive.
const SHIFT_DAYS: i64 = 110_000;

/// `SHIFT_DAYS` days in nanoseconds.
const SHIFT_NANOS: i128 = 9_504_000_000_000_000_000;

/// Why a text or a count could not be converted.
#[derive(Clone, Copy, Debug, PartialEq, Eq, Structural)]
pub enum Ts9Error {
    /// The text does not follow the layout, or names a date or time that does not exist.
    MalformedInput,
    /// The instant lies outside what a signed 64-bit nanosecond count can hold.
    OutOfRange,
}

/// A date of the proleptic Gregorian calendar with a time of day, in no time zone.
#[derive(Clone, Copy, Debug, PartialEq, Eq, Structural)]
pub struct CivilDateTime {
    pub year: i32,
    pub month: u32,
    pub day: u32,
    pub hour: u32,
    pub minute: u32,
    pub second: u32,
    pub nanosecond: u32,
}

/// Positions in the text layout.
pub open spec fn has_separators(s: Seq<char>) -> bool {
    s[4] == '-' && s[7] == '-' && s[10] == ' ' && s[13] == ':' && s[16] == ':' && s[19] == '.'
}

/// `YYYY-MM-DD HH:MM:SS.` followed by one to nine digits.
pub open spec fn has_layout(s: Seq<char>) -> bool {
    &&& 21 <= s.len() <= 29
    &&& has_separators(s)
    &&& all_digits(s.subrange(0, 4))
    &&& all_digits(s.subrange(5, 7))
    &&& all_digits(s.subrange(8, 10))
    &&& all_digits(s.subrange(11, 13))
    &&& all_digits(s.subrange(14, 16))
    &&& all_digits(s.subrange(17, 19))
    &&& all_digits(s.subrange(20, s.len() as int))
}

pub open spec fn field(s: Seq<char>, from: int, to: int) -> int {
    digits_value(s.subrange(from, to))
}

/// The fraction after the point, in nanoseconds: its digits padded with zeros to nine.
pub open spec fn fraction_nanos(s: Seq<char>) -> int {
    field(s, 20, s.len() as int) * pow10((29 - s.len()) as nat)
}

/// The fields that a text in the layout names, whether or not they form a real instant.
pub open spec fn fields_of(s: Seq<char>) -> CivilDateTime {
    CivilDateTime {
        year: field(s, 0, 4) as i32,
        month: field(s, 5, 7) as u32,
        day: field(s, 8, 10) as u32,
        hour: field(s, 11, 13) as u32,
        minute: field(s, 14, 16) as u32,
        second: field(s, 17, 19) as u32,
        nanosecond: fraction_nanos(s) as u32,
    }
}

pub open spec fn parse_fields(s: Seq<char>) -> Result<CivilDateTime, Ts9Error> {
    if has_layout(s) {
        Ok(fields_of(s))
    } else {
        Err(Ts9Error::MalformedInput)
    }
}

impl CivilDateTime {
    /// The date exists and the time of day lies within the day.
    pub open spec fn is_valid(self) -> bool {
        &&& is_valid_date(self.year as int, self.month as int, self.day as int)
        &&& self.hour < 24
        &&& self.minute < 60
        &&& self.second < 60
        &&& self.nanosecond < NANOS_PER_SECOND
    }

    pub open spec fn epoch_seconds(self) -> int {
        epoch_day(self.year as int, self.month as int, self.day as int) * SECONDS_PER_DAY + self.hour
            * 3600 + self.minute * 60 + self.second
    }

    /// Nanoseconds from 1970-01-01 00:00:00 to this instant.
    pub open spec fn epoch_nanos(self) -> int {
        self.epoch_seconds() * NANOS_PER_SECOND + self.nanosecond
    }

    /// The nanosecond count, or why there is none.
    pub open spec fn nanos_result(self) -> Result<i64, Ts9Error> {
        if !self.is_valid() {
            Err(Ts9Error::MalformedInput)
        } else if self.epoch_nanos() < i64::MIN || self.epoch_nanos() > i64::MAX {
            Err(Ts9Error::OutOfRange)
        } else {
            Ok(self.epoch_nanos() as i64)
        }
    }

    /// `YYYY-MM-DD HH:MM:SS.fffffffff`.
    pub open spec fn text(self) -> Seq<char> {
        padded_digits(self.year as nat, 4) + seq!['-'] + padded_digits(self.month as nat, 2)
            + seq!['-'] + padded_digits(self.day as nat, 2) + seq![' '] + padded_digits(
            self.hour as nat,
            2,
        ) + seq![':'] + padded_digits(self.minute as nat, 2) + seq![':'] + padded_digits(
            self.second as nat,
            2,
        ) + seq!['.'] + padded_digits(self.nanosecond as nat, 9)
    }
}

/// Two valid instants with the same nanosecond count are the same instant.
pub proof fn lemma_epoch_nanos_injective(p: CivilDateTime, q: CivilDateTime)
    requires
        p.is_valid(),
        q.is_valid(),
        p.epoch_nanos() == q.epoch_nanos(),
    ensures
        p == q,
{
    let dp = epoch_day(p.year as int, p.month as int, p.day as int);
    let dq = epoch_day(q.year as int, q.month as int, q.day as int);
    let tp = p.hour * 3600 + p.minute * 60 + p.second;
    let tq = q.hour * 3600 + q.minute * 60 + q.second;
    assert(dp == dq && tp == tq && p.nanosecond == q.nanosecond) by (nonlinear_arith)
        requires
            (dp * 86400 + tp) * 1_000_000_000 + p.nanosecond == (dq * 86400 + tq) * 1_000_000_000
                + q.nanosecond,
            0 <= tp < 86400,
            0 <= tq < 86400,
            0 <= p.nanosecond < 1_000_000_000,
            0 <= q.nanosecond < 1_000_000_000,
    ;
    lemma_epoch_day_injective(
        p.year as int,
        p.month as int,
        p.day as int,
        q.year as int,
        q.month as int,
        q.day as int,
    );
}

impl CivilDateTime {
    /// The instant `n` nanoseconds after 1970-01-01 00:00:00. A count before 1970 is
    /// split into whole seconds rounded down and a non-negative nanosecond part.
    pub fn from_epoch_nanos(n: i64) -> (r: CivilDateTime)
        ensures
            r.is_valid(),
            r.epoch_nanos() == n as int,
            1677 <= r.year <= 2262,
    {
        let shifted: u128 = (n as i128 + SHIFT_NANOS) as u128;
        let secs: u128 = shifted / (NANOS_PER_SECOND as u128);
        let nanosecond: u32 = (shifted % (NANOS_PER_SECOND as u128)) as u32;
        let shifted_days: u128 = secs / (SECONDS_PER_DAY as u128);
        let of_day: u32 = (secs % (SECONDS_PER_DAY as u128)) as u32;
        proof {
            lemma_fundamental_div_mod(shifted as int, 1_000_000_000);
            lemma_fundamental_div_mod(secs as int, 86400);
            assert(shifted as int == shifted_days * 86_400_000_000_000 + (of_day * 1_000_000_000
                + nanosecond)) by (nonlinear_arith)
                requires
                    shifted as int == 1_000_000_000 * secs + nanosecond,
                    secs as int == 86400 * shifted_days + of_day,
            ;
        }
        let days: i32 = (shifted_days as i64 - SHIFT_DAYS) as i32;
        let hour: u32 = of_day / 3600;
        let minute: u32 = (of_day % 3600) / 60;
        let second: u32 = (of_day % 3600) % 60;
        proof {
            lemma_fundamental_div_mod(of_day as int, 3600);
            lemma_fundamental_div_mod((of_day % 3600) as int, 60);
        }
        let (year, month, day) = chrono_date_of_epoch_day(days).unwrap();
        let r = CivilDateTime { year, month, day, hour, minute, second, nanosecond };
        proof {
            let (y, m, d) = (year as int, month as int, day as int);
            if y < 1677 {
                lemma_date_in_year(y, m, d);
                lemma_years_ordered(y + 1, 1677);
            }
            if y > 2262 {
                lemma_date_in_year(y, m, d);
                lemma_years_ordered(2263, y);
            }
            assert(r.epoch_nanos() == n as int) by (nonlinear_arith)
                requires
                    r.epoch_nanos() == (days * 86400 + hour * 3600 + minute * 60 + second)
                        * 1_000_000_000 + nanosecond,
                    n + 9_504_000_000_000_000_000 == shifted_days * 86_400_000_000_000 + (of_day
                        * 1_000_000_000 + nanosecond),
                    days == shifted_days - 110_000,
                    of_day == 3600 * hour + 60 * minute + second,
            ;
        }
        r
    }
}

impl CivilDateTime {
    /// Nanoseconds from 1970-01-01 00:00:00 to this instant.
    pub fn to_epoch_nanos(&self) -> (r: Result<i64, Ts9Error>)
        requires
            0 <= self.year <= 9999,
        ensures
            r == self.nanos_result(),
    {
        if self.hour >= 24 || self.minute >= 60 || self.second >= 60 || self.nanosecond
            >= NANOS_PER_SECOND {
            return Err(Ts9Error::MalformedInput);
        }
        match chrono_epoch_day(self.year, self.month, self.day) {
            None => Err(Ts9Error::MalformedInput),
            Some(days) => {
                let secs: i128 = days as i128 * (SECONDS_PER_DAY as i128) + self.hour as i128
                    * 3600 + self.minute as i128 * 60 + self.second as i128;
                let total: i128 = secs * (NANOS_PER_SECOND as i128) + self.nanosecond as i128;
                if total < i64::MIN as i128 || total > i64::MAX as i128 {
                    Err(Ts9Error::OutOfRange)
                } else {
                    Ok(total as i64)
                }
            },
        }
    }

    /// The instant written `YYYY-MM-DD HH:MM:SS.fffffffff`.
    pub fn to_text(&self) -> (r: String)
        requires
            0 <= self.year <= 9999,
        ensures
            r@ == self.text(),
    {
        proof {
            reveal_strlit("-");
            reveal_strlit(" ");
            reveal_strlit(":");
            reveal_strlit(".");
        }
        let mut out = String::new();
        push_padded(&mut out, self.year as u32, 4);
        out.append("-");
        push_padded(&mut out, self.month, 2);
        out.append("-");
        push_padded(&mut out, self.day, 2);
        out.append(" ");
        push_padded(&mut out, self.hour, 2);
        out.append(":");
        push_padded(&mut out, self.minute, 2);
        out.append(":");
        push_padded(&mut out, self.second, 2);
        out.append(".");
        push_padded(&mut out, self.nanosecond, 9);
        assert(out@ =~= self.text());
        out
    }

    /// Reads the fields of a text in the layout `YYYY-MM-DD HH:MM:SS.f`, with one to
    /// nine fraction digits; whether they form a real instant is not checked here.
    pub fn parse(s: &str) -> (r: Result<CivilDateTime, Ts9Error>)
        ensures
            r == parse_fields(s@),
            r matches Ok(p) ==> 0 <= p.year <= 9999,
    {
        let len = s.unicode_len();
        if len < 21 || len > 29 {
            return Err(Ts9Error::MalformedInput);
        }
        if s.get_char(4) != '-' || s.get_char(7) != '-' || s.get_char(10) != ' ' || s.get_char(13)
            != ':' || s.get_char(16) != ':' || s.get_char(19) != '.' {
            return Err(Ts9Error::MalformedInput);
        }
        let year = match read_digits(s, 0, 4) {
            Some(v) => v,
            None => return Err(Ts9Error::MalformedInput),
        };
        let month = match read_digits(s, 5, 7) {
            Some(v) => v,
            None => return Err(Ts9Error::MalformedInput),
        };
        let day = match read_digits(s, 8, 10) {
            Some(v) => v,
            None => return Err(Ts9Error::MalformedInput),
        };
        let hour = match read_digits(s, 11, 13) {
            Some(v) => v,
            None => return Err(Ts9Error::MalformedInput),
        };
        let minute = match read_digits(s, 14, 16) {
            Some(v) => v,
            None => return Err(Ts9Error::MalformedInput),
        };
        let second = match read_digits(s, 17, 19) {
            Some(v) => v,
            None => return Err(Ts9Error::MalformedInput),
        };
        let fraction = match read_digits(s, 20, len) {
            Some(v) => v,
            None => return Err(Ts9Error::MalformedInput),
        };
        let ghost digits = s@.subrange(20, len as int);
        proof {
            lemma_digits_bound(s@.subrange(0, 4));
            lemma_digits_bound(digits);
            reveal_with_fuel(pow10, 10);
            assert(pow10(0) == 1);
            assert(fraction * 1 == fraction);
        }
        let mut nanosecond: u32 = fraction;
        let mut k: usize = len;
        while k < 29
            invariant
                len <= k <= 29,
                21 <= len,
                pow10(9) == 1_000_000_000,
                nanosecond as int == fraction * pow10((k - len) as nat),
                nanosecond < pow10((k - 20) as nat),
            decreases 29 - k,
        {
            proof {
                let p = pow10((k - len) as nat);
                assert(pow10((k + 1 - len) as nat) == 10 * p);
                assert(pow10((k + 1 - 20) as nat) == 10 * pow10((k - 20) as nat));
                lemma_pow10_monotone((k + 1 - 20) as nat, 9);
                assert(fraction * p * 10 == fraction * (10 * p)) by (nonlinear_arith);
            }
            nanosecond = nanosecond * 10;
            k = k + 1;
        }
        let r = CivilDateTime {
            year: year as i32,
            month,
            day,
            hour,
            minute,
            second,
            nanosecond,
        };
        assert(r == fields_of(s@));
        Ok(r)
    }
}

} // verus!
