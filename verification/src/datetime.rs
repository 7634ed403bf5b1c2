use vstd::prelude::*;

verus! {

/// Whether `c` is an ASCII decimal digit.
pub open spec fn is_digit(c: char) -> bool {
    48 <= c as u32 && c as u32 <= 57
}

/// The numeric value of an ASCII decimal digit.
pub open spec fn digit_val(c: char) -> int {
    c as u32 - 48
}

/// Leap years of the proleptic Gregorian calendar.
pub open spec fn is_leap_year(y: int) -> bool {
    y % 4 == 0 && (y % 100 != 0 || y % 400 == 0)
}

/// The number of days of month `m` in year `y`.
pub open spec fn days_in_month(y: int, m: int) -> int {
    if m == 2 {
        if is_leap_year(y) {
            29
        } else {
            28
        }
    } else if m == 4 || m == 6 || m == 9 || m == 11 {
        30
    } else {
        31
    }
}

/// Days in the months of year `y` that come before month `m`.
pub open spec fn days_before_month(y: int, m: int) -> int
    decreases m,
{
    if m <= 1 {
        0
    } else {
        days_before_month(y, m - 1) + days_in_month(y, m - 1)
    }
}

/// The number of leap years in `[0, y)`.
pub open spec fn leap_years_before(y: int) -> int {
    (y + 3) / 4 - (y + 99) / 100 + (y + 399) / 400
}

/// Days from 0000-01-01 to `y`-01-01 in the proleptic Gregorian calendar.
pub open spec fn days_before_year(y: int) -> int {
    365 * y + leap_years_before(y)
}

/// The day index of the date `y`-`m`-`d`, with 1970-01-01 as day zero; 719528
/// is the number of days from 0000-01-01 to 1970-01-01.
pub open spec fn civil_day(y: int, m: int, d: int) -> int {
    days_before_year(y) + days_before_month(y, m) + (d - 1) - 719528
}

/// The Unix timestamp of `y`-`m`-`d` `h`:`mi`:`s`, the instant taken as UTC.
pub open spec fn civil_timestamp(y: int, m: int, d: int, h: int, mi: int, s: int) -> int {
    civil_day(y, m, d) * 86400 + h * 3600 + mi * 60 + s
}

/// The two-digit number written at positions `i` and `i + 1` of `s`.
pub open spec fn two_digits_at(s: Seq<char>, i: int) -> int {
    digit_val(s[i]) * 10 + digit_val(s[i + 1])
}

pub open spec fn dt_year(s: Seq<char>) -> int {
    digit_val(s[0]) * 1000 + digit_val(s[1]) * 100 + digit_val(s[2]) * 10 + digit_val(s[3])
}

pub open spec fn dt_month(s: Seq<char>) -> int {
    two_digits_at(s, 5)
}

pub open spec fn dt_day(s: Seq<char>) -> int {
    two_digits_at(s, 8)
}

pub open spec fn dt_hour(s: Seq<char>) -> int {
    two_digits_at(s, 11)
}

pub open spec fn dt_minute(s: Seq<char>) -> int {
    two_digits_at(s, 14)
}

pub open spec fn dt_second(s: Seq<char>) -> int {
    two_digits_at(s, 17)
}

/// The embedded capture field's shape: `YYYY:MM:DD HH:MM:SS`, possibly padded
/// with trailing NUL characters.
pub open spec fn dt_shape_ok(s: Seq<char>) -> bool {
    &&& s.len() >= 19
    &&& is_digit(s[0]) && is_digit(s[1]) && is_digit(s[2]) && is_digit(s[3])
    &&& s[4] == ':'
    &&& is_digit(s[5]) && is_digit(s[6])
    &&& s[7] == ':'
    &&& is_digit(s[8]) && is_digit(s[9])
    &&& s[10] == ' '
    &&& is_digit(s[11]) && is_digit(s[12])
    &&& s[13] == ':'
    &&& is_digit(s[14]) && is_digit(s[15])
    &&& s[16] == ':'
    &&& is_digit(s[17]) && is_digit(s[18])
    &&& forall|i: int| 19 <= i < s.len() ==> s[i] == '\0'
}

/// The field ranges of a real calendar date and time of day.
pub open spec fn dt_fields_ok(s: Seq<char>) -> bool {
    &&& 1 <= dt_month(s) <= 12
    &&& 1 <= dt_day(s) <= days_in_month(dt_year(s), dt_month(s))
    &&& dt_hour(s) <= 23
    &&& dt_minute(s) <= 59
    &&& dt_second(s) <= 59
}

/// A parseable embedded capture datetime.
pub open spec fn valid_capture_datetime(s: Seq<char>) -> bool {
    dt_shape_ok(s) && dt_fields_ok(s)
}

/// The capture instant a valid embedded datetime denotes.
pub open spec fn capture_datetime_value(s: Seq<char>) -> int {
    civil_timestamp(dt_year(s), dt_month(s), dt_day(s), dt_hour(s), dt_minute(s), dt_second(s))
}

/// Reads the digit at character position `i`, if there is one.
fn digit_at(s: &str, i: usize) -> (r: Option<u32>)
    requires
        i < s@.len(),
    ensures
        match r {
            Some(v) => is_digit(s@[i as int]) && v == digit_val(s@[i as int]),
            None => !is_digit(s@[i as int]),
        },
{
    let c = s.get_char(i);
    let u = c as u32;
    if 48 <= u && u <= 57 {
        Some(u - 48)
    } else {
        None
    }
}

/// The number of days of month `m` in year `y`.
fn days_in_month_exec(y: u32, m: u32) -> (r: u32)
    requires
        1 <= m <= 12,
    ensures
        r == days_in_month(y as int, m as int),
{
    if m == 2 {
        if y % 4 == 0 && (y % 100 != 0 || y % 400 == 0) {
            29
        } else {
            28
        }
    } else if m == 4 || m == 6 || m == 9 || m == 11 {
        30
    } else {
        31
    }
}

proof fn lemma_days_before_month_bound(y: int, m: int)
    requires
        1 <= m <= 13,
    ensures
        0 <= days_before_month(y, m) <= 31 * (m - 1),
    decreases m,
{
    if m > 1 {
        lemma_days_before_month_bound(y, m - 1);
    }
}

/// The Unix timestamp of the instant `y`-`m`-`d` `h`:`mi`:`s` taken as UTC.
fn civil_timestamp_exec(y: u32, m: u32, d: u32, h: u32, mi: u32, s: u32) -> (r: i64)
    requires
        y <= 9999,
        1 <= m <= 12,
        1 <= d <= 31,
        h <= 23,
        mi <= 59,
        s <= 59,
    ensures
        r == civil_timestamp(y as int, m as int, d as int, h as int, mi as int, s as int),
{
    let yu = y as u64;
    let a = (yu + 3) / 4;
    let b = (yu + 99) / 100;
    let c = (yu + 399) / 400;
    proof {
        assert(4 * ((yu + 3) as int / 4) <= yu + 3 < 4 * ((yu + 3) as int / 4) + 4) by (nonlinear_arith);
        assert(100 * ((yu + 99) as int / 100) <= yu + 99 < 100 * ((yu + 99) as int / 100) + 100)
            by (nonlinear_arith);
    }
    let mut acc: u64 = 0;
    let mut mm: u32 = 1;
    while mm < m
        invariant
            1 <= mm <= m <= 12,
            acc == days_before_month(y as int, mm as int),
            acc <= 31 * (mm - 1),
        decreases m - mm,
    {
        acc = acc + days_in_month_exec(y, mm) as u64;
        mm = mm + 1;
    }
    let before_b = 365 * yu + a + c + acc + (d as u64 - 1);
    let days = before_b as i64 - b as i64 - 719528;
    proof {
        assert(days == civil_day(y as int, m as int, d as int));
        assert(-719528 <= days <= 4000000);
    }
    days * 86400 + (h as i64) * 3600 + (mi as i64) * 60 + (s as i64)
}

/// Parses an embedded capture field of the shape `YYYY:MM:DD HH:MM:SS`
/// (optionally NUL-padded) into the Unix timestamp of that instant taken as
/// UTC; rejects anything else, malformed dates included.
pub fn parse_capture_datetime(s: &str) -> (r: Option<i64>)
    ensures
        match r {
            Some(t) => valid_capture_datetime(s@) && t == capture_datetime_value(s@),
            None => !valid_capture_datetime(s@),
        },
{
    let n = s.unicode_len();
    if n < 19 {
        return None;
    }
    let mut j: usize = 19;
    while j < n
        invariant
            19 <= j <= n,
            n == s@.len(),
            forall|k: int| 19 <= k < j ==> s@[k] == '\0',
        decreases n - j,
    {
        if s.get_char(j) != '\0' {
            return None;
        }
        j += 1;
    }
    if s.get_char(4) != ':' || s.get_char(7) != ':' || s.get_char(10) != ' ' || s.get_char(13)
        != ':' || s.get_char(16) != ':' {
        return None;
    }
    let y1 = match digit_at(s, 0) {
        Some(v) => v,
        None => { return None },
    };
    let y2 = match digit_at(s, 1) {
        Some(v) => v,
        None => { return None },
    };
    let y3 = match digit_at(s, 2) {
        Some(v) => v,
        None => { return None },
    };
    let y4 = match digit_at(s, 3) {
        Some(v) => v,
        None => { return None },
    };
    let mo1 = match digit_at(s, 5) {
        Some(v) => v,
        None => { return None },
    };
    let mo2 = match digit_at(s, 6) {
        Some(v) => v,
        None => { return None },
    };
    let d1 = match digit_at(s, 8) {
        Some(v) => v,
        None => { return None },
    };
    let d2 = match digit_at(s, 9) {
        Some(v) => v,
        None => { return None },
    };
    let h1 = match digit_at(s, 11) {
        Some(v) => v,
        None => { return None },
    };
    let h2 = match digit_at(s, 12) {
        Some(v) => v,
        None => { return None },
    };
    let mi1 = match digit_at(s, 14) {
        Some(v) => v,
        None => { return None },
    };
    let mi2 = match digit_at(s, 15) {
        Some(v) => v,
        None => { return None },
    };
    let s1 = match digit_at(s, 17) {
        Some(v) => v,
        None => { return None },
    };
    let s2 = match digit_at(s, 18) {
        Some(v) => v,
        None => { return None },
    };
    let y = y1 * 1000 + y2 * 100 + y3 * 10 + y4;
    let mo = mo1 * 10 + mo2;
    let d = d1 * 10 + d2;
    let h = h1 * 10 + h2;
    let mi = mi1 * 10 + mi2;
    let sec = s1 * 10 + s2;
    if mo < 1 || mo > 12 {
        return None;
    }
    if d < 1 || d > days_in_month_exec(y, mo) {
        return None;
    }
    if h > 23 || mi > 59 || sec > 59 {
        return None;
    }
    Some(civil_timestamp_exec(y, mo, d, h, mi, sec))
}

} // verus!
