//! The trading calendar: civil dates as day numbers, weekdays, and timestamps
//! within a session.

use vstd::prelude::*;
use crate::packed::{day_of, MICROS_PER_DAY};
use crate::text::{
    chars_of, find_fault, number_fault, parse_i64, parse_u32, read_int, read_nat, within, NumberError,
};

verus! {

/// Seconds from midnight UTC to the opening of the session, 03:45.
pub const OPEN_OFFSET_S: i64 = 13_500;

/// Length of a session in seconds, six and a quarter hours.
pub const SESSION_S: i64 = 22_500;

/// Length of a session in microseconds.
pub const SESSION_US: i64 = 22_500_000_000;

/// Seconds in a day.
pub const DAY_S: i64 = 86_400;

// ---------------------------------------------------------------------------
// Dates
// ---------------------------------------------------------------------------

/// Years counted from March, so that a leap day is the last of its year.
pub open spec fn march_year(y: int, m: int) -> int {
    if m <= 2 {
        y - 1
    } else {
        y
    }
}

/// Months counted from March.
pub open spec fn march_month(m: int) -> int {
    if m > 2 {
        m - 3
    } else {
        m + 9
    }
}

/// Days from 1970-01-01 to the given date of the Gregorian calendar.
pub open spec fn day_number(y: int, m: int, d: int) -> int {
    let yy = march_year(y, m);
    365 * yy + yy / 4 - yy / 100 + yy / 400 + (153 * march_month(m) + 2) / 5 + d - 1 - 719468
}

pub open spec fn is_leap(y: int) -> bool {
    y % 4 == 0 && (y % 100 != 0 || y % 400 == 0)
}

pub open spec fn month_length(y: int, m: int) -> int {
    if m == 2 {
        if is_leap(y) {
            29
        } else {
            28
        }
    } else if m == 4 || m == 6 || m == 9 || m == 11 {
        30
    } else {
        31
    }
}

/// A date of the Gregorian calendar.
pub open spec fn is_date(y: int, m: int, d: int) -> bool {
    1 <= m <= 12 && 1 <= d <= month_length(y, m)
}

/// No step towards the day number leaves 64 bits.
pub open spec fn civil_fits(y: int, m: int, d: int) -> bool {
    &&& i64::MIN <= 146097 * (march_year(y, m) / 400) <= i64::MAX
    &&& i64::MIN <= day_number(y, m, d) <= i64::MAX - 719468
}

/// The leap days of a year's era and of the years within it.
proof fn lemma_era(y: int)
    ensures
        ({
            let era = y / 400;
            let yoe = y - 400 * era;
            &&& 0 <= yoe <= 399
            &&& y / 4 == 100 * era + yoe / 4
            &&& y / 100 == 4 * era + yoe / 100
        }),
{
}

/// Whether a date's day number can be computed in 64 bits.
pub fn date_fits(y: i64, m: u32, d: u32) -> (r: bool)
    ensures
        r == civil_fits(y as int, m as int, d as int),
{
    proof {
        lemma_era(march_year(y as int, m as int));
    }
    let yy: i128 = if m <= 2 {
        y as i128 - 1
    } else {
        y as i128
    };
    let era: i128 = (if yy >= 0 {
        yy
    } else {
        yy - 399
    }) / 400;
    assert(era == yy as int / 400);
    let yoe: i128 = yy - era * 400;
    let mp: i128 = if m > 2 {
        m as i128 - 3
    } else {
        m as i128 + 9
    };
    let doy: i128 = (153 * mp + 2) / 5 + d as i128 - 1;
    let doe: i128 = yoe * 365 + yoe / 4 - yoe / 100 + doy;
    let z: i128 = era * 146097 + doe - 719468;
    assert(z == day_number(y as int, m as int, d as int));
    let top: i128 = 0x7fff_ffff_ffff_ffff;
    -top - 1 <= era * 146097 && era * 146097 <= top && -top - 1 <= z && z <= top - 719468
}

/// Days from 1970-01-01 to a date of the Gregorian calendar.
pub fn days_from_civil(y: i64, m: u32, d: u32) -> (z: i64)
    requires
        civil_fits(y as int, m as int, d as int),
    ensures
        z == day_number(y as int, m as int, d as int),
{
    proof {
        lemma_era(march_year(y as int, m as int));
    }
    let yy: i64 = if m <= 2 {
        y - 1
    } else {
        y
    };
    let era: i64 = (if yy >= 0 {
        yy
    } else {
        yy - 399
    }) / 400;
    assert(era == yy as int / 400);
    let yoe: i64 = yy - era * 400;
    assert(0 <= yoe <= 399);
    let mp: i64 = if m > 2 {
        m as i64 - 3
    } else {
        m as i64 + 9
    };
    let doy: i64 = (153 * mp + 2) / 5 + d as i64 - 1;
    let doe: i64 = yoe * 365 + yoe / 4 - yoe / 100 + doy;
    assert(day_number(y as int, m as int, d as int) == 146097 * era + doe - 719468);
    era * 146097 + doe - 719468
}

/// Days in `y` whole years from the start of a 400-year era, counted from March.
spec fn era_days(y: int) -> int {
    365 * y + y / 4 - y / 100
}

/// The year within its era of a day within its era.
proof fn lemma_year_of_era(doe: int)
    requires
        0 <= doe <= 146096,
    ensures
        ({
            let yoe = (doe - doe / 1460 + doe / 36524 - doe / 146096) / 365;
            let doy = doe - era_days(yoe);
            &&& 0 <= yoe <= 399
            &&& 0 <= doy <= 365
            &&& doy == 365 ==> (yoe + 1) % 4 == 0 && ((yoe + 1) % 100 == 0 ==> (yoe + 1) % 400
                == 0)
        }),
{
    let c = if doe / 36524 > 3 {
        3
    } else {
        doe / 36524
    };
    let r = doe - 36524 * c;
    let q = r / 1461;
    let s = r - 1461 * q;
    let t = if s / 365 > 3 {
        3
    } else {
        s / 365
    };
    assert(0 <= c <= 3 && 0 <= r <= 36524 && 0 <= q <= 24 && 0 <= s <= 1460 && 0 <= t <= 3);
    let e: int = if 24 * c + q + s >= 1460 {
        1
    } else {
        0
    };
    let z: int = if doe == 146096 {
        1
    } else {
        0
    };
    let big: int = if doe == 146096 {
        1
    } else {
        0
    };
    assert(doe == 1460 * (25 * c + q + e) + (24 * c + q + s - 1460 * e));
    assert(doe / 1460 == 25 * c + q + e);
    assert(doe / 36524 == c + z);
    assert(doe / 146096 == big);
    let x = doe - doe / 1460 + doe / 36524 - doe / 146096;
    assert(x == 365 * (100 * c + 4 * q + t) + (s - e - 365 * t));
    assert(0 <= s - e - 365 * t < 365);
    let yoe = 100 * c + 4 * q + t;
    assert(x / 365 == yoe);
    assert(yoe / 4 == 25 * c + q);
    assert(yoe / 100 == c);
    assert(era_days(yoe) == 36524 * c + 1461 * q + 365 * t);
}

/// The month, counted from March, of a day of the year, and the day within it.
proof fn lemma_month_of_year(doy: int)
    requires
        0 <= doy <= 365,
    ensures
        ({
            let mp = (5 * doy + 2) / 153;
            let d = doy - (153 * mp + 2) / 5 + 1;
            &&& 0 <= mp <= 11
            &&& 1 <= d <= 31
            &&& (mp == 1 || mp == 3 || mp == 6 || mp == 8) ==> d <= 30
            &&& mp == 11 ==> d <= 29
            &&& mp == 11 && d == 29 ==> doy == 365
        }),
{
    let mp = (5 * doy + 2) / 153;
    assert(mp == 0 || mp == 1 || mp == 2 || mp == 3 || mp == 4 || mp == 5 || mp == 6 || mp == 7
        || mp == 8 || mp == 9 || mp == 10 || mp == 11);
}

/// A day of an era, taken apart into year, month and day, is a date.
proof fn lemma_date(era: int, yoe: int, doy: int)
    requires
        0 <= yoe <= 399,
        0 <= doy <= 365,
        doy == 365 ==> (yoe + 1) % 4 == 0 && ((yoe + 1) % 100 == 0 ==> (yoe + 1) % 400 == 0),
    ensures
        ({
            let y = yoe + era * 400;
            let mp = (5 * doy + 2) / 153;
            let d = doy - (153 * mp + 2) / 5 + 1;
            let m = if mp < 10 {
                mp + 3
            } else {
                mp - 9
            };
            let year = if m <= 2 {
                y + 1
            } else {
                y
            };
            &&& is_date(year, m, d)
            &&& day_number(year, m, d) == 146097 * era + era_days(yoe) + doy - 719468
        }),
{
    lemma_month_of_year(doy);
    let y = yoe + era * 400;
    assert(y / 400 == era);
    assert(y / 4 == 100 * era + yoe / 4);
    assert(y / 100 == 4 * era + yoe / 100);
    if doy == 365 {
        assert(is_leap(y + 1));
    }
}

/// The date of a day number: the inverse of [`days_from_civil`].
pub fn civil_from_days(z: i64) -> (r: (i64, u32, u32))
    requires
        z <= i64::MAX - 719468,
    ensures
        is_date(r.0 as int, r.1 as int, r.2 as int),
        day_number(r.0 as int, r.1 as int, r.2 as int) == z,
{
    let z2: i64 = z + 719468;
    let era: i64 = (if z2 >= 0 {
        z2
    } else {
        z2 - 146096
    }) / 146097;
    let doe: i64 = z2 - era * 146097;
    assert(0 <= doe <= 146096);
    proof {
        lemma_year_of_era(doe as int);
    }
    let yoe: i64 = (doe - doe / 1460 + doe / 36524 - doe / 146096) / 365;
    let y: i64 = yoe + era * 400;
    let doy: i64 = doe - (365 * yoe + yoe / 4 - yoe / 100);
    proof {
        lemma_month_of_year(doy as int);
    }
    let mp: i64 = (5 * doy + 2) / 153;
    let d: u32 = (doy - (153 * mp + 2) / 5 + 1) as u32;
    let m: u32 = (if mp < 10 {
        mp + 3
    } else {
        mp - 9
    }) as u32;
    let year: i64 = if m <= 2 {
        y + 1
    } else {
        y
    };
    proof {
        lemma_date(era as int, yoe as int, doy as int);
    }
    (year, m, d)
}

/// Day of the week: 0 is Sunday, 6 is Saturday.
pub fn weekday(z: i64) -> (w: u32)
    ensures
        w == (z + 4) % 7,
{
    (((z % 7) + 4 + 7) % 7) as u32
}

pub open spec fn weekend(z: int) -> bool {
    (z + 4) % 7 == 0 || (z + 4) % 7 == 6
}

pub fn is_weekend(z: i64) -> (r: bool)
    ensures
        r == weekend(z as int),
        r == (z as int % 7 == 2 || z as int % 7 == 3),
{
    let w: u32 = weekday(z);
    w == 0 || w == 6
}

/// `cal` is the first `n` days from `start` on that fall on no weekend: in
/// order, none left out.
pub open spec fn is_trading_calendar(cal: Seq<i64>, start: int, n: int) -> bool {
    &&& cal.len() == n
    &&& forall|i: int| 0 <= i < n ==> start <= #[trigger] cal[i] && !weekend(cal[i] as int)
    &&& forall|i: int, j: int| 0 <= i < j < n ==> cal[i] < cal[j]
    &&& n > 0 ==> forall|z: int|
        start <= z <= cal[n - 1] && !#[trigger] weekend(z) ==> cal.contains(z as i64)
}

/// How far into the week a day is, in the measure that bounds the weekend days
/// passed by the trading days passed.
spec fn week_slack(z: int) -> int {
    let w = (z + 4) % 7;
    if w == 0 {
        5
    } else {
        2 * (w - 1)
    }
}

/// The first `days` trading days from `start_day` on, weekends skipped.
pub fn trading_days(start_day: i64, days: u32) -> (out: Vec<i64>)
    requires
        start_day + days + (2 * days + 10) / 5 <= i64::MAX,
    ensures
        is_trading_calendar(out@, start_day as int, days as int),
        out@.len() == days,
        forall|i: int|
            0 <= i < days ==> start_day <= #[trigger] out@[i] && out@[i] as int % 7 != 2 && out@[i]
                as int % 7 != 3,
{
    let mut out: Vec<i64> = Vec::new();
    let mut z: i64 = start_day;
    while out.len() < days as usize
        invariant
            out@.len() <= days,
            start_day <= z,
            start_day + days + (2 * days + 10) / 5 <= i64::MAX,
            5 * (z - start_day - out@.len()) + week_slack(z as int) <= 2 * out@.len() + 10,
            forall|i: int|
                0 <= i < out@.len() ==> start_day <= #[trigger] out@[i] < z && !weekend(
                    out@[i] as int,
                ),
            forall|i: int, j: int| 0 <= i < j < out@.len() ==> out@[i] < out@[j],
            forall|k: int|
                start_day <= k < z && !#[trigger] weekend(k) ==> out@.contains(k as i64),
        decreases i64::MAX - z,
    {
        let ghost prev = out@;
        if !is_weekend(z) {
            out.push(z);
        }
        assert(week_slack(z + 1) <= week_slack(z as int) + (if weekend(z as int) {
            -5int
        } else {
            2int
        }));
        proof {
            assert forall|k: int| start_day <= k < z + 1 && !#[trigger] weekend(k) implies out@.contains(
                k as i64,
            ) by {
                if k < z {
                    assert(prev.contains(k as i64));
                    let i = choose|i: int| 0 <= i < prev.len() && prev[i] == k as i64;
                    assert(out@[i] == k as i64);
                } else {
                    assert(out@[out@.len() - 1] == k as i64);
                }
            }
        }
        z = z + 1;
    }
    assert forall|i: int| 0 <= i < days implies start_day <= #[trigger] out@[i] && out@[i] as int
        % 7 != 2 && out@[i] as int % 7 != 3 by {
        assert(!weekend(out@[i] as int));
    }
    out
}

/// The timestamp of `offset` microseconds into the session of day `z`.
pub open spec fn ts_of(z: int, offset: int) -> int {
    (z * DAY_S + OPEN_OFFSET_S) * 1_000_000 + offset
}

/// Microseconds since the epoch, `intraday_offset_us` into the session of day `z`.
pub fn ts_micros(z: i64, intraday_offset_us: i64) -> (t: i64)
    requires
        i64::MIN <= z * DAY_S <= i64::MAX,
        i64::MIN <= z * DAY_S + OPEN_OFFSET_S <= i64::MAX,
        i64::MIN <= (z * DAY_S + OPEN_OFFSET_S) * 1_000_000 <= i64::MAX,
        i64::MIN <= ts_of(z as int, intraday_offset_us as int) <= i64::MAX,
    ensures
        t == ts_of(z as int, intraday_offset_us as int),
        t == z * 86_400_000_000 + 13_500_000_000 + intraday_offset_us,
{
    (z * DAY_S + OPEN_OFFSET_S) * 1_000_000 + intraday_offset_us
}

// ---------------------------------------------------------------------------
// Dates as text
// ---------------------------------------------------------------------------

/// Why a text is not a date.
#[derive(Clone, Copy, Debug, PartialEq, Eq, Structural)]
pub enum DateError {
    /// Not three parts with dashes between them.
    NotThreeParts,
    /// A part that is no number, or one too large or too small.
    NotANumber(NumberError),
    /// No such month or day.
    OutOfRange,
}

impl DateError {
    /// What is wrong. Where the text itself is named, it follows the message.
    pub fn message(&self) -> (r: &'static str)
        ensures
            r@ == (match *self {
                DateError::NotThreeParts => "date must be YYYY-MM-DD, got "@,
                DateError::NotANumber(NumberError::Empty) => "cannot parse integer from empty string"@,
                DateError::NotANumber(NumberError::InvalidDigit) => "invalid digit found in string"@,
                DateError::NotANumber(NumberError::TooLarge) =>
                    "number too large to fit in target type"@,
                DateError::NotANumber(NumberError::TooSmall) =>
                    "number too small to fit in target type"@,
                DateError::OutOfRange => "bad date "@,
            }),
    {
        match *self {
            DateError::NotThreeParts => "date must be YYYY-MM-DD, got ",
            DateError::NotANumber(fault) => fault.message(),
            DateError::OutOfRange => "bad date ",
        }
    }

    /// Whether the message is followed by the text that is not a date.
    pub fn names_text(&self) -> (r: bool)
        ensures
            r == !(*self is NotANumber),
    {
        match *self {
            DateError::NotANumber(_) => false,
            _ => true,
        }
    }
}

/// The parts of a text between dashes.
pub open spec fn dash_parts(s: Seq<char>) -> Seq<Seq<char>>
    decreases s.len(),
{
    if s.len() == 0 {
        seq![Seq::empty()]
    } else {
        let parts = dash_parts(s.drop_last());
        if s.last() == '-' {
            parts.push(Seq::empty())
        } else {
            parts.drop_last().push(parts.last().push(s.last()))
        }
    }
}

/// Year, month and day of a text.
pub open spec fn read_date(s: Seq<char>) -> Result<(int, int, int), DateError> {
    let parts = dash_parts(s);
    if parts.len() != 3 {
        Err(DateError::NotThreeParts)
    } else {
        let y = within(read_int(parts[0]), i64::MIN as int, i64::MAX as int);
        let m = within(read_nat(parts[1]), 0, u32::MAX as int);
        let d = within(read_nat(parts[2]), 0, u32::MAX as int);
        if y is None {
            Err(
                DateError::NotANumber(
                    number_fault(parts[0], i64::MIN as int, i64::MAX as int),
                ),
            )
        } else if m is None {
            Err(DateError::NotANumber(number_fault(parts[1], 0, u32::MAX as int)))
        } else if d is None {
            Err(DateError::NotANumber(number_fault(parts[2], 0, u32::MAX as int)))
        } else if 1 <= m->0 <= 12 && 1 <= d->0 <= 31 {
            Ok((y->0, m->0, d->0))
        } else {
            Err(DateError::OutOfRange)
        }
    }
}

/// A text without a dash is one part.
pub proof fn lemma_one_part(s: Seq<char>)
    requires
        !s.contains('-'),
    ensures
        dash_parts(s) == seq![s],
    decreases s.len(),
{
    if s.len() > 0 {
        let head = s.drop_last();
        assert(s.contains(s[s.len() - 1]));
        assert forall|c: char| head.contains(c) implies s.contains(c) by {
            let i = choose|i: int| 0 <= i < head.len() && head[i] == c;
            assert(s[i] == c);
        }
        lemma_one_part(head);
        assert(head.push(s.last()) =~= s);
    } else {
        assert(s =~= Seq::empty());
    }
    assert(dash_parts(s) =~= seq![s]);
}

/// What follows the last dash is the last part.
pub proof fn lemma_last_part(a: Seq<char>, b: Seq<char>)
    requires
        !b.contains('-'),
    ensures
        dash_parts(a + seq!['-'] + b) == dash_parts(a).push(b),
    decreases b.len(),
{
    let s = a + seq!['-'] + b;
    if b.len() == 0 {
        assert(b =~= Seq::empty());
        assert(s.drop_last() =~= a);
    } else {
        let head = b.drop_last();
        assert(b.contains(b[b.len() - 1]));
        assert forall|c: char| head.contains(c) implies b.contains(c) by {
            let i = choose|i: int| 0 <= i < head.len() && head[i] == c;
            assert(b[i] == c);
        }
        lemma_last_part(a, head);
        assert(s.drop_last() =~= a + seq!['-'] + head);
        assert(s.last() == b.last());
        assert(head.push(b.last()) =~= b);
    }
    assert(dash_parts(s) =~= dash_parts(a).push(b));
}

/// Where the parts of a text between dashes start and end.
fn dash_bounds(cs: &Vec<char>) -> (r: Vec<(usize, usize)>)
    ensures
        r@.len() == dash_parts(cs@).len(),
        forall|k: int|
            0 <= k < r@.len() ==> (#[trigger] r@[k]).0 <= r@[k].1 <= cs@.len() && cs@.subrange(
                r@[k].0 as int,
                r@[k].1 as int,
            ) == dash_parts(cs@)[k],
{
    let mut r: Vec<(usize, usize)> = Vec::new();
    let mut from: usize = 0;
    let mut i: usize = 0;
    assert(cs@.take(0) =~= Seq::empty());
    assert(cs@.subrange(0, 0) =~= Seq::empty());
    while i < cs.len()
        invariant
            from <= i <= cs@.len(),
            r@.len() + 1 == dash_parts(cs@.take(i as int)).len(),
            forall|k: int|
                0 <= k < r@.len() ==> (#[trigger] r@[k]).0 <= r@[k].1 <= cs@.len() && cs@.subrange(
                    r@[k].0 as int,
                    r@[k].1 as int,
                ) == dash_parts(cs@.take(i as int))[k],
            cs@.subrange(from as int, i as int) == dash_parts(cs@.take(i as int)).last(),
        decreases cs@.len() - i,
    {
        assert(cs@.take(i + 1).drop_last() =~= cs@.take(i as int));
        if cs[i] == '-' {
            r.push((from, i));
            from = i + 1;
            assert(cs@.subrange(from as int, i + 1) =~= Seq::empty());
        } else {
            assert(cs@.subrange(from as int, i + 1) =~= cs@.subrange(from as int, i as int).push(
                cs@[i as int],
            ));
        }
        i = i + 1;
    }
    assert(cs@.take(cs@.len() as int) =~= cs@);
    r.push((from, i));
    r
}

/// Year, month and day of a text in the form `YYYY-MM-DD`.
pub fn date_parts(s: &str) -> (r: Result<(i64, u32, u32), DateError>)
    ensures
        match r {
            Ok((y, m, d)) => read_date(s@) == Ok::<(int, int, int), DateError>(
                (y as int, m as int, d as int),
            ),
            Err(e) => read_date(s@) == Err::<(int, int, int), DateError>(e),
        },
{
    let cs: Vec<char> = chars_of(s);
    let b: Vec<(usize, usize)> = dash_bounds(&cs);
    if b.len() != 3 {
        return Err(DateError::NotThreeParts);
    }
    let (y0, y1): (usize, usize) = b[0];
    let (m0, m1): (usize, usize) = b[1];
    let (d0, d1): (usize, usize) = b[2];
    assert(b@[0].0 == y0 && b@[1].0 == m0 && b@[2].0 == d0);
    let y: i64 = match parse_i64(&cs, y0, y1) {
        Some(y) => y,
        None => {
            let fault = find_fault(&cs, y0, y1, 0x8000_0000_0000_0000, 0x7fff_ffff_ffff_ffff);
            return Err(DateError::NotANumber(fault));
        },
    };
    let m: u32 = match parse_u32(&cs, m0, m1) {
        Some(m) => m,
        None => {
            return Err(DateError::NotANumber(find_fault(&cs, m0, m1, 0, 0xffff_ffff)));
        },
    };
    let d: u32 = match parse_u32(&cs, d0, d1) {
        Some(d) => d,
        None => {
            return Err(DateError::NotANumber(find_fault(&cs, d0, d1, 0, 0xffff_ffff)));
        },
    };
    if 1 <= m && m <= 12 && 1 <= d && d <= 31 {
        Ok((y, m, d))
    } else {
        Err(DateError::OutOfRange)
    }
}

/// The day number of a text in the form `YYYY-MM-DD`.
pub fn parse_date(s: &str) -> (r: Result<i64, DateError>)
    requires
        read_date(s@) matches Ok((y, m, d)) ==> civil_fits(y, m, d),
    ensures
        match r {
            Ok(z) => read_date(s@) matches Ok((y, m, d)) && z == day_number(y, m, d),
            Err(e) => read_date(s@) == Err::<(int, int, int), DateError>(e),
        },
{
    match date_parts(s) {
        Ok((y, m, d)) => Ok(days_from_civil(y, m, d)),
        Err(e) => Err(e),
    }
}

// ---------------------------------------------------------------------------
// Laws
// ---------------------------------------------------------------------------

/// Day 0 is 1970-01-01, a Thursday.
pub proof fn lemma_epoch()
    ensures
        day_number(1970, 1, 1) == 0,
        (day_number(1970, 1, 1) + 4) % 7 == 4,
{
}

/// The first of a month, the months counted from January of year 0.
pub open spec fn month_start(k: int) -> int {
    day_number(k / 12, k % 12 + 1, 1)
}

/// A quotient grows where the number divides.
proof fn lemma_quotient_step(y: int, d: int)
    requires
        d > 0,
    ensures
        y / d == (y - 1) / d + (if y % d == 0 {
            1int
        } else {
            0int
        }),
{
    let q = y / d;
    let r = y % d;
    assert(y == d * q + r && 0 <= r < d) by (nonlinear_arith)
        requires
            d > 0,
            q == y / d,
            r == y % d,
    ;
    assert(q * d == d * q && (q - 1) * d == d * q - d) by (nonlinear_arith);
    if r == 0 {
        vstd::arithmetic::div_mod::lemma_fundamental_div_mod_converse(y - 1, d, q - 1, d - 1);
    } else {
        vstd::arithmetic::div_mod::lemma_fundamental_div_mod_converse(y - 1, d, q, r - 1);
    }
}

/// A leap year has a day more than the year before it.
#[verifier::spinoff_prover]
proof fn lemma_leap_day(y: int)
    ensures
        y / 4 - y / 100 + y / 400 == (y - 1) / 4 - (y - 1) / 100 + (y - 1) / 400 + (if is_leap(y) {
            1int
        } else {
            0int
        }),
{
    lemma_quotient_step(y, 4);
    lemma_quotient_step(y, 100);
    lemma_quotient_step(y, 400);
    assert(y % 400 == 0 ==> y % 100 == 0);
    assert(y % 100 == 0 ==> y % 4 == 0);
}

proof fn lemma_next_month(y: int, m: int)
    requires
        1 <= m <= 12,
    ensures
        (if m == 12 {
            day_number(y + 1, 1, 1)
        } else {
            day_number(y, m + 1, 1)
        }) == day_number(y, m, 1) + month_length(y, m),
{
    if m == 2 {
        lemma_leap_day(y);
    }
    assert(m == 1 || m == 2 || m == 3 || m == 4 || m == 5 || m == 6 || m == 7 || m == 8 || m == 9
        || m == 10 || m == 11 || m == 12);
}

/// A month ends where the next one starts, and is as long as the Gregorian
/// calendar has it.
pub proof fn lemma_month_step(k: int)
    ensures
        month_start(k + 1) == month_start(k) + month_length(k / 12, k % 12 + 1),
{
    let y = k / 12;
    let m = k % 12 + 1;
    lemma_next_month(y, m);
    if m == 12 {
        assert((k + 1) / 12 == y + 1 && (k + 1) % 12 == 0);
    } else {
        assert((k + 1) / 12 == y && (k + 1) % 12 == m);
    }
}

proof fn lemma_month_order(a: int, b: int)
    requires
        a < b,
    ensures
        month_start(a) + month_length(a / 12, a % 12 + 1) <= month_start(b),
    decreases b - a,
{
    lemma_month_step(b - 1);
    if a < b - 1 {
        lemma_month_order(a, b - 1);
    }
}

/// Later months start later.
pub proof fn lemma_month_starts_ascend(a: int, b: int)
    requires
        a <= b,
    ensures
        month_start(a) <= month_start(b),
{
    if a < b {
        lemma_month_order(a, b);
    }
}

/// Every day number belongs to a date.
pub proof fn lemma_day_has_date(z: int) -> (r: (int, int, int))
    ensures
        is_date(r.0, r.1, r.2),
        day_number(r.0, r.1, r.2) == z,
{
    let z2 = z + 719468;
    let era = z2 / 146097;
    let doe = z2 - 146097 * era;
    lemma_year_of_era(doe);
    let yoe = (doe - doe / 1460 + doe / 36524 - doe / 146096) / 365;
    let doy = doe - era_days(yoe);
    lemma_date(era, yoe, doy);
    let mp = (5 * doy + 2) / 153;
    let d = doy - (153 * mp + 2) / 5 + 1;
    let m = if mp < 10 {
        mp + 3
    } else {
        mp - 9
    };
    let y = yoe + era * 400;
    (if m <= 2 {
        y + 1
    } else {
        y
    }, m, d)
}

/// Each day number belongs to one date: going from a date to its number and
/// back gives the date.
pub proof fn lemma_date_unique(y1: int, m1: int, d1: int, y2: int, m2: int, d2: int)
    requires
        is_date(y1, m1, d1),
        is_date(y2, m2, d2),
        day_number(y1, m1, d1) == day_number(y2, m2, d2),
    ensures
        y1 == y2 && m1 == m2 && d1 == d2,
{
    let a = 12 * y1 + m1 - 1;
    let b = 12 * y2 + m2 - 1;
    assert(a / 12 == y1 && a % 12 == m1 - 1);
    assert(b / 12 == y2 && b % 12 == m2 - 1);
    assert(day_number(y1, m1, d1) == month_start(a) + d1 - 1);
    assert(day_number(y2, m2, d2) == month_start(b) + d2 - 1);
    if a < b {
        lemma_month_order(a, b);
    } else if b < a {
        lemma_month_order(b, a);
    }
}

/// There is one trading calendar from a day on, of a given length.
pub proof fn lemma_calendar_unique(a: Seq<i64>, b: Seq<i64>, start: int, n: int)
    requires
        is_trading_calendar(a, start, n),
        is_trading_calendar(b, start, n),
        i64::MIN <= start,
    ensures
        a == b,
{
    assert forall|i: int| 0 <= i < n implies a[i] == b[i] by {
        lemma_calendar_agree(a, b, start, n, i);
    }
    assert(a =~= b);
}

proof fn lemma_calendar_agree(a: Seq<i64>, b: Seq<i64>, start: int, n: int, i: int)
    requires
        is_trading_calendar(a, start, n),
        is_trading_calendar(b, start, n),
        0 <= i < n,
    ensures
        a[i] == b[i],
    decreases i,
{
    if a[i] != b[i] {
        let (x, y) = if a[i] < b[i] {
            (a, b)
        } else {
            (b, a)
        };
        // `y` has the day at some place before, where the two agree, so `x` has it twice.
        let z = x[i] as int;
        assert(y[i] <= y[n - 1]);
        assert(!weekend(z));
        assert(y.contains(z as i64));
        let j = choose|j: int| 0 <= j < y.len() && y[j] == z as i64;
        if j >= i {
            assert(y[i] <= y[j]);
        }
        lemma_calendar_agree(a, b, start, n, j);
        assert(x[j] < x[i]);
    }
}

/// A trading calendar does not run past twice its length.
pub proof fn lemma_calendar_bound(cal: Seq<i64>, start: int, n: int)
    requires
        is_trading_calendar(cal, start, n),
        i64::MIN <= start,
    ensures
        forall|i: int| 0 <= i < n ==> #[trigger] cal[i] <= start + 2 * i + 2,
{
    assert forall|i: int| 0 <= i < n implies #[trigger] cal[i] <= start + 2 * i + 2 by {
        lemma_calendar_at(cal, start, n, i);
    }
}

/// Between one trading day and the next there are at most the two days of a
/// weekend.
#[verifier::spinoff_prover]
proof fn lemma_calendar_at(cal: Seq<i64>, start: int, n: int, i: int)
    requires
        is_trading_calendar(cal, start, n),
        i64::MIN <= start,
        0 <= i < n,
    ensures
        5 * (cal[i] - start - i) + week_slack(cal[i] as int) <= 2 * i + 10,
    decreases i,
{
    let from = if i == 0 {
        start
    } else {
        cal[i - 1] + 1
    };
    if i > 0 {
        lemma_calendar_at(cal, start, n, i - 1);
        assert(cal[i - 1] < cal[i]);
        assert(!weekend(cal[i - 1] as int));
    }
    assert(cal[i] <= cal[n - 1]);
    lemma_no_gap(cal, start, n, i, from);
    lemma_no_gap(cal, start, n, i, from + 1);
    lemma_no_gap(cal, start, n, i, from + 2);
    assert(!weekend(from) || !weekend(from + 1) || !weekend(from + 2));
}

/// A trading day before entry `i` and not before the one before it is no entry
/// at all, so there is none.
proof fn lemma_no_gap(cal: Seq<i64>, start: int, n: int, i: int, z: int)
    requires
        is_trading_calendar(cal, start, n),
        i64::MIN <= start,
        0 <= i < n,
        start <= z,
        i > 0 ==> cal[i - 1] < z,
    ensures
        z < cal[i] ==> weekend(z),
{
    if z < cal[i] && !weekend(z) {
        assert(cal[i] <= cal[n - 1]);
        assert(cal.contains(z as i64));
        let j = choose|j: int| 0 <= j < cal.len() && cal[j] == z as i64;
        if j < i {
            if j < i - 1 {
                assert(cal[j] < cal[i - 1]);
            }
        } else if j > i {
            assert(cal[i] < cal[j]);
        }
    }
}

/// Any moment of a session falls on the session's own day.
pub proof fn lemma_session_within_day(z: int, offset: int)
    requires
        0 <= offset < SESSION_US,
    ensures
        ts_of(z, offset) / (MICROS_PER_DAY as int) == z,
        z >= 0 ==> day_of(ts_of(z, offset)) == z,
{
    let t = ts_of(z, offset);
    assert(t == z * MICROS_PER_DAY + (OPEN_OFFSET_S * 1_000_000 + offset));
    assert(0 <= OPEN_OFFSET_S * 1_000_000 + offset < MICROS_PER_DAY);
}

/// The months of the Gregorian calendar: thirty days for April, June, September and
/// November, twenty-eight for February and twenty-nine in a leap year, which is
/// every fourth but for the centuries that four hundred does not divide, and
/// thirty-one for the others.
pub proof fn lemma_months_of_the_year(y: int)
    ensures
        day_number(y, 2, 1) - day_number(y, 1, 1) == 31,
        day_number(y, 3, 1) - day_number(y, 2, 1) == (if y % 4 == 0 && (y % 100 != 0 || y % 400
            == 0) {
            29int
        } else {
            28
        }),
        day_number(y, 4, 1) - day_number(y, 3, 1) == 31,
        day_number(y, 5, 1) - day_number(y, 4, 1) == 30,
        day_number(y, 6, 1) - day_number(y, 5, 1) == 31,
        day_number(y, 7, 1) - day_number(y, 6, 1) == 30,
        day_number(y, 8, 1) - day_number(y, 7, 1) == 31,
        day_number(y, 9, 1) - day_number(y, 8, 1) == 31,
        day_number(y, 10, 1) - day_number(y, 9, 1) == 30,
        day_number(y, 11, 1) - day_number(y, 10, 1) == 31,
        day_number(y, 12, 1) - day_number(y, 11, 1) == 30,
        day_number(y + 1, 1, 1) - day_number(y, 12, 1) == 31,
{
    lemma_next_month(y, 2);
}

/// Within a month days follow each other, and a date is one that its month reaches.
pub proof fn lemma_days_of_the_month(y: int, m: int, d: int)
    ensures
        day_number(y, m, d) == day_number(y, m, 1) + d - 1,
        1 <= m < 12 ==> (is_date(y, m, d) <==> 1 <= d && day_number(y, m, d) < day_number(
            y,
            m + 1,
            1,
        )),
        is_date(y, 12, d) <==> 1 <= d <= 31,
        is_date(y, m, d) ==> 1 <= m <= 12,
{
    lemma_months_of_the_year(y);
    assert(m == 1 || m == 2 || m == 3 || m == 4 || m == 5 || m == 6 || m == 7 || m == 8 || m == 9
        || m == 10 || m == 11 || m < 1 || m > 11);
}

/// The weekend is Saturday and Sunday, the second and third days after a Thursday,
/// and day 0 was one.
pub proof fn lemma_weekend_by_day(z: int)
    ensures
        weekend(z) <==> z % 7 == 2 || z % 7 == 3,
        weekend(z + 7) <==> weekend(z),
{
}

/// A trading calendar starts no earlier than asked, holds no Saturday and no Sunday,
/// and skips no other day.
pub proof fn lemma_calendar_skips_weekends(cal: Seq<i64>, start: int, n: int, i: int, z: int)
    requires
        is_trading_calendar(cal, start, n),
        i64::MIN <= start,
        0 <= i < n,
    ensures
        cal.len() == n,
        cal[i] >= start,
        cal[i] as int % 7 != 2 && cal[i] as int % 7 != 3,
        i > 0 ==> cal[i - 1] < cal[i],
        (if i > 0 {
            cal[i - 1] + 1
        } else {
            start
        }) <= z < cal[i] ==> z % 7 == 2 || z % 7 == 3,
{
    lemma_weekend_by_day(cal[i] as int);
    lemma_weekend_by_day(z);
    assert(!weekend(cal[i] as int));
    let from = if i > 0 {
        cal[i - 1] + 1
    } else {
        start
    };
    if i > 0 {
        assert(start <= cal[i - 1]);
    }
    if from <= z {
        lemma_no_gap(cal, start, n, i, z);
    }
}

/// A moment of a session is as many microseconds after the epoch as its day's
/// midnight, the three hours and three quarters to the opening, and its offset.
pub proof fn lemma_timestamp_of_session(z: int, offset: int)
    ensures
        ts_of(z, offset) == z * 86_400_000_000 + 13_500_000_000 + offset,
{
    assert((z * DAY_S + OPEN_OFFSET_S) * 1_000_000 == z * 86_400_000_000 + 13_500_000_000);
}

/// Ordinary dates have day numbers that 64 bits hold.
pub proof fn lemma_ordinary_dates_fit(y: int, m: int, d: int)
    requires
        -1_000_000_000 <= y <= 1_000_000_000,
        1 <= m <= 12,
        1 <= d <= 31,
    ensures
        civil_fits(y, m, d),
{
}

/// A text has one part more than it has dashes.
pub proof fn lemma_part_count(s: Seq<char>)
    ensures
        dash_parts(s).len() == s.filter(|c: char| c == '-').len() + 1,
    decreases s.len(),
{
    reveal(Seq::filter);
    if s.len() > 0 {
        lemma_part_count(s.drop_last());
    }
}

/// What is wrong with a date is told of the first part of it that is wrong: the year,
/// then the month, then the day, each as a number of its own, and last whether there
/// are a month and a day of these numbers.
pub proof fn lemma_date_by_parts(a: Seq<char>, b: Seq<char>, c: Seq<char>)
    requires
        !a.contains('-'),
        !b.contains('-'),
        !c.contains('-'),
    ensures
        ({
            let r = read_date(a + seq!['-'] + b + seq!['-'] + c);
            let y_ok = read_int(a) is Some && i64::MIN <= read_int(a)->0 <= i64::MAX;
            let m_ok = read_nat(b) is Some && 0 <= read_nat(b)->0 <= u32::MAX;
            let d_ok = read_nat(c) is Some && 0 <= read_nat(c)->0 <= u32::MAX;
            let m = read_nat(b)->0;
            let d = read_nat(c)->0;
            &&& !y_ok ==> r == Err::<(int, int, int), DateError>(
                DateError::NotANumber(number_fault(a, i64::MIN as int, i64::MAX as int)),
            )
            &&& y_ok && !m_ok ==> r == Err::<(int, int, int), DateError>(
                DateError::NotANumber(number_fault(b, 0, u32::MAX as int)),
            )
            &&& y_ok && m_ok && !d_ok ==> r == Err::<(int, int, int), DateError>(
                DateError::NotANumber(number_fault(c, 0, u32::MAX as int)),
            )
            &&& y_ok && m_ok && d_ok && 1 <= m <= 12 && 1 <= d <= 31 ==> r == Ok::<
                (int, int, int),
                DateError,
            >((read_int(a)->0, m, d))
            &&& y_ok && m_ok && d_ok && !(1 <= m <= 12 && 1 <= d <= 31) ==> r == Err::<
                (int, int, int),
                DateError,
            >(DateError::OutOfRange)
        }),
{
    let s = a + seq!['-'] + b + seq!['-'] + c;
    assert(s =~= (a + seq!['-'] + b) + seq!['-'] + c);
    lemma_one_part(a);
    lemma_last_part(a, b);
    lemma_last_part(a + seq!['-'] + b, c);
    assert(dash_parts(s) =~= seq![a, b, c]);
}

/// A text with fewer dashes than two, or more, is refused before anything else.
pub proof fn lemma_date_has_two_dashes(s: Seq<char>)
    ensures
        read_date(s) == Err::<(int, int, int), DateError>(DateError::NotThreeParts) <==> s.filter(
            |c: char| c == '-',
        ).len() != 2,
{
    lemma_part_count(s);
}

} // verus!
