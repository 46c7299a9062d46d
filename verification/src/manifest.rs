//! The manifest of a generated tradebook.

use vstd::prelude::*;
use crate::calendar::{
    civil_from_days, dash_parts, day_number, is_date, is_trading_calendar, month_start, read_date,
    DateError,
};
use crate::config::GenConfig;
use crate::skew::SkewPlan;
use crate::text::{padded, push_padded};

verus! {

/// What a tradebook was made from, and what came of it.
#[derive(Debug)]
pub struct Manifest {
    pub config: GenConfig,
    pub target_total: u64,
    pub realized_total: u64,
    pub n_whales: u64,
    pub start_date: String,
    pub end_date_inclusive: String,
}

/// A date as text.
pub open spec fn date_text(y: int, m: int, d: int) -> Seq<char> {
    padded(y, 4) + seq!['-'] + padded(m, 2) + seq!['-'] + padded(d, 2)
}

/// `s` is the date of day `z` as text.
pub open spec fn is_date_text(s: Seq<char>, z: int) -> bool {
    exists|y: int, m: int, d: int|
        is_date(y, m, d) && day_number(y, m, d) == z && s == #[trigger] date_text(y, m, d)
}

/// A day as text, such as "2020-01-31".
pub fn day_label(z: i64) -> (r: String)
    requires
        z <= i64::MAX - 719468,
    ensures
        is_date_text(r@, z as int),
{
    let (y, m, d): (i64, u32, u32) = civil_from_days(z);
    let mut s = String::new();
    push_padded(&mut s, y, 4);
    s.push('-');
    push_padded(&mut s, m as i64, 2);
    s.push('-');
    push_padded(&mut s, d as i64, 2);
    assert(s@ =~= date_text(y as int, m as int, d as int));
    s
}

/// The first day of the calendar, or the day it would have started on.
pub open spec fn first_of(cal: Seq<i64>, start: int) -> int {
    if cal.len() > 0 {
        cal[0] as int
    } else {
        start
    }
}

/// The last day of the calendar, or the day it would have started on.
pub open spec fn last_of(cal: Seq<i64>, start: int) -> int {
    if cal.len() > 0 {
        cal[cal.len() - 1] as int
    } else {
        start
    }
}

impl Manifest {
    pub fn new(cfg: &GenConfig, plan: &SkewPlan, realized_total: u64) -> (r: Self)
        requires
            cfg.start_day + 2 * cfg.days + 2 <= i64::MAX - 719468,
        ensures
            r.config == *cfg,
            r.target_total == plan.target_total,
            r.realized_total == realized_total,
            r.n_whales == plan.n_whales,
            exists|cal: Seq<i64>| #[trigger]
                is_trading_calendar(cal, cfg.start_day as int, cfg.days as int) && {
                    &&& is_date_text(r.start_date@, first_of(cal, cfg.start_day as int))
                    &&& is_date_text(r.end_date_inclusive@, last_of(cal, cfg.start_day as int))
                    &&& cfg.days > 0 ==> is_date_text(r.start_date@, cal[0] as int)
                        && is_date_text(r.end_date_inclusive@, cal[cfg.days - 1] as int)
                    &&& cfg.days == 0 ==> is_date_text(r.start_date@, cfg.start_day as int)
                        && is_date_text(r.end_date_inclusive@, cfg.start_day as int)
                },
    {
        let cal: Vec<i64> = cfg.trading_days();
        let n: usize = cal.len();
        proof {
            crate::calendar::lemma_calendar_bound(cal@, cfg.start_day as int, cfg.days as int);
        }
        let first: i64 = if n > 0 {
            cal[0]
        } else {
            cfg.start_day
        };
        let last: i64 = if n > 0 {
            cal[n - 1]
        } else {
            cfg.start_day
        };
        Manifest {
            config: *cfg,
            target_total: plan.target_total,
            realized_total,
            n_whales: plan.n_whales,
            start_date: day_label(first),
            end_date_inclusive: day_label(last),
        }
    }
}

/// A date as text reads as that date: the year in four digits or more, the month and
/// the day in two. Where there is no such month, or no day of that number in any
/// month, it is refused.
pub proof fn lemma_label_reads_back(y: int, m: int, d: int)
    requires
        0 <= y <= i64::MAX,
        0 <= m <= u32::MAX,
        0 <= d <= u32::MAX,
    ensures
        1 <= m <= 12 && 1 <= d <= 31 ==> read_date(date_text(y, m, d)) == Ok::<
            (int, int, int),
            DateError,
        >((y, m, d)),
        !(1 <= m <= 12 && 1 <= d <= 31) ==> read_date(date_text(y, m, d)) == Err::<
            (int, int, int),
            DateError,
        >(DateError::OutOfRange),
{
    let a = padded(y, 4);
    let b = padded(m, 2);
    let c = padded(d, 2);
    let text = date_text(y, m, d);
    crate::text::lemma_read_padded(y, 4);
    crate::text::lemma_read_padded(m, 2);
    crate::text::lemma_read_padded(d, 2);
    assert(!a.contains('-'));
    assert(!b.contains('-'));
    assert(!c.contains('-'));
    assert(text =~= (a + seq!['-'] + b) + seq!['-'] + c);
    crate::calendar::lemma_one_part(a);
    crate::calendar::lemma_last_part(a, b);
    crate::calendar::lemma_last_part(a + seq!['-'] + b, c);
    assert(dash_parts(text) =~= seq![a, b, c]);
}

/// The label of a day, from year 0 on, tells the day: reading it gives the date of
/// that day number.
pub proof fn lemma_label_tells_day(s: Seq<char>, z: int)
    requires
        is_date_text(s, z),
        day_number(0, 1, 1) <= z <= i64::MAX,
    ensures
        read_date(s) matches Ok((y, m, d)) && day_number(y, m, d) == z && is_date(y, m, d),
{
    let (y, m, d) = choose|y: int, m: int, d: int|
        is_date(y, m, d) && day_number(y, m, d) == z && s == #[trigger] date_text(y, m, d);
    crate::calendar::lemma_months_of_the_year(y);
    crate::calendar::lemma_months_of_the_year(y - 1);
    if y < 0 {
        lemma_years_ascend(y, 0);
    }
    lemma_year_bound(y);
    lemma_label_reads_back(y, m, d);
}

proof fn lemma_years_ascend(a: int, b: int)
    requires
        a < b,
    ensures
        forall|m: int, d: int| is_date(a, m, d) ==> #[trigger] day_number(a, m, d) < day_number(b, 1, 1),
{
    assert forall|m: int, d: int| is_date(a, m, d) implies #[trigger] day_number(a, m, d)
        < day_number(b, 1, 1) by {
        let k = 12 * a + m - 1;
        let j = 12 * b;
        assert(k / 12 == a && k % 12 == m - 1);
        assert(j / 12 == b && j % 12 == 0);
        assert(day_number(a, m, d) == month_start(k) + d - 1);
        assert(day_number(b, 1, 1) == month_start(j));
        crate::calendar::lemma_month_step(k);
        crate::calendar::lemma_month_starts_ascend(k + 1, j);
    }
}

/// A year is no greater than the number of any of its days, from some years on.
proof fn lemma_year_bound(y: int)
    ensures
        y >= 3000 ==> forall|m: int, d: int|
            is_date(y, m, d) ==> #[trigger] day_number(y, m, d) >= y,
{
}

} // verus!
