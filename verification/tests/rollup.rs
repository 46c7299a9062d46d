//! The rollup by month.

use fifo_gpu::calendar::{days_from_civil, parse_date};
use fifo_gpu::fifo::{fold_partition, fold_table, NoopSink};
use fifo_gpu::guard::try_rollup;
use fifo_gpu::packed::{PackedBuilder, PackedTable, PackedTrade};
use fifo_gpu::rollup::{period_label, period_of, PeriodBuckets, Rollup};

fn rec(sq: i32, px: i32, day: i32) -> PackedTrade {
    PackedTrade { signed_qty: sq, price_ticks: px, day }
}

#[test]
fn rollup_buckets_by_sell_period() {
    let d_jan = days_from_civil(2024, 1, 10) as i32;
    let d_feb = days_from_civil(2024, 2, 10) as i32;
    let recs = [
        rec(100, 1000, d_jan),
        rec(-100, 1200, d_jan), // intraday, jan
        rec(50, 1000, d_jan),
        rec(-50, 1500, d_feb), // short, sold in feb
    ];
    let mut roll = Rollup::new();
    fold_partition(1, 1, &recs, &mut roll);
    let jan = period_of(d_jan);
    let feb = period_of(d_feb);
    assert_eq!(roll.by_period[&jan].intraday.realized_ticks, 100 * 200);
    assert_eq!(roll.by_period[&feb].short.realized_ticks, 50 * 500);
    // aggregate over both months
    let agg = roll.aggregate(jan, feb);
    assert_eq!(agg.intraday.realized_ticks, 100 * 200);
    assert_eq!(agg.short.realized_ticks, 50 * 500);
}

#[test]
fn months_are_numbered_and_labelled() {
    let p = period_of(days_from_civil(2024, 3, 31) as i32);
    assert_eq!(p, 2024 * 12 + 2);
    assert_eq!(period_label(p), "2024-03");
    assert_eq!(period_of(days_from_civil(2024, 4, 1) as i32), p + 1);
    assert_eq!(period_of(0), 1970 * 12);
    assert_eq!(period_of(-1), 1970 * 12 - 1);
    assert_eq!(period_label(0), "0000-01");
    assert_eq!(period_label(-1), "-001-12");
    assert_eq!(period_label(12 * 12345 + 11), "12345-12");
}

#[test]
fn months_outside_the_span_are_left_out() {
    let mut roll = Rollup::default();
    let d = |y, m| days_from_civil(y, m, 5) as i32;
    let recs = [
        rec(30, 100, d(2023, 1)),
        rec(-10, 110, d(2023, 2)),
        rec(-10, 120, d(2023, 3)),
        rec(-10, 130, d(2024, 6)),
    ];
    fold_partition(4, 4, &recs, &mut roll);
    let p = |y, m| period_of(d(y, m));
    assert_eq!(roll.by_period.len(), 3);
    assert_eq!(roll.aggregate(p(2023, 2), p(2023, 2)).short.realized_ticks, 100);
    assert_eq!(roll.aggregate(p(2023, 1), p(2023, 12)).short.realized_ticks, 300);
    assert_eq!(roll.aggregate(p(2023, 4), p(2024, 5)), PeriodBuckets::default());
    let all = roll.aggregate(p(2023, 1), p(2024, 12));
    assert_eq!(all.short.realized_ticks, 300);
    assert_eq!(all.long.realized_ticks, 300);
    assert_eq!(all.long.fragments, 1);
}

#[test]
fn all_months_add_up_to_the_fold() {
    let mut b = PackedBuilder::new();
    b.push_partition(1, 1, &[rec(100, 1000, 10), rec(-60, 1500, 10), rec(-40, 900, 80)]);
    b.push_partition(2, 1, &[rec(5, 50, 3), rec(-5, 70, 900)]);
    let mut bytes = Vec::new();
    b.write(&mut bytes);
    let t = PackedTable::from_bytes(bytes).unwrap();
    let (roll, total) = try_rollup(&t).unwrap();
    assert_eq!(total, fold_table(&t, &mut NoopSink));
    let all = roll.aggregate(0, 3000 * 12);
    assert_eq!(all.intraday, *total.intraday());
    assert_eq!(all.short, *total.short());
    assert_eq!(all.long, *total.long());
    let mut twice = all;
    twice.merge(&all);
    assert_eq!(twice.long.realized_ticks, 200);
}

#[test]
fn a_label_is_the_date_of_its_first_day() {
    assert_eq!(period_label(24288), "2024-01");
    assert_eq!(period_label(24287), "2023-12");
    for (y, m) in [(0, 1), (7, 9), (1970, 1), (2024, 2), (9999, 12), (12345, 10)] {
        let first = days_from_civil(y, m, 1);
        let label = period_label(period_of(first as i32 + 20));
        assert_eq!(parse_date(&(label + "-01")), Ok(first));
    }
    // a year before 0 has a sign, and is no date
    assert!(parse_date(&(period_label(-1) + "-01")).is_err());
}

#[test]
fn aggregates_over_months_that_follow_each_other_add_up() {
    let day = |m| days_from_civil(2024, m, 15) as i32;
    let recs = [rec(9, 100, day(1)), rec(-2, 130, day(2)), rec(-3, 90, day(4)), rec(-4, 150, day(9))];
    let mut roll = Rollup::new();
    fold_partition(1, 1, &recs, &mut roll);
    let (lo, hi) = (period_of(day(1)), period_of(day(12)));
    let whole = roll.aggregate(lo, hi);
    for mid in lo - 1..=hi {
        let (a, b) = (roll.aggregate(lo, mid), roll.aggregate(mid + 1, hi));
        assert_eq!(a.short.realized_ticks + b.short.realized_ticks, whole.short.realized_ticks);
        assert_eq!(a.short.matched_qty + b.short.matched_qty, whole.short.matched_qty);
        assert_eq!(a.short.fragments + b.short.fragments, whole.short.fragments);
    }
    assert_eq!(whole.short.realized_ticks, 60 - 30 + 200);
}
