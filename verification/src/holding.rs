//! Laws of holding periods, of their labels, and of what a fold adds up to.

use vstd::prelude::*;
use crate::fifo::{
    bounds_ascend, default_desk, partition_frags, realized_upto, summed, BucketRules, Fragment,
    LONG_TERM_DAYS,
};
use crate::matching::{band_of, bucket_of, counted, fold, joined, tallies, tally, Tally};
use crate::packed::PackedTrade;
use crate::policies::lemma_fold_owner;
use crate::shares::{bought, buy_side, lot_shares, never_short, sell_side, sold};
use crate::text::int_text;

verus! {

// ---------------------------------------------------------------------------
// Buckets
// ---------------------------------------------------------------------------

/// Under the equity rules of `d` days, whatever `d` is, a holding is intraday if it
/// is sold on the day it was bought, short-term up to `d` days, and long-term past
/// them.
pub proof fn lemma_equity_buckets(d: i32, buy_day: int, sell_day: int)
    ensures
        sell_day == buy_day ==> bucket_of(BucketRules::equity_rules(d), buy_day, sell_day) == 0,
        sell_day != buy_day && sell_day - buy_day <= d ==> bucket_of(
            BucketRules::equity_rules(d),
            buy_day,
            sell_day,
        ) == 1,
        sell_day != buy_day && sell_day - buy_day > d ==> bucket_of(
            BucketRules::equity_rules(d),
            buy_day,
            sell_day,
        ) == 2,
        BucketRules::equity_rules(d).buckets() == 3,
{
    reveal_with_fuel(band_of, 2);
}

/// A longer threshold never makes a holding long-term, and two thresholds differ on
/// the holdings that last longer than the one and not longer than the other, and on
/// no others.
pub proof fn lemma_thresholds_differ(c: i32, d: i32, buy_day: int, sell_day: int)
    requires
        0 <= c <= d,
    ensures
        bucket_of(BucketRules::equity_rules(c), buy_day, sell_day) != bucket_of(
            BucketRules::equity_rules(d),
            buy_day,
            sell_day,
        ) <==> c < sell_day - buy_day <= d,
{
    lemma_equity_buckets(c, buy_day, sell_day);
    lemma_equity_buckets(d, buy_day, sell_day);
}

/// Under the default rules a holding is long-term past a year of 365 days.
pub proof fn lemma_default_is_a_year(buy_day: int, sell_day: int)
    ensures
        bucket_of(BucketRules::equity_rules(LONG_TERM_DAYS), buy_day, sell_day) == (if sell_day
            == buy_day {
            0int
        } else if sell_day - buy_day <= 365 {
            1
        } else {
            2
        }),
{
    lemma_equity_buckets(LONG_TERM_DAYS, buy_day, sell_day);
}

proof fn lemma_band_is_first(bounds: Seq<i32>, n: int, i: int, span: int)
    requires
        0 <= i <= n,
        forall|j: int| 0 <= j < i ==> #[trigger] bounds[j] < span,
    ensures
        ({
            let k = band_of(bounds, n, i, span);
            &&& i <= k <= n
            &&& forall|j: int| 0 <= j < k ==> #[trigger] bounds[j] < span
            &&& k < n ==> span <= bounds[k]
        }),
    decreases n - i,
{
    if i < n && span > bounds[i] {
        lemma_band_is_first(bounds, n, i + 1, span);
    }
}

/// A holding falls into the band of the first bound that it does not exceed, past
/// the last where it exceeds them all; the intraday bucket, where there is one,
/// stands before the bands and takes the same-day round trips and nothing else.
pub proof fn lemma_bucket_by_bounds(rules: BucketRules, buy_day: int, sell_day: int, i: int)
    requires
        rules.n_bounds <= 8,
        0 <= i <= rules.n_bounds,
    ensures
        rules.intraday_same_day ==> (bucket_of(rules, buy_day, sell_day) == 0 <==> sell_day
            == buy_day),
        !(rules.intraday_same_day && sell_day == buy_day) ==> (bucket_of(rules, buy_day, sell_day)
            == (if rules.intraday_same_day {
            i + 1
        } else {
            i
        }) <==> ((forall|j: int|
            0 <= j < i ==> #[trigger] rules.boundaries@[j] < sell_day - buy_day) && (i
            < rules.n_bounds ==> sell_day - buy_day <= rules.boundaries@[i]))),
{
    let span = sell_day - buy_day;
    let n = rules.n_bounds as int;
    lemma_band_is_first(rules.boundaries@, n, 0, span);
    let k = band_of(rules.boundaries@, n, 0, span);
    if i < k {
        assert(rules.boundaries@[i] < span);
    }
    if k < i && (forall|j: int| 0 <= j < i ==> #[trigger] rules.boundaries@[j] < span) {
        assert(rules.boundaries@[k] < span);
    }
}

/// A label tells which holdings its bucket takes: "intraday" the same-day round
/// trips, two numbers the holdings from the one to the other, and a number behind
/// ">" the holdings that last longer.
pub proof fn lemma_label_tells_holdings(rules: BucketRules, buy_day: int, sell_day: int, i: int)
    requires
        rules.wf(),
        rules.n_bounds > 0,
        bounds_ascend(rules),
        buy_day <= sell_day,
        rules.intraday_same_day ==> rules.boundaries@[0] >= 0,
        0 <= i < rules.buckets(),
    ensures
        ({
            let here = bucket_of(rules, buy_day, sell_day) == i;
            let span = sell_day - buy_day;
            let text = rules.label_text(i);
            ||| text == "intraday"@ && (here <==> span == 0)
            ||| exists|a: int, b: int|
                text == #[trigger] int_text(a) + seq!['-'] + #[trigger] int_text(b) + seq!['d'] && (
                here <==> a <= span <= b)
            ||| exists|a: int|
                text == seq!['>'] + #[trigger] int_text(a) + seq!['d'] && (here <==> span > a)
        }),
{
    crate::fifo::lemma_label_agrees(rules, buy_day, sell_day, i);
    let k = rules.band(i);
    let here = bucket_of(rules, buy_day, sell_day) == i;
    let span = sell_day - buy_day;
    let text = rules.label_text(i);
    if k >= 0 {
        if k < rules.n_bounds {
            let a = rules.band_start(k);
            let b = rules.boundaries@[k] as int;
            assert(text == int_text(a) + seq!['-'] + int_text(b) + seq!['d']);
            assert(here <==> a <= span <= b);
        } else {
            let a = rules.boundaries@[rules.n_bounds - 1] as int;
            assert(text == seq!['>'] + int_text(a) + seq!['d']);
            assert(here <==> span > a);
        }
    }
}

// ---------------------------------------------------------------------------
// Sums
// ---------------------------------------------------------------------------

/// Nothing adds up to nothing, and one more fragment adds to its own bucket the
/// shares that it matches, what they were sold for less what they cost, and one to
/// the count, and changes no other bucket.
pub proof fn lemma_fragment_adds_up(fs: Seq<Fragment>, f: Fragment, b: int)
    ensures
        tally(Seq::empty(), b).realized == 0,
        tally(Seq::empty(), b).qty == 0,
        tally(Seq::empty(), b).count == 0,
        f.bucket == b ==> {
            &&& tally(fs.push(f), b).realized == tally(fs, b).realized + f.matched_qty
                * f.sell_ticks - f.matched_qty * f.buy_ticks
            &&& tally(fs.push(f), b).qty == tally(fs, b).qty + f.matched_qty
            &&& tally(fs.push(f), b).count == tally(fs, b).count + 1
        },
        f.bucket != b ==> tally(fs.push(f), b) == tally(fs, b),
{
    assert(fs.push(f).drop_last() =~= fs);
    assert(f.matched_qty * (f.sell_ticks - f.buy_ticks) == f.matched_qty * f.sell_ticks
        - f.matched_qty * f.buy_ticks) by (nonlinear_arith);
}

/// A bucket counts as many fragments as fall into it.
pub proof fn lemma_count_is_number(fs: Seq<Fragment>, b: int)
    ensures
        tally(fs, b).count == fs.filter(|f: Fragment| f.bucket == b).len(),
    decreases fs.len(),
{
    reveal(Seq::filter);
    if fs.len() > 0 {
        lemma_count_is_number(fs.drop_last(), b);
    }
}

/// The sums of several folds are the sums of each, added up bucket by bucket.
pub proof fn lemma_folds_add_up(fss: Seq<Seq<Fragment>>, fs: Seq<Fragment>, b: int)
    ensures
        joined(Seq::empty()).len() == 0,
        joined(fss.push(fs)) == joined(fss) + fs,
        tally(joined(fss.push(fs)), b).realized == tally(joined(fss), b).realized + tally(
            fs,
            b,
        ).realized,
        tally(joined(fss.push(fs)), b).qty == tally(joined(fss), b).qty + tally(fs, b).qty,
        tally(joined(fss.push(fs)), b).count == tally(joined(fss), b).count + tally(fs, b).count,
{
    assert(fss.push(fs).drop_last() =~= fss);
    crate::matching::lemma_tally_append(joined(fss), fs, b);
}

/// The sums of all buckets are there, in their order.
pub proof fn lemma_tallies_hold_buckets(fs: Seq<Fragment>)
    ensures
        tallies(fs).len() == 8,
        forall|b: int| 0 <= b < 8 ==> #[trigger] tallies(fs)[b] == tally(fs, b),
{
}

/// Counting a range leaves out the fragments sold outside it and no others, keeps
/// their order, and counting no range leaves out none.
pub proof fn lemma_window_by_sell_day(fs: Seq<Fragment>, f: Fragment, lo: i32, hi: i32)
    ensures
        counted(Seq::empty(), Some((lo, hi))).len() == 0,
        counted(fs.push(f), Some((lo, hi))) == (if lo <= f.sell_day <= hi {
            counted(fs, Some((lo, hi))).push(f)
        } else {
            counted(fs, Some((lo, hi)))
        }),
        counted(fs, None) == fs,
{
    reveal(Seq::filter);
    assert(fs.push(f).drop_last() =~= fs);
    lemma_all_counted(fs);
}

/// Counting the whole history leaves out nothing.
pub proof fn lemma_all_counted(fs: Seq<Fragment>)
    ensures
        counted(fs, None) == fs,
    decreases fs.len(),
{
    reveal(Seq::filter);
    if fs.len() > 0 {
        lemma_all_counted(fs.drop_last());
        assert(fs.drop_last().push(fs.last()) =~= fs);
    } else {
        assert(counted(fs, None) =~= fs);
    }
}

// ---------------------------------------------------------------------------
// A partition under the default rules
// ---------------------------------------------------------------------------

/// Folding a partition matches the shares bought in the order in which they were
/// bought, sorts what it matches by holding period with a year of 365 days, and
/// says whose they are.
pub proof fn lemma_partition_is_fifo(client: u64, symbol: u32, recs: Seq<PackedTrade>)
    ensures
        ({
            let fs = partition_frags(client, symbol, recs);
            &&& buy_side(fs).is_prefix_of(bought(recs))
            &&& forall|i: int|
                0 <= i < fs.len() ==> {
                    let f = #[trigger] fs[i];
                    &&& f.client == client
                    &&& f.symbol == symbol
                    &&& f.matched_qty >= 0
                    &&& f.bucket == (if f.sell_day == f.buy_day {
                        0int
                    } else if f.sell_day - f.buy_day <= 365 {
                        1
                    } else {
                        2
                    })
                }
        }),
{
    let desk = default_desk(client, symbol);
    let all = fold(desk, Seq::empty(), recs);
    let fs = partition_frags(client, symbol, recs);
    lemma_all_counted(all.1);
    assert(fs == all.1);
    crate::shares::lemma_fifo_shares(desk, Seq::empty(), recs);
    assert(lot_shares(Seq::empty()) + bought(recs) =~= bought(recs));
    assert(buy_side(fs) =~= bought(recs).take(buy_side(fs).len() as int));
    lemma_fold_owner(desk, Seq::empty(), recs);
    crate::shares::lemma_fold_ruled(desk, Seq::empty(), recs);
    assert forall|i: int| 0 <= i < fs.len() implies {
        let f = #[trigger] fs[i];
        &&& f.client == client
        &&& f.symbol == symbol
        &&& f.matched_qty >= 0
        &&& f.bucket == (if f.sell_day == f.buy_day {
            0int
        } else if f.sell_day - f.buy_day <= 365 {
            1
        } else {
            2
        })
    } by {
        lemma_default_is_a_year(fs[i].buy_day as int, fs[i].sell_day as int);
    }
}

/// Where nothing is sold short, folding a partition matches every share sold, in
/// the order in which they were sold.
pub proof fn lemma_partition_matches_all_sold(client: u64, symbol: u32, recs: Seq<PackedTrade>)
    requires
        never_short(default_desk(client, symbol), Seq::empty(), recs),
    ensures
        sell_side(partition_frags(client, symbol, recs)) == sold(recs),
{
    let desk = default_desk(client, symbol);
    lemma_all_counted(fold(desk, Seq::empty(), recs).1);
    crate::shares::lemma_sold_shares(desk, Seq::empty(), recs);
}

// ---------------------------------------------------------------------------
// Rules
// ---------------------------------------------------------------------------

/// No rules that are made define more than eight buckets: six bounds are kept where
/// there is an intraday bucket, and seven where there is none.
pub proof fn lemma_bounds_leave_room()
    ensures
        BucketRules::bounds_kept(true) == 6,
        BucketRules::bounds_kept(false) == 7,
{
}

/// Rules are the default ones where they have an intraday bucket and the one bound of
/// 365 days, and then sort every holding as those do.
pub proof fn lemma_default_rules_sort_alike(rules: BucketRules, buy_day: int, sell_day: int)
    ensures
        rules.default_equity() <==> rules.intraday_same_day && rules.n_bounds == 1
            && rules.boundaries@[0] == 365,
        rules.default_equity() ==> bucket_of(rules, buy_day, sell_day) == bucket_of(
            BucketRules::equity_rules(365),
            buy_day,
            sell_day,
        ),
{
    reveal_with_fuel(band_of, 2);
}

/// Adding two results adds each bucket to its own.
pub proof fn lemma_sums_add_bucketwise(a: Seq<Tally>, b: Seq<Tally>, k: int)
    requires
        0 <= k < 8,
    ensures
        summed(a, b).len() == 8,
        summed(a, b)[k].realized == a[k].realized + b[k].realized,
        summed(a, b)[k].qty == a[k].qty + b[k].qty,
        summed(a, b)[k].count == a[k].count + b[k].count,
{
}

/// The profit over all buckets is the sum of each.
pub proof fn lemma_total_is_sum_of_buckets(ts: Seq<Tally>, k: int)
    requires
        0 <= k,
    ensures
        realized_upto(ts, 0) == 0,
        realized_upto(ts, k + 1) == realized_upto(ts, k) + ts[k].realized,
{
}

} // verus!
