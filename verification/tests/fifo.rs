//! The fold, its buckets and its policies.

use fifo_gpu::fifo::{
    classify, fold_core, fold_core_nosink, fold_partition, fold_with_carry, BucketRules, Fragment,
    FragmentSink, MatchPolicy, NoopSink, PartitionPnl,
};
use fifo_gpu::packed::PackedTrade;
use std::collections::VecDeque;

fn rec(sq: i32, px: i32, day: i32) -> PackedTrade {
    PackedTrade { signed_qty: sq, price_ticks: px, day }
}

#[test]
fn bucket_rules_reclassify_by_threshold() {
    // a single 200-day-held round trip
    let recs = [rec(100, 1000, 0), rec(-100, 1200, 200)];
    // default (up to 365 days is short): 200 days is short-term
    let mut c1 = VecDeque::new();
    let d = fold_core(1, 1, &mut c1, &recs, &mut NoopSink, None, &BucketRules::default(), MatchPolicy::Fifo);
    assert_eq!(d.short().matched_qty, 100);
    assert_eq!(d.long().matched_qty, 0);
    // stricter jurisdiction (up to 100 days): the same trade is now long-term
    let mut c2 = VecDeque::new();
    let s = fold_core(
        1, 1, &mut c2, &recs, &mut NoopSink, None,
        &BucketRules::equity(100),
        MatchPolicy::Fifo,
    );
    assert_eq!(s.short().matched_qty, 0);
    assert_eq!(s.long().matched_qty, 100);
}

#[test]
fn k_bucket_rules_classify_and_fold() {
    // intraday + two bands to 4 buckets: 0=intraday, 1=<=30d, 2=<=365d, 3=>365d
    let rules = BucketRules::bands(true, &[30, 365]);
    assert_eq!(rules.num_buckets(), 4);
    assert_eq!(classify(&rules, 5, 5), 0);
    assert_eq!(classify(&rules, 0, 10), 1);
    assert_eq!(classify(&rules, 0, 200), 2);
    assert_eq!(classify(&rules, 0, 500), 3);
    // a 200-day round trip lands in bucket 2, nothing elsewhere
    let recs = [rec(100, 1000, 0), rec(-100, 1200, 200)];
    let mut c = VecDeque::new();
    let pnl = fold_core(1, 1, &mut c, &recs, &mut NoopSink, None, &rules, MatchPolicy::Fifo);
    assert_eq!(pnl.buckets[2].matched_qty, 100);
    assert_eq!(pnl.buckets[2].realized_ticks, 100 * 200);
    assert_eq!(pnl.buckets[0].matched_qty, 0);
    assert_eq!(pnl.buckets[1].matched_qty, 0);
    assert_eq!(pnl.buckets[3].matched_qty, 0);
}

#[test]
fn match_policy_picks_different_lots() {
    // three open buys at distinct prices, then one sell of 100 @5000
    let recs = [
        rec(100, 2000, 1), // oldest
        rec(100, 3000, 2), // highest cost
        rec(100, 1000, 3), // newest
        rec(-100, 5000, 4),
    ];
    let run = |p| {
        let mut c = VecDeque::new();
        fold_core(1, 1, &mut c, &recs, &mut NoopSink, None, &BucketRules::default(), p)
    };
    // FIFO drains oldest @2000; LIFO newest @1000; HIFO highest-cost @3000.
    assert_eq!(run(MatchPolicy::Fifo).short().realized_ticks, 100 * (5000 - 2000));
    assert_eq!(run(MatchPolicy::Lifo).short().realized_ticks, 100 * (5000 - 1000));
    assert_eq!(run(MatchPolicy::Hifo).short().realized_ticks, 100 * (5000 - 3000));
    // same matched quantity regardless of policy
    assert_eq!(run(MatchPolicy::Lifo).short().matched_qty, 100);
}

#[test]
fn three_buckets() {
    // buy 100 @2000 d1; sell 60 @2200 d1 (intraday); sell 40 @2400 d100 (short)
    // buy 10 @2000 d200; sell 10 @2600 d700 (long, span 500)
    let recs = [
        rec(100, 2000, 1),
        rec(-60, 2200, 1),
        rec(-40, 2400, 100),
        rec(10, 2000, 200),
        rec(-10, 2600, 700),
    ];
    let pnl = fold_partition(7, 3, &recs, &mut NoopSink);
    assert_eq!(pnl.intraday().realized_ticks, 60 * 200); // 12000
    assert_eq!(pnl.intraday().matched_qty, 60);
    assert_eq!(pnl.short().realized_ticks, 40 * 400); // 16000
    assert_eq!(pnl.short().matched_qty, 40);
    assert_eq!(pnl.long().realized_ticks, 10 * 600); // 6000
    assert_eq!(pnl.long().matched_qty, 10);
}

#[test]
fn fifo_drains_oldest_first() {
    // two buys at different prices, one big sell crossing both lots
    let recs = [
        rec(100, 1000, 1),
        rec(100, 2000, 2),
        rec(-150, 3000, 3), // matches 100@1000 then 50@2000
    ];
    let pnl = fold_partition(1, 1, &recs, &mut NoopSink);
    // span 1-2 days to short bucket
    let expect = 100 * (3000 - 1000) + 50 * (3000 - 2000);
    assert_eq!(pnl.short().realized_ticks, expect as i128);
    assert_eq!(pnl.short().matched_qty, 150);
}

#[test]
fn carry_in_equivalent_to_full() {
    let part_a = [rec(100, 1000, 1), rec(50, 1100, 2)]; // two open buys
    let part_b = [rec(-120, 2000, 400)]; // sell crossing both, long span
    // full fold
    let full: Vec<PackedTrade> = part_a.iter().chain(part_b.iter()).copied().collect();
    let want = fold_partition(1, 1, &full, &mut NoopSink);
    // split fold: build carry from part_a, then fold part_b with carry
    let mut carry = VecDeque::new();
    fold_with_carry(1, 1, &mut carry, &part_a, &mut NoopSink);
    let got = fold_with_carry(1, 1, &mut carry, &part_b, &mut NoopSink);
    assert_eq!(want, got);
}

#[test]
fn sink_sees_every_fragment() {
    struct Counter(u64, i128);
    impl FragmentSink for Counter {
        fn emit(&mut self, f: &Fragment) {
            self.0 += 1;
            self.1 += f.realized_ticks();
        }
    }
    let recs = [rec(100, 1000, 1), rec(-100, 1500, 1)];
    let mut c = Counter(0, 0);
    let pnl = fold_partition(1, 1, &recs, &mut c);
    assert_eq!(c.0, 1);
    assert_eq!(c.1, pnl.total_ticks());
}

#[test]
fn buckets_are_labelled() {
    let equity = BucketRules::default();
    assert!(equity.is_default_equity());
    assert!(!BucketRules::equity(100).is_default_equity());
    assert_eq!(equity.num_buckets(), 3);
    assert_eq!(equity.label(0), "intraday");
    assert_eq!(equity.label(1), "1-365d");
    assert_eq!(equity.label(2), ">365d");
    let bands = BucketRules::bands(false, &[30, 365]);
    assert_eq!(bands.num_buckets(), 3);
    assert_eq!(bands.label(0), "0-30d");
    assert_eq!(bands.label(1), "31-365d");
    assert_eq!(bands.label(2), ">365d");
}

#[test]
fn bounds_belong_to_the_bucket_below() {
    let rules = BucketRules::default();
    assert_eq!(classify(&rules, 0, 365), 1);
    assert_eq!(classify(&rules, 0, 366), 2);
    assert_eq!(classify(&rules, 10, 9), 1);
    let flat = BucketRules::bands(false, &[0, 30]);
    assert_eq!(classify(&flat, 5, 5), 0);
    assert_eq!(classify(&flat, 5, 6), 1);
    assert_eq!(classify(&flat, 5, 36), 2);
}

#[test]
fn folds_without_a_sink_agree() {
    let recs = [
        rec(100, 1000, 1),
        rec(40, 1100, 1),
        rec(-60, 1200, 1),
        rec(-60, 900, 30),
        rec(10, 800, 400),
        rec(-40, 1500, 500),
        rec(0, 7, 501),
    ];
    for policy in [MatchPolicy::Fifo, MatchPolicy::Lifo, MatchPolicy::Hifo] {
        for rules in [BucketRules::default(), BucketRules::equity(20), BucketRules::bands(false, &[5])] {
            for count in [None, Some((1, 40)), Some((500, 500))] {
                let mut a = VecDeque::new();
                let mut b = VecDeque::new();
                let x = fold_core(3, 4, &mut a, &recs, &mut NoopSink, count, &rules, policy);
                let y = fold_core_nosink(&mut b, &recs, count, &rules, policy);
                assert_eq!(x, y);
                assert_eq!(a.len(), b.len());
                for i in 0..a.len() {
                    assert_eq!((a[i].qty, a[i].price_ticks, a[i].day), (b[i].qty, b[i].price_ticks, b[i].day));
                }
            }
        }
    }
}

#[test]
fn selling_more_than_is_held_matches_what_is_held() {
    let recs = [rec(10, 100, 1), rec(-25, 120, 2), rec(5, 90, 3)];
    let mut carry = VecDeque::new();
    let p = fold_core(1, 1, &mut carry, &recs, &mut NoopSink, None, &BucketRules::default(), MatchPolicy::Fifo);
    assert_eq!(p.short().matched_qty, 10);
    assert_eq!(p.short().realized_ticks, 200);
    assert_eq!(p.short().fragments, 1);
    assert_eq!(carry.len(), 1);
    assert_eq!(carry[0].qty, 5);
}

#[test]
fn shares_are_conserved() {
    let recs = [rec(100, 1, 1), rec(50, 2, 2), rec(-70, 3, 3), rec(20, 4, 4), rec(-60, 5, 5)];
    for policy in [MatchPolicy::Fifo, MatchPolicy::Lifo, MatchPolicy::Hifo] {
        let mut carry = VecDeque::new();
        let p = fold_core(1, 1, &mut carry, &recs, &mut NoopSink, None, &BucketRules::default(), policy);
        let matched: i128 = p.buckets.iter().map(|b| b.matched_qty).sum();
        let open: i64 = carry.iter().map(|l| l.qty).sum();
        assert_eq!(matched, 130);
        assert_eq!(open, 40);
    }
}

#[test]
fn results_add_up() {
    let mut a = PartitionPnl::default();
    a.bucket_mut(2).add_frag(-30, 3);
    a.bucket_mut(0).add_frag(5, 1);
    let mut b = a;
    b.merge(&a);
    assert_eq!(b.long().realized_ticks, -60);
    assert_eq!(b.long().matched_qty, 6);
    assert_eq!(b.long().fragments, 2);
    assert_eq!(b.total_ticks(), -50);
    b.merge_default3(&a);
    assert_eq!(b.total_ticks(), -75);
    let f = Fragment { client: 1, symbol: 2, buy_day: 0, sell_day: 1, matched_qty: 4, buy_ticks: 10, sell_ticks: 7, bucket: 1 };
    assert_eq!(f.realized_ticks(), -12);
}

#[test]
fn shares_laid_alongside_give_the_same_buckets() {
    let recs = [
        rec(100, 200, 1),
        rec(100, 210, 2),
        rec(-150, 220, 5),
        rec(30, 190, 5),
        rec(-40, 230, 5),
        rec(-40, 300, 900),
    ];
    // every share bought and every share sold, in order
    let mut bought: Vec<(i64, i32)> = Vec::new();
    let mut sold: Vec<(i64, i32)> = Vec::new();
    for r in &recs {
        let side = if r.signed_qty > 0 { &mut bought } else { &mut sold };
        for _ in 0..r.signed_qty.abs() {
            side.push((r.price_ticks as i64, r.day));
        }
    }
    let rules = BucketRules::default();
    let mut realized = [0i128; 3];
    let mut qty = [0i128; 3];
    for (b, s) in bought.iter().zip(&sold) {
        let k = classify(&rules, b.1, s.1);
        realized[k] += (s.0 - b.0) as i128;
        qty[k] += 1;
    }
    let p = fold_partition(1, 1, &recs, &mut NoopSink);
    for k in 0..3 {
        assert_eq!(p.buckets[k].realized_ticks, realized[k]);
        assert_eq!(p.buckets[k].matched_qty, qty[k]);
    }
    assert_eq!(p.buckets[2].matched_qty, 40);
}

#[test]
fn a_sell_may_fall_into_several_buckets() {
    let recs = [rec(10, 100, 0), rec(10, 100, 700), rec(10, 100, 800), rec(-30, 110, 800)];
    let p = fold_partition(1, 1, &recs, &mut NoopSink);
    assert_eq!(p.long().matched_qty, 10);
    assert_eq!(p.short().matched_qty, 10);
    assert_eq!(p.intraday().matched_qty, 10);
}

#[test]
fn bands_define_no_more_buckets_than_there_are() {
    let bounds = [1, 2, 3, 4, 5, 6, 7, 8, 9];
    let with = BucketRules::bands(true, &bounds);
    assert_eq!((with.n_bounds, with.num_buckets()), (6, 8));
    assert_eq!(with.boundaries, [1, 2, 3, 4, 5, 6, 0, 0]);
    assert_eq!(classify(&with, 0, 1_000), 7);
    let without = BucketRules::bands(false, &bounds);
    assert_eq!((without.n_bounds, without.num_buckets()), (7, 8));
    assert_eq!(without.boundaries, [1, 2, 3, 4, 5, 6, 7, 0]);
    assert_eq!(classify(&without, 0, 1_000), 7);
    let few = BucketRules::bands(true, &bounds[..3]);
    assert_eq!((few.n_bounds, few.num_buckets()), (3, 5));
}

#[test]
fn a_fold_can_be_cut_anywhere() {
    let recs = [rec(10, 100, 1), rec(-4, 130, 1), rec(5, 90, 3), rec(-9, 120, 400), rec(-2, 80, 900)];
    let count = Some((2, 500));
    for policy in [MatchPolicy::Fifo, MatchPolicy::Lifo, MatchPolicy::Hifo] {
        let run = |carry: &mut VecDeque<_>, part: &[PackedTrade]| {
            fold_core(1, 1, carry, part, &mut NoopSink, count, &BucketRules::default(), policy)
        };
        let mut whole = VecDeque::new();
        let want = run(&mut whole, &recs);
        for at in 0..=recs.len() {
            let mut carry = VecDeque::new();
            let mut got = run(&mut carry, &recs[..at]);
            got.merge(&run(&mut carry, &recs[at..]));
            assert_eq!(got, want);
            assert_eq!(format!("{carry:?}"), format!("{whole:?}"));
        }
    }
}

#[test]
fn dearest_first_realizes_least() {
    let buys = [rec(2, 100, 1), rec(3, 140, 2), rec(1, 120, 3), rec(2, 140, 4)];
    for sold in 1..=9 {
        let mut recs = buys.to_vec();
        recs.push(rec(-sold, 110, 5));
        let mut carry = VecDeque::new();
        let pnl = fold_core(1, 1, &mut carry, &recs, &mut NoopSink, None, &BucketRules::default(), MatchPolicy::Hifo);
        let got = pnl.short().realized_ticks;
        let qty = pnl.short().matched_qty;
        assert_eq!(qty, i128::from(sold.min(8)));
        // every choice of as many shares
        for a in 0..=2i128 {
            for b in 0..=3i128 {
                for c in 0..=1i128 {
                    let d = qty - a - b - c;
                    if (0..=2).contains(&d) {
                        assert!(got <= a * 10 + b * -30 + c * -10 + d * -30);
                    }
                }
            }
        }
    }
}

#[test]
fn realized_profit_is_proceeds_less_cost() {
    let recs = [rec(10, 100, 1), rec(5, 80, 2), rec(-12, 130, 3), rec(4, 90, 4), rec(-9, 70, 500)];
    for policy in [MatchPolicy::Fifo, MatchPolicy::Lifo, MatchPolicy::Hifo] {
        let mut carry = VecDeque::new();
        let pnl = fold_core(1, 1, &mut carry, &recs, &mut NoopSink, None, &BucketRules::default(), policy);
        let open: i64 = carry.iter().map(|l| l.qty * l.price_ticks).sum();
        // 12 sold at 130, and the 7 that were still there at 70
        assert_eq!(pnl.total_ticks(), i128::from(12 * 130 + 7 * 70 - (1_000 + 400 + 360 - open)));
        assert_eq!(pnl.buckets.iter().map(|b| b.matched_qty).sum::<i128>(), 19);
    }
}

#[test]
fn labels_and_buckets_agree() {
    for rules in [BucketRules::default(), BucketRules::bands(true, &[7, 30, 365]), BucketRules::bands(false, &[0, 30])] {
        for span in 0..400 {
            let label = rules.label(classify(&rules, 1_000, 1_000 + span));
            let covers = if label == "intraday" {
                span == 0
            } else if let Some(past) = label.strip_prefix('>') {
                span > past.trim_end_matches('d').parse().unwrap()
            } else {
                let (a, b) = label.trim_end_matches('d').split_once('-').unwrap();
                (a.parse().unwrap()..=b.parse().unwrap()).contains(&span)
            };
            assert!(covers, "{label} {span}");
        }
    }
}
