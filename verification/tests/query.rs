//! Queries, with and without checkpoints, against a scan of the rows.

use fifo_gpu::baseline::baseline_query;
use fifo_gpu::checkpoint::{part_key, Checkpoint};
use fifo_gpu::fifo::{
    fold_partition, fold_table, BucketRules, Lot, MatchPolicy, NoopSink, PartitionPnl,
};
use fifo_gpu::guard::{can_checkpoint, can_fold, is_covered, keys_in_order, try_baseline, try_query, try_rollup};
use fifo_gpu::lance_store::to_rows;
use fifo_gpu::packed::{PackedBuilder, PackedTable, PackedTrade};
use fifo_gpu::query::{run_cpu, select_partitions, ClientSel, Query, Span};

fn rec(sq: i32, px: i32, day: i32) -> PackedTrade {
    PackedTrade { signed_qty: sq, price_ticks: px, day }
}

fn table(b: &PackedBuilder) -> PackedTable {
    let mut bytes = Vec::new();
    b.write(&mut bytes);
    PackedTable::from_bytes(bytes).unwrap()
}

fn book() -> PackedTable {
    let mut b = PackedBuilder::new();
    b.push_partition(1, 1, &[rec(100, 1000, 10), rec(100, 1500, 20), rec(-150, 3000, 200), rec(50, 2000, 300), rec(-50, 2500, 400)]);
    b.push_partition(1, 2, &[rec(10, 10, 150), rec(-10, 20, 150), rec(10, 30, 160)]);
    b.push_partition(3, 2, &[rec(7, 70, 1), rec(-7, 60, 600)]);
    table(&b)
}

fn ask(clients: ClientSel, symbol: Option<u32>, span: Span) -> Query {
    Query { clients, symbol, span }
}

#[test]
fn full_history_per_client_matches_direct_fold() {
    let mut b = PackedBuilder::new();
    let a = [rec(100, 1000, 1), rec(-100, 1200, 1)];
    let c = [rec(50, 500, 2), rec(-50, 700, 50)];
    b.push_partition(7, 1, &a);
    b.push_partition(7, 2, &c);
    let t = table(&b);

    let q = Query { clients: ClientSel::One(7), symbol: None, span: Span::Full };
    let r = run_cpu(&t, None, &q, &mut NoopSink, &BucketRules::default(), MatchPolicy::Fifo);

    let mut want = fold_partition(7, 1, &a, &mut NoopSink);
    want.merge(&fold_partition(7, 2, &c, &mut NoopSink));
    assert_eq!(r.pnl, want);
    assert_eq!(r.partition_fanout, 2);
    assert_eq!(r.rows_touched, 4);
    assert_eq!(r.max_partition_rows, 2);
    assert_eq!(r.checkpoints_loaded, 0);
}

#[test]
fn a_query_names_its_partitions() {
    let t = book();
    assert_eq!(select_partitions(&t, &ask(ClientSel::All, None, Span::Full)), vec![0, 1, 2]);
    assert_eq!(select_partitions(&t, &ask(ClientSel::All, Some(2), Span::Full)), vec![1, 2]);
    assert_eq!(select_partitions(&t, &ask(ClientSel::One(1), None, Span::Full)), vec![0, 1]);
    assert_eq!(select_partitions(&t, &ask(ClientSel::One(1), Some(2), Span::Full)), vec![1]);
    assert_eq!(select_partitions(&t, &ask(ClientSel::One(1), Some(9), Span::Full)), Vec::<usize>::new());
    assert_eq!(select_partitions(&t, &ask(ClientSel::One(2), None, Span::Full)), Vec::<usize>::new());
    assert!(fifo_gpu::baseline::matches(&ask(ClientSel::One(1), Some(2), Span::Full), 1, 2));
    assert!(!fifo_gpu::baseline::matches(&ask(ClientSel::One(1), Some(2), Span::Full), 1, 3));
    assert!(!fifo_gpu::baseline::matches(&ask(ClientSel::One(1), None, Span::Full), 2, 2));
}

#[test]
fn checkpoints_change_no_answer() {
    let t = book();
    let rows = to_rows(&t);
    let rules = BucketRules::default();
    for clients in [ClientSel::All, ClientSel::One(1), ClientSel::One(3), ClientSel::One(2)] {
        for symbol in [None, Some(2)] {
            for (lo, hi) in [(150, 250), (150, 150), (1, 1000), (11, 300), (500, 700)] {
                let q = ask(clients, symbol, Span::Range(lo, hi));
                let (base, _) = baseline_query(&rows, &q);
                let without = run_cpu(&t, None, &q, &mut NoopSink, &rules, MatchPolicy::Fifo);
                assert_eq!(without.pnl, base);
                for cutoff in [-5, 5, 15, 100, 149] {
                    if cutoff < lo {
                        let c = Checkpoint::build(&t, cutoff);
                        let with = run_cpu(&t, Some(&c), &q, &mut NoopSink, &rules, MatchPolicy::Fifo);
                        assert_eq!(with.pnl, base);
                        assert!(with.rows_touched <= without.rows_touched);
                    }
                }
            }
        }
    }
}

#[test]
fn a_range_counts_what_it_replays() {
    let t = book();
    let c = Checkpoint::build(&t, 100);
    let q = ask(ClientSel::One(1), None, Span::Range(150, 250));
    let r = run_cpu(&t, Some(&c), &q, &mut NoopSink, &BucketRules::default(), MatchPolicy::Fifo);
    // one record of the first partition after day 100, three of the second
    assert_eq!(r.rows_touched, 4);
    assert_eq!(r.max_partition_rows, 3);
    assert_eq!(r.partition_fanout, 2);
    assert_eq!(r.pnl.short().matched_qty, 150);
    assert_eq!(r.pnl.short().realized_ticks, 100 * 2000 + 50 * 1500);
    assert_eq!(r.pnl.intraday().realized_ticks, 100);
}

#[test]
fn a_checkpoint_serves_its_policy_only() {
    // Checkpoints carry what a first-in-first-out fold leaves open.
    let mut b = PackedBuilder::new();
    b.push_partition(1, 1, &[rec(1, 10, 1), rec(1, 20, 2), rec(-1, 30, 3), rec(-1, 40, 9)]);
    let t = table(&b);
    let c = Checkpoint::build(&t, 5);
    let q = ask(ClientSel::All, None, Span::Range(6, 10));
    let rules = BucketRules::default();
    let with = run_cpu(&t, Some(&c), &q, &mut NoopSink, &rules, MatchPolicy::Lifo);
    let without = run_cpu(&t, None, &q, &mut NoopSink, &rules, MatchPolicy::Lifo);
    assert_eq!(with.pnl.short().realized_ticks, 20);
    assert_eq!(without.pnl.short().realized_ticks, 30);
}

#[test]
fn the_whole_table_is_the_sum_of_its_clients() {
    let t = book();
    let total = fold_table(&t, &mut NoopSink);
    let mut sum = PartitionPnl::default();
    for c in [1, 3] {
        let q = ask(ClientSel::One(c), None, Span::Full);
        sum.merge(&run_cpu(&t, None, &q, &mut NoopSink, &BucketRules::default(), MatchPolicy::Fifo).pnl);
    }
    assert_eq!(total, sum);
    assert_eq!(total.total_ticks(), 100 * 2000 + 50 * 1500 + 50 * 1000 + 100 - 70);
}

#[test]
fn the_baseline_counts_its_rows() {
    let rows = to_rows(&book());
    let (pnl, touched) = baseline_query(&rows, &ask(ClientSel::One(1), Some(2), Span::Full));
    assert_eq!(touched, 3);
    assert_eq!(pnl.intraday().realized_ticks, 100);
    assert_eq!(pnl.intraday().fragments, 1);
    let (none, touched) = baseline_query(&rows, &ask(ClientSel::One(9), None, Span::Full));
    assert_eq!(touched, 0);
    assert_eq!(none, PartitionPnl::default());
}

#[test]
fn tables_that_cannot_be_folded_are_declined() {
    let q = ask(ClientSel::All, None, Span::Range(1, 1000));
    let full = ask(ClientSel::All, None, Span::Full);
    let rules = BucketRules::default();
    let good = book();
    assert!(can_fold(&good) && is_covered(&good) && keys_in_order(&good));
    assert!(can_checkpoint(&good, 100));
    let got = try_query(&good, None, &q, &rules, MatchPolicy::Fifo).unwrap();
    assert_eq!(got.pnl, run_cpu(&good, None, &q, &mut NoopSink, &rules, MatchPolicy::Fifo).pnl);

    // days that go back
    let mut b = PackedBuilder::new();
    b.push_partition(1, 1, &[rec(1, 1, 5), rec(-1, 1, 4)]);
    let back = table(&b);
    assert!(can_fold(&back) && !can_checkpoint(&back, 100));
    assert!(try_rollup(&back).is_some());
    assert!(try_query(&back, None, &q, &rules, MatchPolicy::Fifo).is_none());
    assert!(try_query(&back, None, &full, &rules, MatchPolicy::Fifo).is_some());

    // days that 32 bits cannot tell apart
    let mut b = PackedBuilder::new();
    b.push_partition(1, 1, &[rec(1, 1, -2_000_000_000), rec(-1, 1, 2_000_000_000)]);
    let wide = table(&b);
    assert!(!can_fold(&wide));
    assert!(can_checkpoint(&wide, 0) && !can_checkpoint(&wide, i32::MAX));
    assert!(try_query(&wide, None, &full, &rules, MatchPolicy::Fifo).is_none());
    assert!(try_rollup(&wide).is_none());
    assert!(try_baseline(&to_rows(&wide), &full).is_none());

    // such days matter only in what is asked for, and only within one partition
    let mut b = PackedBuilder::new();
    b.push_partition(1, 1, &[rec(1, 1, -2_000_000_000), rec(-1, 1, 2_000_000_000)]);
    b.push_partition(2, 1, &[rec(1, 1, -2_000_000_000), rec(-1, 1, -1_999_999_999)]);
    b.push_partition(2, 2, &[rec(1, 1, 2_000_000_000), rec(-1, 3, 2_000_000_000)]);
    let some = table(&b);
    assert!(try_query(&some, None, &full, &rules, MatchPolicy::Fifo).is_none());
    let two = ask(ClientSel::One(2), None, Span::Full);
    let got = try_query(&some, None, &two, &rules, MatchPolicy::Fifo).unwrap();
    assert_eq!((got.pnl.intraday().realized_ticks, got.rows_touched), (2, 4));
    let (pnl, touched) = try_baseline(&to_rows(&some), &two).unwrap();
    assert_eq!((pnl, touched), (got.pnl, 4));

    // nor do they matter where no such pair is matched
    let mut b = PackedBuilder::new();
    let far = [rec(1, 1, -2_000_000_000), rec(-1, 4, -2_000_000_000), rec(2, 1, 2_000_000_000), rec(-1, 6, 2_000_000_000)];
    b.push_partition(1, 1, &far);
    let apart = table(&b);
    assert!(can_fold(&apart) && can_checkpoint(&apart, i32::MAX));
    let got = try_query(&apart, None, &full, &rules, MatchPolicy::Fifo).unwrap();
    assert_eq!((got.pnl.intraday().realized_ticks, got.pnl.intraday().fragments), (8, 2));
    assert_eq!(try_baseline(&to_rows(&apart), &full).unwrap().0, got.pnl);
    assert_eq!(try_rollup(&apart).unwrap().1, got.pnl);
    // first in, first out the pair is close; last in, first out it is not
    let mut b = PackedBuilder::new();
    b.push_partition(1, 1, &[rec(1, 1, 2_000_000_000), rec(1, 1, -2_000_000_000), rec(-1, 9, 2_000_000_000)]);
    let either = table(&b);
    assert!(try_query(&either, None, &full, &rules, MatchPolicy::Fifo).is_some());
    assert!(try_query(&either, None, &full, &rules, MatchPolicy::Lifo).is_none());

    // lots carried in at any price, as long as what they realize can be held
    let mut b = PackedBuilder::new();
    b.push_partition(1, 1, &[rec(-2, 100, 10)]);
    let sold = table(&b);
    let range = ask(ClientSel::All, None, Span::Range(5, 20));
    let lots = |qty, price_ticks| {
        let mut c = Checkpoint::build(&sold, 1);
        c.lots.insert(part_key(1, 1), vec![Lot { qty, price_ticks, day: 0 }]);
        try_query(&sold, Some(&c), &range, &rules, MatchPolicy::Fifo).map(|r| r.pnl.short().realized_ticks)
    };
    assert_eq!(lots(2, 5_000_000_000), Some(-9_999_999_800));
    assert_eq!(lots(2, i64::MIN + 101), Some(2 * (i64::MAX as i128)));
    assert_eq!(lots(2, i64::MIN), None);
    assert_eq!(lots(-2, 1), None);

    // partitions out of order: only a client's lookup minds
    let mut b = PackedBuilder::new();
    b.push_partition(2, 1, &[rec(1, 1, 1)]);
    b.push_partition(1, 1, &[rec(1, 1, 1)]);
    let mixed = table(&b);
    assert!(!keys_in_order(&mixed));
    assert!(try_query(&mixed, None, &full, &rules, MatchPolicy::Fifo).is_some());
    let one = ask(ClientSel::One(1), None, Span::Full);
    assert!(try_query(&mixed, None, &one, &rules, MatchPolicy::Fifo).is_none());
}

#[test]
fn ranges_that_follow_each_other_add_up() {
    let t = book();
    let rules = BucketRules::default();
    let run = |lo, hi| {
        let q = ask(ClientSel::All, None, Span::Range(lo, hi));
        run_cpu(&t, None, &q, &mut NoopSink, &rules, MatchPolicy::Fifo).pnl
    };
    for (lo, mid, hi) in [(1, 150, 1000), (100, 199, 400), (-10, 0, 700)] {
        let mut sum = run(lo, mid);
        sum.merge(&run(mid + 1, hi));
        assert_eq!(sum, run(lo, hi));
    }
}

#[test]
fn a_checkpoint_changes_the_cost_alone() {
    let t = book();
    let rules = BucketRules::bands(false, &[5, 50]);
    for cutoff in [0, 15, 155, 250, 399] {
        let snap = Checkpoint::build(&t, cutoff);
        for clients in [ClientSel::All, ClientSel::One(1)] {
            for hi in [cutoff + 1, cutoff + 100, 1_000] {
                let q = ask(clients, None, Span::Range(cutoff + 1, hi));
                let with = run_cpu(&t, Some(&snap), &q, &mut NoopSink, &rules, MatchPolicy::Fifo);
                let without = run_cpu(&t, None, &q, &mut NoopSink, &rules, MatchPolicy::Fifo);
                assert_eq!(with.pnl, without.pnl);
                assert_eq!(with.partition_fanout, without.partition_fanout);
                assert!(with.rows_touched <= without.rows_touched);
                assert!(with.max_partition_rows <= without.max_partition_rows);
            }
        }
    }
}

#[test]
fn a_scan_counts_rows_whatever_the_span() {
    let rows = to_rows(&book());
    for span in [Span::Full, Span::Range(1, 2), Span::Range(100, 900)] {
        assert_eq!(baseline_query(&rows, &ask(ClientSel::All, None, span)).1, 10);
        assert_eq!(baseline_query(&rows, &ask(ClientSel::One(1), None, span)).1, 8);
        assert_eq!(baseline_query(&rows, &ask(ClientSel::All, Some(2), span)).1, 5);
    }
}

#[test]
fn a_range_without_a_checkpoint_starts_at_the_first_day() {
    let mut b = PackedBuilder::new();
    b.push_partition(1, 1, &[rec(4, 10, i32::MIN), rec(-1, 15, i32::MIN), rec(-3, 20, i32::MIN + 30)]);
    let t = table(&b);
    let rows = to_rows(&t);
    for (lo, hi) in [(i32::MIN, i32::MIN), (i32::MIN, i32::MIN + 40), (i32::MIN + 1, i32::MAX), (7, 3)] {
        let q = ask(ClientSel::All, None, Span::Range(lo, hi));
        let got = try_query(&t, None, &q, &BucketRules::default(), MatchPolicy::Fifo).unwrap();
        assert_eq!(got.pnl, try_baseline(&rows, &q).unwrap().0);
    }
    let q = ask(ClientSel::All, None, Span::Range(i32::MIN, 0));
    let got = run_cpu(&t, None, &q, &mut NoopSink, &BucketRules::default(), MatchPolicy::Fifo);
    assert_eq!((got.rows_touched, got.pnl.intraday().realized_ticks, got.pnl.short().realized_ticks), (3, 5, 30));
}
