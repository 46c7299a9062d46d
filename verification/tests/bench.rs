//! What the benchmark asks and how it reads the answers; what the GPU is handed.

use fifo_gpu::bench::{
    diagnose, pick_clients, query_matrix, same_qty, spaced_cutoffs, span_label, Divergence,
};
use fifo_gpu::config::GenConfig;
use fifo_gpu::fifo::{fold_partition, fold_table, NoopSink, PartitionPnl};
use fifo_gpu::gpu::{
    big_parts, chunk_limits, gather, local_offsets, plan_chunks, sum_pnl, BIG_PARTITION_THRESHOLD,
    STREAM_CHUNK_ROWS,
};
use fifo_gpu::packed::{PackedBuilder, PackedTable, PackedTrade};
use fifo_gpu::query::{ClientSel, Span};
use fifo_gpu::router::Engine;

fn rec(sq: i32) -> PackedTrade {
    PackedTrade { signed_qty: sq, price_ticks: 1, day: 1 }
}

fn book() -> PackedTable {
    let mut b = PackedBuilder::new();
    b.push_partition(0, 1, &[rec(1), rec(2)]);
    b.push_partition(0, 2, &[rec(3)]);
    b.push_partition(1, 1, &[rec(4), rec(5), rec(6)]);
    b.push_partition(2, 1, &[rec(7), rec(8)]);
    b.push_partition(2, 2, &[rec(9), rec(10)]);
    b.push_partition(5, 2, &[rec(11), rec(12), rec(13), rec(14)]);
    let mut bytes = Vec::new();
    b.write(&mut bytes);
    PackedTable::from_bytes(bytes).unwrap()
}

#[test]
fn a_whale_and_another_client_are_picked() {
    let mut cfg = GenConfig::defaults();
    cfg.clients = 10;
    cfg.n_whales = 2; // 0 and 5
    assert_eq!(pick_clients(&book(), &cfg), (5, 2));
    cfg.n_whales = 0;
    assert_eq!(pick_clients(&book(), &cfg), (0, 2));
    cfg.clients = 1;
    cfg.n_whales = 9; // every client
    assert_eq!(pick_clients(&book(), &cfg), (2, 0));
}

#[test]
fn the_queries_are_laid_over_the_calendar() {
    let td: Vec<i64> = (0..100).map(|i| 1_000 + i).collect();
    let qs = query_matrix(&td, 7, 8);
    let names: Vec<&str> = qs.iter().map(|q| q.name.as_str()).collect();
    assert_eq!(
        names,
        vec![
            "whale 1-day",
            "whale 1-month",
            "whale random-range",
            "whale all-history",
            "retail 1-month",
            "retail all-history",
            "cross-client all-history"
        ]
    );
    let spans: Vec<String> = qs.iter().map(|q| span_label(&q.query.span)).collect();
    assert_eq!(spans[0], "range[1050,1050]");
    assert_eq!(spans[1], "range[1050,1072]");
    assert_eq!(spans[2], "range[1010,1070]");
    assert_eq!(spans[3], "all-history");
    assert!(matches!(qs[1].query.clients, ClientSel::One(7)));
    assert!(matches!(qs[4].query.clients, ClientSel::One(8)));
    assert!(matches!(qs[6].query.clients, ClientSel::All));
    assert_eq!(span_label(&Span::Range(-3, 4)), "range[-3,4]");
    // a short calendar clamps to its last day
    assert_eq!(span_label(&query_matrix(&[5, 6], 0, 0)[1].query.span), "range[6,6]");
}

#[test]
fn cutoffs_are_spread_evenly() {
    let td: Vec<i64> = (0..100).collect();
    assert_eq!(spaced_cutoffs(&td, 3), vec![25, 50, 75]);
    assert_eq!(spaced_cutoffs(&td, 4), vec![20, 40, 60, 80]);
    assert_eq!(spaced_cutoffs(&td, 0), Vec::<i32>::new());
    assert_eq!(spaced_cutoffs(&[9], 2), vec![9, 9]);
}

#[test]
fn a_wrong_answer_is_traced() {
    let a = PartitionPnl::default();
    let mut b = a;
    b.buckets[1].matched_qty = 1;
    let mut c = a;
    c.buckets[2].realized_ticks = 1;
    assert_eq!(diagnose(&b, &a, &a), Divergence::Checkpoint);
    assert_eq!(diagnose(&a, &a, &b), Divergence::Data);
    assert_eq!(diagnose(&a, &b, &c), Divergence::Both);
    assert_eq!(diagnose(&a, &a, &a), Divergence::NotReproduced);
    assert!(same_qty(&a, &c));
    assert!(!same_qty(&a, &b));
}

#[test]
fn the_cheaper_engine_is_chosen() {
    assert_eq!(Engine::cheaper(true), Engine::Gpu);
    assert_eq!(Engine::cheaper(false), Engine::Cpu);
}

#[test]
fn chunks_hold_whole_partitions() {
    let big = STREAM_CHUNK_ROWS;
    assert_eq!(plan_chunks(&[0]), Vec::<(usize, usize)>::new());
    assert_eq!(plan_chunks(&[0, 1, 2, big]), vec![(0, 3)]);
    assert_eq!(plan_chunks(&[0, 1, big + 1, big + 2]), vec![(0, 1), (1, 2), (2, 3)]);
    let off = [0, 3 * big, 3 * big + 1, 3 * big + 2];
    let chunks = plan_chunks(&off);
    assert_eq!(chunks, vec![(0, 1), (1, 3)]);
    assert_eq!(chunk_limits(&off, &chunks), (3 * big as usize, 2));
    assert_eq!(chunk_limits(&[0], &Vec::new()), (1, 1));
    assert_eq!(local_offsets(&off, 1, 3), vec![0, 1, 2]);
}

#[test]
fn big_partitions_are_told_apart() {
    let t = BIG_PARTITION_THRESHOLD;
    assert_eq!(big_parts(&[0, t, 2 * t - 1, 3 * t]), vec![0, 2]);
    assert_eq!(big_parts(&[0]), Vec::<u32>::new());
}

#[test]
fn partitions_are_gathered_in_order() {
    let (recs, off) = gather(&book(), &[1, 3, 0]);
    assert_eq!(recs, vec![rec(3), rec(7), rec(8), rec(1), rec(2)]);
    assert_eq!(off, vec![0, 1, 3, 5]);
    let (recs, off) = gather(&book(), &[]);
    assert!(recs.is_empty());
    assert_eq!(off, vec![0]);
}

#[test]
fn partition_results_are_summed() {
    let p = sum_pnl(&[[1, 2, 3], [10, -20, 30]], &[[4, 5, 6], [1, 1, 1]]);
    assert_eq!((p.intraday().realized_ticks, p.short().realized_ticks, p.long().realized_ticks), (11, -18, 33));
    assert_eq!((p.intraday().matched_qty, p.short().matched_qty, p.long().matched_qty), (5, 6, 7));
    assert_eq!(p.long().fragments, 0);
    assert_eq!(sum_pnl(&[], &[]), PartitionPnl::default());
}

#[test]
fn a_fold_in_chunks_is_the_fold() {
    let at = |sq, day| PackedTrade { signed_qty: sq, price_ticks: 1, day };
    let mut b = PackedBuilder::new();
    b.push_partition(0, 1, &[at(5, 1), at(-3, 1), at(-2, 9)]);
    b.push_partition(0, 2, &[at(4, 1), at(-4, 400)]);
    b.push_partition(3, 1, &[at(6, 2), at(-1, 2), at(-1, 500)]);
    let mut bytes = Vec::new();
    b.write(&mut bytes);
    let t = PackedTable::from_bytes(bytes).unwrap();
    let cpu = fold_table(&t, &mut NoopSink);
    let off = t.part_offset();
    for chunks in [plan_chunks(off), vec![(0, 1), (1, 3)], vec![(0, 2), (2, 3)]] {
        let mut realized = Vec::new();
        let mut qty = Vec::new();
        for (a, b) in chunks {
            let recs = &t.records()[off[a] as usize..off[b] as usize];
            let local = local_offsets(off, a, b);
            for p in 0..b - a {
                let pnl = fold_partition(0, 0, &recs[local[p] as usize..local[p + 1] as usize], &mut NoopSink);
                let three = [pnl.intraday(), pnl.short(), pnl.long()];
                realized.push(three.map(|x| x.realized_ticks));
                qty.push(three.map(|x| x.matched_qty as i64));
            }
        }
        assert!(same_qty(&sum_pnl(&realized, &qty), &cpu));
    }
    assert_eq!((cpu.intraday().matched_qty, cpu.short().matched_qty, cpu.long().matched_qty), (4, 2, 5));
}
