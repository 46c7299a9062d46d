//! Making trades: shares, walks, streams, symbols and counts.

use fifo_gpu::calendar::{ts_micros, SESSION_US};
use fifo_gpu::config::GenConfig;
use fifo_gpu::generate::{draw_venue, long_gap, settle_counts, short_gap, Step, SymbolWalk};
use fifo_gpu::manifest::{day_label, Manifest};
use fifo_gpu::schema::Trade;
use fifo_gpu::skew::SkewTally;
use fifo_gpu::stats::SkewCounts;
use fifo_gpu::symbols::DistinctPicker;
use fifo_gpu::util::{mix_seed, splitmix64, stream, SALT_COUNT, SALT_SYM_PRICE, SALT_TRADE, SALT_WHALE_W};
use fifo_gpu::writer::{part_name, Flush, WriterState};
use rand::Rng;
use rand::RngCore;
use rand::SeedableRng;

/// Shares of `count` by random weights, none below one.
fn shares<R: Rng>(rng: &mut R, count: u64, n: u32) -> Vec<u64> {
    let n = n.max(1) as usize;
    if n == 1 {
        return vec![count];
    }
    let weights: Vec<f64> = (0..n).map(|_| -rng.gen::<f64>().max(1e-12).ln()).collect();
    let wsum: f64 = weights.iter().sum();
    weights.iter().map(|w| ((count as f64) * w / wsum).floor().max(1.0) as u64).collect()
}

#[test]
fn split_count_sums_exactly() {
    let mut r = stream(7);
    for &(c, n) in &[(100u64, 5u32), (3, 4), (1, 1), (1_000_000, 50), (7, 3)] {
        let a = settle_counts(shares(&mut r, c, n), c);
        assert_eq!(a.iter().sum::<u64>(), c, "count {c} n {n}");
        assert!(a.iter().all(|&v| v >= 1) || c < n as u64);
    }
}

#[test]
fn shares_are_settled_in_a_fixed_order() {
    // too few: one more for each in turn
    assert_eq!(settle_counts(vec![1, 1, 1], 8), vec![3, 3, 2]);
    // too many: the last of the largest gives first
    assert_eq!(settle_counts(vec![4, 4, 2], 8), vec![3, 3, 2]);
    assert_eq!(settle_counts(vec![1, 1, 1, 1], 3), vec![0, 1, 1, 1]);
    assert_eq!(settle_counts(vec![5], 5), vec![5]);
}

#[test]
fn seeds_are_mixed_exactly() {
    // the first outputs of SplitMix64 started at 0 and at 1
    assert_eq!(splitmix64(0), 0xE220_A839_7B1D_CDAF);
    assert_eq!(splitmix64(1), 0x910A_2DEC_8902_5CC1);
    let by_hand = splitmix64(42 ^ splitmix64(3u64.wrapping_mul(0x9E37_79B9_7F4A_7C15) ^ SALT_TRADE));
    assert_eq!(mix_seed(42, 3, SALT_TRADE), by_hand);
    let salts = [SALT_COUNT, SALT_TRADE, SALT_SYM_PRICE, SALT_WHALE_W];
    for (i, &a) in salts.iter().enumerate() {
        for &b in &salts[i + 1..] {
            assert_ne!(mix_seed(42, 3, a), mix_seed(42, 3, b));
        }
    }
    assert_ne!(mix_seed(42, 3, SALT_TRADE), mix_seed(42, 4, SALT_TRADE));
}

#[test]
fn streams_are_reproducible() {
    let mut a = stream(7);
    let mut b = stream(7);
    let mut c = stream(8);
    let mut plain = rand_chacha::ChaCha8Rng::seed_from_u64(7);
    let first = a.next_u64();
    assert_eq!(first, b.next_u64());
    assert_eq!(first, plain.next_u64());
    assert_ne!(first, c.next_u64());
    let cfg = GenConfig::defaults();
    assert_eq!(cfg.client_stream(5, SALT_TRADE).next_u64(), stream(mix_seed(42, 5, SALT_TRADE)).next_u64());
    assert_ne!(cfg.client_stream(5, SALT_TRADE).next_u64(), cfg.client_stream(6, SALT_TRADE).next_u64());
}

fn step(gap: i64, draw: i64, sell: bool, wanted: u64) -> Step {
    Step { gap, draw, sell, wanted, price_ticks: 250, venue: 2 }
}

#[test]
fn draws_come_from_the_generator() {
    let mut ours = stream(11);
    let mut plain = rand_chacha::ChaCha8Rng::seed_from_u64(11);
    let cal: Vec<i64> = (18_262..18_302).collect();
    for _ in 0..200 {
        assert_eq!(long_gap(&mut ours, 250), plain.gen_range((250i64 / 3).max(1)..250));
        assert_eq!(draw_venue(&mut ours), (plain.gen::<u32>() % 5) as u8);
        let mut w = SymbolWalk::start(&mut ours, 1, 2, 40, 7, 2);
        let day_pos: i64 = plain.gen_range(0..40);
        assert_eq!(w.day_pos, day_pos);
        let z = cal[day_pos as usize];
        let first = w.draw_offset(&mut ours, z);
        let off: i64 = plain.gen_range(0..(SESSION_US / 2));
        assert_eq!(first, off);
        assert_eq!(w.step(&cal, &step(0, first, false, 1)), Some(vec![]));
        let second = w.draw_offset(&mut ours, z);
        let by: i64 = plain.gen_range(1..=(SESSION_US / 8));
        assert_eq!(second, by);
        assert_eq!(w.step(&cal, &step(0, second, false, 1)), Some(vec![]));
        let done = w.finish_day();
        assert_eq!(done[0].ts_micros, ts_micros(z, off));
        assert_eq!(done[1].ts_micros, ts_micros(z, (off + by).min(SESSION_US - 1)));
    }
}

#[test]
fn gaps_stay_within_bounds() {
    assert_eq!(short_gap(-4), 1);
    assert_eq!(short_gap(0), 1);
    assert_eq!(short_gap(7), 8);
    assert_eq!(short_gap(29), 30);
    assert_eq!(short_gap(1_000), 30);
}

#[test]
fn a_walk_moves_forward_and_never_sells_short() {
    let cal: Vec<i64> = (100..110).collect();
    let mut w = SymbolWalk::start_at(9, 4, 3, 10, 77, 5);
    assert_eq!((w.reach(0, 10), w.reach(4, 10), w.reach(40, 10)), (3, 7, 9));
    assert!(w.is_flat());
    // nothing is held: a buy, whatever is called for
    assert_eq!(w.decide(true, 50), (1, 50));
    assert_eq!(w.step(&cal, &step(0, 500, true, 50)), Some(vec![]));
    assert_eq!(w.decide(true, 20), (-1, 20));
    // on another day the trades of the last one are handed out
    let done = w.step(&cal, &step(4, 5, true, 20)).unwrap();
    assert_eq!(
        done,
        vec![Trade { trade_id: 77, client_id: 9, symbol_id: 4, side: 1, quantity: 50, price_ticks: 250, ts_micros: ts_micros(103, 500), venue: 2 }]
    );
    assert_eq!((w.day_pos, w.last_z, w.inv, w.next_id, w.left), (7, Some(107), 30, 79, 3));
    let done = w.step(&cal, &step(40, 8, false, 0x1_0000_0003)).unwrap();
    assert_eq!((done[0].trade_id, done[0].side, done[0].quantity), (78, -1, 20));
    // a sell of all that is held, and no more
    assert_eq!(w.decide(true, u64::MAX), (-1, 0x1_0000_0021));
    assert_eq!(w.step(&cal, &step(0, 1, true, 0x2_0000_0000)), Some(vec![]));
    assert!(w.is_flat());
    assert_eq!(w.step(&cal, &step(1, 1, false, 6)), Some(vec![]));
    let done = w.finish_day();
    // a quantity keeps its lowest 32 bits
    assert_eq!(done.iter().map(|t| (t.trade_id, t.side, t.quantity)).collect::<Vec<_>>(), vec![(79, 1, 3), (80, -1, 0x21), (81, 1, 6)]);
    assert_eq!(done.iter().map(|t| t.ts_micros - ts_micros(109, 0)).collect::<Vec<_>>(), vec![8, 9, 10]);
    assert_eq!((w.left, w.next_id), (0, 82));
    assert!(w.finish_day().is_empty());
}

fn offsets(draws: &[i64]) -> Vec<i64> {
    let mut w = SymbolWalk::start_at(1, 2, 0, 2, 0, draws.len() as u64);
    for &d in draws {
        assert_eq!(w.step(&[50, 51], &step(0, d, false, 1)), Some(vec![]));
    }
    w.finish_day().iter().map(|t| t.ts_micros - ts_micros(50, 0)).collect()
}

#[test]
fn trades_stay_where_they_were_aimed_while_there_is_room() {
    let end = SESSION_US - 1;
    assert_eq!(offsets(&[500, 1, 700]), vec![500, 501, 1_201]);
    // the last trade of a day may be at the close
    assert_eq!(offsets(&[500, end]), vec![500, end]);
    assert_eq!(offsets(&[end]), vec![end]);
    // those aimed past it are moved back, one microsecond apart
    assert_eq!(offsets(&[500, end, 9, 9]), vec![500, end - 2, end - 1, end]);
    assert_eq!(offsets(&[end - 1, 3, 3]), vec![end - 2, end - 1, end]);
}

#[test]
fn timestamps_of_a_walk_strictly_increase() {
    // far more trades than steps of an eighth fit into a session, most on the last day
    let cal = [18_262, 18_263];
    let mut r = stream(5);
    let m: u64 = 3_000;
    let mut w = SymbolWalk::start_at(1, 2, 0, 2, 10, m);
    let mut book = Vec::new();
    for k in 0..m {
        let gap = i64::from(k == 20);
        let z = cal[w.reach(gap, 2) as usize];
        let draw = w.draw_offset(&mut r, z);
        book.extend(w.step(&cal, &step(gap, draw, k % 3 == 0, 5)).unwrap());
    }
    assert_eq!(book.len(), 20);
    book.extend(w.finish_day());
    assert_eq!(book.len() as u64, m);
    for (i, t) in book.iter().enumerate() {
        assert_eq!(t.trade_id, 10 + i as u64);
        assert_eq!((t.client_id, t.symbol_id), (1, 2));
        assert!(i == 0 || book[i - 1].ts_micros < t.ts_micros);
    }
    assert_eq!(book[2_999].ts_micros, ts_micros(18_263, SESSION_US - 1));
}

#[test]
fn whales_are_spread_over_the_ids() {
    let mut c = GenConfig::defaults();
    assert_eq!((c.seed, c.clients, c.start_day, c.days, c.symbols), (42, 5_000, 18_262, 250, 1_000));
    assert_eq!((c.n_whales, c.rows_per_file, c.batch_rows), (8, 8_000_000, 1_000_000));
    c.clients = 10_000;
    c.n_whales = 10;
    assert_eq!(c.whale_stride(), 1_000);
    assert!(c.is_whale(0) && c.is_whale(9_000));
    assert!(!c.is_whale(1) && !c.is_whale(10_000));
    assert_eq!(c.whale_index(3_000), 3);
    assert_eq!((0..c.clients).filter(|&id| c.is_whale(id)).count(), 10);
    c.clients = 4;
    assert_eq!(c.whale_stride(), 1);
    assert_eq!((0..c.clients).filter(|&id| c.is_whale(id)).count(), 4);
    c.n_whales = 0;
    assert_eq!(c.whale_stride(), 4);
    assert!(!c.is_whale(0));
    c.days = 3;
    assert_eq!(c.trading_days(), vec![18_262, 18_263, 18_264]);
}

#[test]
fn whales_get_what_is_left() {
    let mut t = SkewTally::new();
    t.add_body(10);
    t.add_body(5);
    t.add_whale();
    let p = t.build_plan(100);
    assert_eq!((p.target_total, p.sum_body, p.whale_budget, p.n_whales), (100, 15, 85, 1));
    assert_eq!(t.build_plan(12).whale_budget, 0);
}

#[test]
fn the_manifest_tells_the_dates() {
    let mut c = GenConfig::defaults();
    c.days = 5;
    let m = Manifest::new(&c, &SkewTally::new().build_plan(9), 8);
    assert_eq!(m.start_date, "2020-01-01");
    assert_eq!(m.end_date_inclusive, "2020-01-07");
    assert_eq!((m.target_total, m.realized_total, m.n_whales), (9, 8, 0));
    assert_eq!(m.config, c);
    c.days = 0;
    let m = Manifest::new(&c, &SkewTally::new().build_plan(0), 0);
    assert_eq!(m.start_date, "2020-01-01");
    assert_eq!(m.end_date_inclusive, "2020-01-01");
    assert_eq!(day_label(-719_469), "0000-02-29");
}

#[test]
fn symbols_are_distinct_and_ascending() {
    let mut p = DistinctPicker::new(10, 4);
    for x in [7, 2, 7, 99] {
        assert!(p.wants_more());
        p.offer(x);
    }
    assert_eq!(p.seen, vec![2, 7, 9]);
    assert!(p.wants_more());
    p.offer(0);
    assert!(!p.wants_more());
    assert_eq!(p.finish(), vec![0, 2, 7, 9]);

    // draws that repeat are given up, and the first symbols fill in
    let mut p = DistinctPicker::new(10, 4);
    let mut draws = 0;
    while p.wants_more() {
        p.offer(1);
        draws += 1;
    }
    assert_eq!(draws, 4 * 8 + 16);
    assert_eq!(p.finish(), vec![0, 1, 2, 3]);

    let mut all = DistinctPicker::new(3, 50);
    all.offer(1);
    assert_eq!(all.finish(), vec![0, 1, 2]);
}

#[test]
fn counts_are_summed_up() {
    let s = SkewCounts::new(vec![9, 1, 4, 1, 100]);
    assert_eq!(s.counts, vec![1, 1, 4, 9, 100]);
    assert_eq!(s.total(), 115);
    assert_eq!(s.max(), 100);
    assert_eq!(s.at(2), 4);
    assert_eq!(s.at(50), 100);
    assert_eq!(s.top(2), 109);
    assert_eq!(s.top(0), 0);
    assert_eq!(s.hist(), vec![(1, 2), (2, 0), (4, 1), (8, 1), (16, 0), (32, 0), (64, 1)]);
    assert_eq!(s.hist().iter().map(|c| c.1).sum::<u64>(), 5);
    assert_eq!(SkewCounts::new(vec![0]).hist(), vec![(1, 0)]);
}

#[test]
fn files_follow_each_other() {
    assert_eq!(part_name(0), "part-00000.parquet");
    assert_eq!(part_name(123_456), "part-123456.parquet");
    let mut w = WriterState::new(3, 2);
    assert_eq!(w.flush(), Flush::Nothing);
    assert!(!w.push());
    assert!(w.push());
    assert_eq!(w.flush(), Flush::NewFile(0));
    w.push();
    assert_eq!(w.flush(), Flush::Append);
    assert_eq!(w.cur_rows, 3);
    w.push();
    assert_eq!(w.flush(), Flush::NewFile(1));
    assert_eq!((w.cur_rows, w.total_rows, w.file_idx, w.buffered), (1, 4, 2, 0));
}
