//! Corrections of one client.

use fifo_gpu::bench::same_pnl;
use fifo_gpu::checkpoint::{ckpt_name, Checkpoint, CheckpointStore};
use fifo_gpu::correction::{correct, recompute_client, verify_against_packed};
use fifo_gpu::fifo::PartitionPnl;
use fifo_gpu::guard::can_recompute;
use fifo_gpu::pack::pack;
use fifo_gpu::packed::PackedTable;
use fifo_gpu::rows::Row;
use fifo_gpu::schema::Trade;

const DAY: i64 = 86_400_000_000;

fn trade(client_id: u64, symbol_id: u32, side: i8, quantity: u32, price_ticks: i32, day: i64) -> Trade {
    Trade { trade_id: 0, client_id, symbol_id, side, quantity, price_ticks, ts_micros: day * DAY, venue: 0 }
}

fn client_two() -> Vec<Trade> {
    vec![
        trade(2, 1, 1, 10, 100, 3),
        trade(2, 1, -1, 10, 130, 3),
        trade(2, 5, 1, 4, 50, 3),
        trade(2, 5, -1, 1, 80, 9),
    ]
}

#[test]
fn a_client_is_folded_in_isolation() {
    let (pnl, n, parts) = recompute_client(2, &client_two());
    assert_eq!((n, parts), (4, 2));
    assert_eq!(pnl.intraday().realized_ticks, 300);
    assert_eq!(pnl.short().realized_ticks, 30);
    assert_eq!(recompute_client(2, &[]), (PartitionPnl::default(), 0, 0));
}

#[test]
fn isolation_gives_what_the_table_gives() {
    let mut all = vec![trade(1, 1, 1, 10, 100, 3), trade(1, 1, -1, 10, 190, 4)];
    all.extend(client_two());
    all.push(trade(3, 1, 1, 10, 100, 3));
    let rows: Vec<Row> = all.iter().map(Row::from_trade).collect();
    let t = PackedTable::from_bytes(pack(&rows, 100).bytes).unwrap();
    let (regen, packed) = verify_against_packed(&t, 2, &client_two());
    assert!(same_pnl(&regen, &packed));
    assert_eq!(regen.total_ticks(), 330);
    // another client's trades do not match
    let (regen, packed) = verify_against_packed(&t, 1, &client_two());
    assert!(!same_pnl(&regen, &packed));
}

#[test]
fn a_correction_reports_what_to_rebuild() {
    let store = CheckpointStore::new(String::from("c"));
    let names: Vec<String> = [5, 40, 20].iter().map(|&c| ckpt_name(c)).collect();
    let r = correct(&store, &names, 2, 20, &client_two());
    assert_eq!((r.client, r.n_trades, r.n_partitions), (2, 4, 2));
    assert_eq!(r.invalidated_checkpoints, vec![20, 40]);
    assert_eq!(r.pnl.total_ticks(), 330);
}

#[test]
fn trades_that_do_not_fit_are_noticed() {
    assert!(can_recompute(2, &client_two()));
    assert!(!can_recompute(2, &[trade(2, 1, -1, 0x8000_0000, 1, 1)]));
    let far = Trade { ts_micros: i64::MAX, ..trade(2, 1, 1, 1, 1, 1) };
    assert!(can_recompute(2, &[trade(2, 1, 1, 1, 1, 1), far]));
}

#[test]
fn earlier_checkpoints_survive_a_correction() {
    let before = client_two();
    let mut after = client_two();
    after.insert(3, trade(2, 5, -1, 2, 75, 7)); // a back-dated sell on day 7
    let table = |trades: &[Trade]| {
        let rows: Vec<Row> = trades.iter().map(Row::from_trade).collect();
        PackedTable::from_bytes(pack(&rows, 100).bytes).unwrap()
    };
    let (old, new) = (table(&before), table(&after));
    let open = |t: &PackedTable, cutoff| {
        let c = Checkpoint::build(t, cutoff);
        let lots: Vec<(i64, i64, i32)> =
            c.carry_for(2, 5).iter().map(|l| (l.qty, l.price_ticks, l.day)).collect();
        (c.lots.len(), lots)
    };
    for cutoff in [0, 3, 5, 6] {
        assert_eq!(open(&old, cutoff), open(&new, cutoff));
    }
    assert_ne!(open(&old, 7), open(&new, 7));
    assert_ne!(open(&old, 8), open(&new, 8));
}
