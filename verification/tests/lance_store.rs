//! Tables as columns of rows, and back.

use fifo_gpu::fifo::{fold_table, NoopSink};
use fifo_gpu::lance_store::{batches, from_rows, to_rows, BATCH_ROWS};
use fifo_gpu::packed::{PackedBuilder, PackedTable, PackedTrade};
use fifo_gpu::rows::{next_run, Row};
use fifo_gpu::schema::Trade;

fn rec(sq: i32, px: i32, day: i32) -> PackedTrade {
    PackedTrade { signed_qty: sq, price_ticks: px, day }
}

#[test]
fn lance_roundtrip_is_identical() {
    let mut b = PackedBuilder::new();
    b.push_partition(1, 10, &[rec(100, 2000, 1), rec(-100, 2100, 2)]);
    b.push_partition(1, 20, &[rec(50, 500, 1)]);
    b.push_partition(2, 10, &[rec(10, 100, 5), rec(10, 110, 400), rec(-20, 120, 800)]);
    let mut bytes = Vec::new();
    b.write(&mut bytes);
    let t = PackedTable::from_bytes(bytes).unwrap();

    let t2 = from_rows(&to_rows(&t));

    // round-trip must reproduce the packed table exactly (and fold identically)
    assert_eq!(t2.records(), t.records());
    assert_eq!(t2.part_client(), t.part_client());
    assert_eq!(t2.part_symbol(), t.part_symbol());
    assert_eq!(t2.part_offset(), t.part_offset());
    let fold = |tab: &PackedTable| fold_table(tab, &mut NoopSink).total_ticks();
    assert_eq!(fold(&t2), fold(&t));
}

#[test]
fn batches_cover_all_rows() {
    assert_eq!(BATCH_ROWS, 1 << 20);
    assert!(batches(0).is_empty());
    assert_eq!(batches(1), vec![(0, 1)]);
    assert_eq!(batches(BATCH_ROWS), vec![(0, BATCH_ROWS)]);
    assert_eq!(
        batches(2 * BATCH_ROWS + 5),
        vec![(0, BATCH_ROWS), (BATCH_ROWS, 2 * BATCH_ROWS), (2 * BATCH_ROWS, 2 * BATCH_ROWS + 5)]
    );
}

#[test]
fn runs_end_where_client_or_symbol_changes() {
    let row = |client, symbol, sq| Row { client, symbol, rec: rec(sq, 1, 1) };
    let rows = [row(1, 1, 1), row(1, 1, 2), row(1, 2, 3), row(2, 2, 4)];
    assert_eq!(next_run(&rows, 0), (vec![rec(1, 1, 1), rec(2, 1, 1)], 2));
    assert_eq!(next_run(&rows, 2), (vec![rec(3, 1, 1)], 3));
    assert_eq!(next_run(&rows, 3), (vec![rec(4, 1, 1)], 4));
    let t = Trade { trade_id: 0, client_id: 8, symbol_id: 9, side: 1, quantity: 3, price_ticks: 4, ts_micros: 0, venue: 1 };
    assert_eq!(Row::from_trade(&t), Row { client: 8, symbol: 9, rec: rec(3, 4, 0) });
}
