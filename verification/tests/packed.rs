//! The packed table: layout, round trip and lookup.

use fifo_gpu::packed::{PackedBuilder, PackedError, PackedTable, PackedTrade};
use fifo_gpu::schema::Trade;
use std::mem::size_of;

fn rec(sq: i32, px: i32, day: i32) -> PackedTrade {
    PackedTrade { signed_qty: sq, price_ticks: px, day }
}

fn three() -> PackedBuilder {
    let mut b = PackedBuilder::new();
    b.push_partition(1, 10, &[rec(100, 2000, 1), rec(-100, 2100, 2)]);
    b.push_partition(1, 20, &[rec(50, 500, 1)]);
    b.push_partition(2, 10, &[rec(10, 100, 5), rec(10, 110, 400), rec(-20, 120, 800)]);
    b
}

fn bytes_of(b: &PackedBuilder) -> Vec<u8> {
    let mut bytes = Vec::new();
    b.write(&mut bytes);
    bytes
}

#[test]
fn record_is_12_bytes() {
    assert_eq!(size_of::<PackedTrade>(), 12);
}

#[test]
fn write_read_roundtrip_and_lookup() {
    let t = PackedTable::from_bytes(bytes_of(&three())).unwrap();

    assert_eq!(t.n_parts(), 3);
    assert_eq!(t.n_rows(), 6);
    // what comes back equals what was written
    assert_eq!(t.partition(0), &[rec(100, 2000, 1), rec(-100, 2100, 2)]);

    let p = t.find_partition(2, 10).unwrap();
    assert_eq!(t.partition(p).len(), 3);
    assert!(t.find_partition(9, 9).is_none());

    assert_eq!(t.partitions_for_client(1), 0..2);
    assert_eq!(t.partitions_for_client(2), 2..3);

    // day-range prune within the (2,10) partition
    let recs = t.partition(p);
    assert_eq!(t.day_range(recs, 0, 10).len(), 1); // only day 5
    assert_eq!(t.day_range(recs, 400, 800).len(), 2);
}

#[test]
fn the_buffer_is_laid_out_byte_for_byte() {
    let mut b = PackedBuilder::new();
    b.push_partition(7, 3, &[rec(1, 2, 3), rec(-1, -2, -3)]);
    assert_eq!(b.n_parts(), 1);
    let bytes = bytes_of(&b);
    assert_eq!(bytes.len(), 4096 + 24);
    assert_eq!(&bytes[0..8], b"FIFOPK01");
    assert_eq!(&bytes[8..16], &[1, 0, 0, 0, 0, 0, 0, 0]);
    assert_eq!(&bytes[16..24], &2u64.to_le_bytes());
    assert_eq!(&bytes[24..32], &1u64.to_le_bytes());
    assert_eq!(&bytes[32..40], &0.05f64.to_le_bytes());
    assert_eq!(&bytes[40..48], &80u64.to_le_bytes());
    assert_eq!(&bytes[48..56], &88u64.to_le_bytes());
    assert_eq!(&bytes[56..64], &96u64.to_le_bytes());
    assert_eq!(&bytes[64..72], &4096u64.to_le_bytes());
    assert_eq!(&bytes[72..80], &4120u64.to_le_bytes());
    assert_eq!(&bytes[80..88], &7u64.to_le_bytes());
    assert_eq!(&bytes[88..92], &3u32.to_le_bytes());
    assert_eq!(&bytes[96..104], &0u64.to_le_bytes());
    assert_eq!(&bytes[104..112], &2u64.to_le_bytes());
    assert!(bytes[112..4096].iter().all(|&x| x == 0));
    assert_eq!(&bytes[4096..4108], &[1, 0, 0, 0, 2, 0, 0, 0, 3, 0, 0, 0]);
    assert_eq!(
        &bytes[4108..4120],
        &[0xff, 0xff, 0xff, 0xff, 0xfe, 0xff, 0xff, 0xff, 0xfd, 0xff, 0xff, 0xff]
    );
}

#[test]
fn an_empty_table_round_trips() {
    let t = PackedTable::from_bytes(bytes_of(&PackedBuilder::new())).unwrap();
    assert!(t.is_wf());
    assert_eq!(t.n_parts(), 0);
    assert_eq!(t.n_rows(), 0);
    assert!(t.records().is_empty());
    assert_eq!(t.part_offset(), &[0]);
    assert!(t.find_partition(1, 1).is_none());
    assert_eq!(t.partitions_for_client(1), 0..0);
}

#[test]
fn what_is_no_table_is_refused() {
    let good = bytes_of(&three());
    assert_eq!(PackedTable::from_slice(&good[..79]).err(), Some(PackedError::TooSmall));
    let mut bad = good.clone();
    bad[0] = b'X';
    assert_eq!(PackedTable::from_slice(&bad).err(), Some(PackedError::BadMagic));
    assert_eq!(PackedTable::from_slice(&good[..good.len() - 1]).err(), Some(PackedError::Truncated));
    assert_eq!(PackedError::TooSmall.message(), "too small to be a packed table");
    assert_eq!(PackedError::BadMagic.message(), "bad magic — not a FIFOPK buffer");
    assert_eq!(PackedError::Truncated.message(), "truncated packed table");
}

#[test]
fn a_damaged_partition_table_is_noticed() {
    let mut bad = bytes_of(&three());
    assert!(PackedTable::from_slice(&bad).unwrap().is_wf());
    // the first offset of the last partition, past the number of records
    let at = u64::from_le_bytes(bad[56..64].try_into().unwrap()) as usize + 8;
    bad[at] = 200;
    assert!(!PackedTable::from_slice(&bad).unwrap().is_wf());
}

#[test]
fn a_trade_becomes_a_record() {
    let t = Trade {
        trade_id: 1,
        client_id: 2,
        symbol_id: 3,
        side: -1,
        quantity: 40,
        price_ticks: 777,
        ts_micros: 86_400_000_000 * 5 + 13,
        venue: 0,
    };
    assert!(PackedTrade::fits_record(&t));
    let r = PackedTrade::from_trade(&t);
    assert_eq!(r, rec(-40, 777, 5));
    assert!(!r.is_buy());
    assert_eq!(r.qty(), 40);
    assert!(rec(1, 1, 1).is_buy());
    let before_epoch = Trade { ts_micros: -1, ..t };
    assert_eq!(PackedTrade::from_trade(&before_epoch).day, 0);
    let too_many = Trade { quantity: 0x8000_0000, ..t };
    assert!(!PackedTrade::fits_record(&too_many));
}

#[test]
fn a_table_cut_short_is_refused() {
    let mut b = PackedBuilder::new();
    b.push_partition(1, 1, &[PackedTrade { signed_qty: 5, price_ticks: 7, day: 9 }]);
    b.push_partition(2, 1, &[PackedTrade { signed_qty: 6, price_ticks: 8, day: 9 }]);
    let mut bytes = Vec::new();
    b.write(&mut bytes);
    assert!(PackedTable::from_slice(&bytes).is_ok());
    for k in 0..bytes.len() {
        assert!(PackedTable::from_slice(&bytes[..k]).is_err());
    }
}
