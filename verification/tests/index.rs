//! The page index and the packer that writes it.

use fifo_gpu::index::{PageIndex, PAGE_RECORDS};
use fifo_gpu::pack::{is_part_name, pack};
use fifo_gpu::packed::{PackedBuilder, PackedTable, PackedTrade};
use fifo_gpu::rows::Row;

fn rec(sq: i32, day: i32) -> PackedTrade {
    PackedTrade { signed_qty: sq, price_ticks: 100, day }
}

fn table(b: &PackedBuilder) -> PackedTable {
    let mut bytes = Vec::new();
    b.write(&mut bytes);
    PackedTable::from_bytes(bytes).unwrap()
}

#[test]
fn pages_prune_by_client_and_day() {
    let mut b = PackedBuilder::new();
    // client 1 trades early days, client 9 trades late days
    b.push_partition(1, 10, &[rec(1, 1), rec(-1, 2)]);
    b.push_partition(9, 10, &[rec(1, 900), rec(-1, 901)]);
    let t = table(&b);
    // tiny page size so each partition is its own page
    let idx = PageIndex::build_with(&t, 2);
    assert_eq!(idx.pages.len(), 2);
    // a query for early days, client 1, prunes the late page
    let sel = idx.prune(1, 1, 0, 10);
    assert_eq!(sel, vec![(0, 2)]);
    // a query for late days prunes the early page
    let sel = idx.prune(0, 100, 800, 1000);
    assert_eq!(sel, vec![(2, 4)]);
}

#[test]
fn pages_cut_across_partitions() {
    let mut b = PackedBuilder::new();
    b.push_partition(1, 1, &[rec(1, 5)]);
    b.push_partition(2, 1, &[rec(1, 3), rec(1, 8)]);
    b.push_partition(4, 1, &[rec(1, 1), rec(1, 2)]);
    let idx = PageIndex::build_with(&table(&b), 3);
    assert_eq!(idx.page_records, 3);
    assert_eq!(idx.pages.len(), 2);
    let a = idx.pages[0];
    assert_eq!((a.row_start, a.row_end, a.min_client, a.max_client, a.min_day, a.max_day), (0, 3, 1, 2, 3, 8));
    let z = idx.pages[1];
    assert_eq!((z.row_start, z.row_end, z.min_client, z.max_client, z.min_day, z.max_day), (3, 5, 4, 4, 1, 2));
    // every row that a query asks for lies in a page that is kept
    assert_eq!(idx.prune(2, 2, 8, 8), vec![(0, 3)]);
    assert_eq!(idx.prune(0, u64::MAX, i32::MIN, i32::MAX), vec![(0, 3), (3, 5)]);
    assert_eq!(idx.prune(3, 3, 0, 10), Vec::<(u64, u64)>::new());
}

#[test]
fn one_page_by_default() {
    let mut b = PackedBuilder::new();
    b.push_partition(1, 1, &[rec(1, 5)]);
    let idx = PageIndex::build(&table(&b));
    assert_eq!(idx.page_records, PAGE_RECORDS);
    assert_eq!(idx.pages.len(), 1);
    assert!(PageIndex::build(&table(&PackedBuilder::new())).pages.is_empty());
    // a page may be larger than any table
    assert_eq!(PageIndex::build_with(&table(&b), usize::MAX).pages.len(), 1);
    assert_eq!(PageIndex::sidecar_path("data/x.fifopack"), "data/x.fifopack.idx.json");
}

#[test]
fn rows_are_packed_run_by_run() {
    let row = |client, symbol, sq, day| Row { client, symbol, rec: rec(sq, day) };
    let rows = [row(1, 1, 5, 1), row(1, 1, -5, 2), row(1, 3, 6, 1), row(2, 3, 7, 4)];
    let p = pack(&rows, 2);
    assert_eq!((p.stats.n_rows, p.stats.n_parts, p.stats.n_pages), (4, 3, 2));
    assert_eq!(p.stats.bytes, p.bytes.len() as u64);
    assert_eq!(p.bytes.len(), 4096 + 48);
    let t = PackedTable::from_bytes(p.bytes).unwrap();
    assert_eq!(t.part_client(), &[1, 1, 2]);
    assert_eq!(t.part_symbol(), &[1, 3, 3]);
    assert_eq!(t.part_offset(), &[0, 2, 3, 4]);
    assert_eq!(t.partition(0), &[rec(5, 1), rec(-5, 2)]);
    assert_eq!(p.index.pages.len(), 2);
}

#[test]
fn tradebook_files_go_by_their_names() {
    assert!(is_part_name("part-00000.parquet"));
    assert!(is_part_name("part-.parquet"));
    assert!(!is_part_name("symbols.parquet"));
    assert!(!is_part_name("part-00000.parquet.tmp"));
    assert!(!is_part_name("part-"));
    assert!(!is_part_name(""));
}
