//! Checkpoints: what they carry, and the directory that holds them.

use fifo_gpu::checkpoint::{
    ckpt_name, parse_label, part_key, part_label, split_key, Checkpoint, CheckpointStore,
};
use fifo_gpu::fifo::{fold_core, fold_partition, BucketRules, MatchPolicy, NoopSink};
use fifo_gpu::packed::{PackedBuilder, PackedTable, PackedTrade};
use std::collections::VecDeque;

fn rec(sq: i32, px: i32, day: i32) -> PackedTrade {
    PackedTrade { signed_qty: sq, price_ticks: px, day }
}

fn table(b: &PackedBuilder) -> PackedTable {
    let mut bytes = Vec::new();
    b.write(&mut bytes);
    PackedTable::from_bytes(bytes).unwrap()
}

/// What a directory holds after a rebuild.
fn rebuild(store: &CheckpointStore, dir: &mut Vec<String>, t: &PackedTable, cutoffs: &[i32]) {
    let plan = store.build_periodic(dir, t, cutoffs);
    dir.retain(|name| !plan.remove.contains(name));
    for c in &plan.write {
        dir.push(c.file_name());
    }
}

#[test]
fn range_query_via_checkpoint_matches_truth() {
    // Partition: buy d10, buy d20, sell (crossing) d200, buy d300, sell d400.
    let recs = [
        rec(100, 1000, 10),
        rec(100, 1500, 20),
        rec(-150, 3000, 200),
        rec(50, 2000, 300),
        rec(-50, 2500, 400),
    ];
    let mut b = PackedBuilder::new();
    b.push_partition(1, 1, &recs);
    let t = table(&b);

    // Truth for the range [150, 250]: only the d200 sell should count.
    let truth = {
        // fold whole thing but only count sells in [150,250]
        let mut carry = VecDeque::new();
        fold_core(1, 1, &mut carry, &recs, &mut NoopSink, Some((150, 250)), &BucketRules::default(), MatchPolicy::Fifo)
    };

    // Via checkpoint at cutoff 100 (state after d10,d20 buys), replay (100, 250].
    let ckpt = Checkpoint::build(&t, 100);
    let mut carry = ckpt.carry_for(1, 1);
    let part = t.partition(0);
    let replay = t.day_range(part, 101, 250);
    let got = fold_core(1, 1, &mut carry, replay, &mut NoopSink, Some((150, 250)), &BucketRules::default(), MatchPolicy::Fifo);

    assert_eq!(got, truth);
    assert_eq!(got.short().matched_qty, 150); // the d200 sell crossed both lots
}

#[test]
fn build_periodic_clears_stale_checkpoints() {
    let recs = [rec(100, 1000, 10), rec(-40, 1500, 20)];
    let mut b = PackedBuilder::new();
    b.push_partition(1, 1, &recs);
    let t = table(&b);

    let store = CheckpointStore::new(String::from("checkpoints"));
    let mut dir: Vec<String> = Vec::new();

    // First dataset/cutoffs.
    rebuild(&store, &mut dir, &t, &[15, 25]);
    assert_eq!(store.cutoffs(&dir), vec![15, 25]);

    // Other cutoffs: the old [15,25] must NOT linger.
    rebuild(&store, &mut dir, &t, &[30, 40]);
    assert_eq!(store.cutoffs(&dir), vec![30, 40]);
}

#[test]
fn checkpoint_carry_is_correct() {
    let recs = [rec(100, 1000, 10), rec(40, 1500, 20), rec(-60, 3000, 30)];
    let mut b = PackedBuilder::new();
    b.push_partition(5, 9, &recs);
    let t = table(&b);
    // checkpoint at day 25: buys present, sell (d30) not yet: 100@1000 + 40@1500
    let ckpt = Checkpoint::build(&t, 25);
    let carry = ckpt.carry_for(5, 9);
    assert_eq!(carry.len(), 2);
    assert_eq!(carry[0].qty, 100);
    assert_eq!(carry[1].qty, 40);
    // checkpoint at day 35: after the 60-share sell, 40@1000 + 40@1500 remain
    let ckpt2 = Checkpoint::build(&t, 35);
    let carry2 = ckpt2.carry_for(5, 9);
    assert_eq!(carry2[0].qty, 40);
    assert_eq!(carry2[1].qty, 40);
    let _ = fold_partition(5, 9, &recs, &mut NoopSink);
}

#[test]
fn clearing_leaves_other_files_alone() {
    let store = CheckpointStore::new(String::from("d"));
    assert_eq!(store.dir, "d");
    let dir: Vec<String> = ["ckpt-00000015.json", "notes.txt", "ckpt-00000025.json.bak", "ckpt-7.json"]
        .iter()
        .map(|s| s.to_string())
        .collect();
    assert_eq!(store.clear(&dir), vec!["ckpt-00000015.json", "ckpt-7.json"]);
    assert_eq!(store.cutoffs(&dir), vec![7, 15]);
}

#[test]
fn partitions_without_open_lots_are_not_kept() {
    let mut b = PackedBuilder::new();
    b.push_partition(1, 1, &[rec(10, 100, 1), rec(-10, 110, 2)]);
    b.push_partition(1, 2, &[rec(10, 100, 1)]);
    b.push_partition(1, 3, &[rec(10, 100, 9)]);
    let c = Checkpoint::build(&table(&b), 5);
    assert_eq!(c.cutoff_day, 5);
    assert_eq!(c.lots.len(), 1);
    assert!(c.carry_for(1, 1).is_empty());
    assert_eq!(c.carry_for(1, 2).len(), 1);
    assert!(c.carry_for(1, 3).is_empty());
    assert!(c.carry_for(8, 8).is_empty());
}

#[test]
fn names_tell_cutoffs() {
    assert_eq!(ckpt_name(15), "ckpt-00000015.json");
    assert_eq!(ckpt_name(0), "ckpt-00000000.json");
    assert_eq!(ckpt_name(-5), "ckpt--0000005.json");
    assert_eq!(ckpt_name(123_456_789), "ckpt-123456789.json");
    let store = CheckpointStore::new(String::new());
    for c in [0, 1, -1, -5, 18_262, 123_456_789, i32::MAX, i32::MIN] {
        assert_eq!(store.cutoffs(&vec![ckpt_name(c)]), vec![c]);
    }
    // a checkpoint whose name tells no number counts as cutoff 0
    assert_eq!(store.cutoffs(&vec![String::from("ckpt-x.json")]), vec![0]);
}

#[test]
fn the_nearest_checkpoint_before_a_day() {
    let store = CheckpointStore::new(String::new());
    let dir: Vec<String> = [30, 10, 20].iter().map(|&c| ckpt_name(c)).collect();
    assert_eq!(store.load_nearest_before(&dir, 10), None);
    assert_eq!(store.load_nearest_before(&dir, 11), Some(10));
    assert_eq!(store.load_nearest_before(&dir, 30), Some(20));
    assert_eq!(store.load_nearest_before(&dir, 1000), Some(30));
    assert_eq!(store.load_nearest_before(&Vec::new(), 5), None);
}

#[test]
fn a_correction_invalidates_its_day_and_later() {
    let store = CheckpointStore::new(String::new());
    let dir: Vec<String> = [30, 10, 20].iter().map(|&c| ckpt_name(c)).collect();
    assert_eq!(store.invalidated_by(&dir, 20), vec![20, 30]);
    assert_eq!(store.invalidated_by(&dir, 31), Vec::<i32>::new());
    assert_eq!(store.invalidated_by(&dir, 0), vec![10, 20, 30]);
}

#[test]
fn partition_labels_and_keys() {
    assert_eq!(part_label(7, 12), "7:12");
    assert_eq!(parse_label("7:12"), Some((7, 12)));
    assert_eq!(parse_label("18446744073709551615:4294967295"), Some((u64::MAX, u32::MAX)));
    for bad in ["", ":", "7", "7:", ":12", "07:12", "+7:12", "7:12:1", "7:4294967296", "x:1"] {
        assert_eq!(parse_label(bad), None);
    }
    assert_eq!(part_key(1, 2), (1u128 << 32) + 2);
    for &(c, s) in &[(0u64, 0u32), (1, 2), (u64::MAX, u32::MAX), (2, 1)] {
        assert_eq!(split_key(part_key(c, s)), (c, s));
    }
}
