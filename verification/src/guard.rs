//! Folds over tables that nothing is known of: each tests first what the fold
//! needs, and declines where that does not hold.

use std::collections::VecDeque;
use vstd::prelude::*;
use crate::baseline::{asked_rows, baseline_query, run_frags, scan_frags, scan_rows};
use crate::checkpoint::{can_snapshot, Checkpoint};
use crate::correction::{client_frags, trade_rows};
use crate::fifo::{
    default_desk, fold_checked, fold_frags, fold_table, lots_wf, sum_fits, summed, table_frags,
    BucketRules, Fragment, Lot, MatchPolicy, NoopSink, PartitionPnl, LONG_TERM_DAYS, MAX_BUCKETS,
};
use crate::index::covered;
use crate::matching::{
    accepts, all_tallyable, day_window, fold, joined, plain_frags, plain_recs, sized_frags, sound_lots,
    tallies, tally, tallyable, Desk,
};
use crate::packed::{
    days_ascend, days_between, lower_bound, packable, PackedTable, PackedTrade, TableModel,
};
use crate::query::{
    deref_ckpt, desk_of, first_day, loaded_upto, most_upto, part_frags, part_ready, query_frags,
    replayed, rows_upto, run_cpu, searchable, start_lots, wanted, ClientSel, Query, QueryResult,
    Span,
};
use crate::rollup::{modest, month_tally, rolled_all, PeriodTally, Rollup};
use crate::rows::{next_run, runs, starts_run, Row, Run};
use crate::schema::Trade;

verus! {

/// The least and the greatest of some days; of none, the greatest and the least
/// there are.
struct Extent {
    lo: int,
    hi: int,
}

impl Extent {
    spec fn none() -> Extent {
        Extent { lo: i32::MAX as int, hi: i32::MIN as int }
    }

    spec fn widened(self, d: int) -> Extent {
        Extent {
            lo: if d < self.lo {
                d
            } else {
                self.lo
            },
            hi: if d > self.hi {
                d
            } else {
                self.hi
            },
        }
    }

    /// All of `o` lies within.
    spec fn holds(self, o: Extent) -> bool {
        self.lo <= o.lo && o.hi <= self.hi
    }
}

spec fn recs_extent(recs: Seq<PackedTrade>, e: Extent) -> Extent
    decreases recs.len(),
{
    if recs.len() == 0 {
        e
    } else {
        recs_extent(recs.drop_last(), e).widened(recs.last().day as int)
    }
}

spec fn lots_extent(lots: Seq<Lot>, e: Extent) -> Extent
    decreases lots.len(),
{
    if lots.len() == 0 {
        e
    } else {
        lots_extent(lots.drop_last(), e).widened(lots.last().day as int)
    }
}

/// The days of the lots and of the records can be told apart in 32 bits.
spec fn days_close(lots: Seq<Lot>, recs: Seq<PackedTrade>) -> bool {
    let e = lots_extent(lots, recs_extent(recs, Extent::none()));
    day_window(e.lo, e.hi)
}

/// The number of lots carried into the first `k` partitions that the query asks
/// for.
spec fn carried_upto(m: TableModel, ckpt: Option<Checkpoint>, q: Query, k: int) -> int
    decreases k,
{
    if k <= 0 {
        0
    } else {
        carried_upto(m, ckpt, q, k - 1) + start_lots(
            m,
            ckpt,
            q,
            wanted(m, q, m.n_parts)[k - 1] as int,
        ).len()
    }
}

/// A partition that a query can replay, with lots that a fold could have left, and
/// among what is folded only days that 32 bits can tell apart.
spec fn part_plain(m: TableModel, ckpt: Option<Checkpoint>, q: Query, p: int) -> bool {
    &&& part_ready(m, ckpt, q, p)
    &&& sound_lots(start_lots(m, ckpt, q, p))
    &&& days_close(start_lots(m, ckpt, q, p), replayed(m, ckpt, q, p))
}

/// What makes it plain, before anything is folded, that a query can be answered.
spec fn plainly(m: TableModel, ckpt: Option<Checkpoint>, q: Query, rules: BucketRules) -> bool {
    let n = wanted(m, q, m.n_parts).len() as int;
    &&& m.wf()
    &&& searchable(m, q)
    &&& rules.buckets() <= MAX_BUCKETS
    &&& forall|i: int|
        0 <= i < n ==> part_plain(m, ckpt, q, (#[trigger] wanted(m, q, m.n_parts)[i]) as int)
    &&& m.n_rows + carried_upto(m, ckpt, q, n) <= u64::MAX
}

/// What a query needs of a table, a checkpoint and rules to be answered: a table
/// in order, partitions that can be replayed, as far as it asks for them, and among
/// what it counts nothing that the machine's integers cannot hold.
pub open spec fn answerable(
    m: TableModel,
    ckpt: Option<Checkpoint>,
    q: Query,
    rules: BucketRules,
    policy: MatchPolicy,
) -> bool {
    &&& m.wf()
    &&& searchable(m, q)
    &&& rules.wf()
    &&& forall|i: int|
        0 <= i < wanted(m, q, m.n_parts).len() ==> part_ready(
            m,
            ckpt,
            q,
            (#[trigger] wanted(m, q, m.n_parts)[i]) as int,
        )
    &&& all_tallyable(query_frags(m, ckpt, q, rules, policy))
}

// ---------------------------------------------------------------------------
// What follows from it
// ---------------------------------------------------------------------------

proof fn lemma_recs_extent(recs: Seq<PackedTrade>, e: Extent)
    ensures
        recs_extent(recs, e).holds(e),
        plain_recs(recs, recs_extent(recs, e).lo, recs_extent(recs, e).hi),
    decreases recs.len(),
{
    if recs.len() > 0 {
        let head = recs.drop_last();
        lemma_recs_extent(head, e);
        let x = recs_extent(recs, e);
        assert forall|i: int| 0 <= i < recs.len() implies x.lo <= (#[trigger] recs[i]).day
            <= x.hi by {
            if i < head.len() {
                assert(head[i] == recs[i]);
            }
        }
    }
}

proof fn lemma_lots_extent(lots: Seq<Lot>, e: Extent)
    ensures
        lots_extent(lots, e).holds(e),
        forall|i: int|
            0 <= i < lots.len() ==> lots_extent(lots, e).lo <= (#[trigger] lots[i]).day
                <= lots_extent(lots, e).hi,
    decreases lots.len(),
{
    if lots.len() > 0 {
        let head = lots.drop_last();
        lemma_lots_extent(head, e);
        let x = lots_extent(lots, e);
        assert forall|i: int| 0 <= i < lots.len() implies x.lo <= (#[trigger] lots[i]).day
            <= x.hi by {
            if i < head.len() {
                assert(head[i] == lots[i]);
            }
        }
    }
}

/// Folding records into lots whose days are close yields plain fragments, no more
/// than there are lots and records.
proof fn lemma_close_plain(
    desk: Desk,
    lots: Seq<Lot>,
    recs: Seq<PackedTrade>,
    count: Option<(i32, i32)>,
)
    requires
        sound_lots(lots),
        days_close(lots, recs),
        desk.rules.buckets() <= MAX_BUCKETS,
    ensures
        plain_frags(fold_frags(desk, lots, recs, count)),
        fold_frags(desk, lots, recs, count).len() <= lots.len() + recs.len(),
{
    let none = Extent::none();
    let e = lots_extent(lots, recs_extent(recs, none));
    lemma_recs_extent(recs, none);
    lemma_lots_extent(lots, recs_extent(recs, none));
    assert forall|j: int| 0 <= j < lots.len() implies {
        &&& (#[trigger] lots[j]).qty >= 0
        &&& i32::MIN <= lots[j].price_ticks <= i32::MAX
        &&& e.lo <= lots[j].day <= e.hi
    } by {}
    assert forall|j: int| 0 <= j < recs.len() implies e.lo <= (#[trigger] recs[j]).day <= e.hi by {}
    crate::matching::lemma_fold_plain(desk, lots, recs, e.lo, e.hi);
    crate::matching::lemma_counted_plain(fold(desk, lots, recs).1, count);
}

/// Such a query yields plain fragments.
proof fn lemma_part_plain(
    m: TableModel,
    ckpt: Option<Checkpoint>,
    q: Query,
    rules: BucketRules,
    policy: MatchPolicy,
    i: int,
)
    requires
        plainly(m, ckpt, q, rules),
        m.n_parts <= usize::MAX,
        0 <= i < wanted(m, q, m.n_parts).len(),
    ensures
        ({
            let p = wanted(m, q, m.n_parts)[i] as int;
            &&& plain_frags(part_frags(m, ckpt, q, rules, policy, p))
            &&& part_frags(m, ckpt, q, rules, policy, p).len() <= start_lots(m, ckpt, q, p).len()
                + replayed(m, ckpt, q, p).len()
            &&& replayed(m, ckpt, q, p).len() <= m.offsets[p + 1] - m.offsets[p]
            &&& 0 <= p < m.n_parts
        }),
{
    let p = wanted(m, q, m.n_parts)[i] as int;
    crate::query::lemma_wanted(m, q, m.n_parts);
    assert(part_plain(m, ckpt, q, p));
    crate::query::lemma_replayed_len(m, ckpt, q, p);
    lemma_close_plain(
        desk_of(m, rules, policy, p),
        start_lots(m, ckpt, q, p),
        replayed(m, ckpt, q, p),
        q.window(),
    );
}

proof fn lemma_joined_len(
    m: TableModel,
    ckpt: Option<Checkpoint>,
    q: Query,
    rules: BucketRules,
    policy: MatchPolicy,
    k: int,
)
    requires
        plainly(m, ckpt, q, rules),
        m.n_parts <= usize::MAX,
        0 <= k <= wanted(m, q, m.n_parts).len(),
    ensures
        joined(query_frags(m, ckpt, q, rules, policy).take(k)).len() <= carried_upto(m, ckpt, q, k)
            + (if k > 0 {
            m.offsets[wanted(m, q, m.n_parts)[k - 1] + 1] as int
        } else {
            0
        }),
    decreases k,
{
    let fss = query_frags(m, ckpt, q, rules, policy);
    let ps = wanted(m, q, m.n_parts);
    crate::query::lemma_wanted(m, q, m.n_parts);
    if k == 0 {
        assert(fss.take(0) =~= Seq::empty());
    } else {
        lemma_joined_len(m, ckpt, q, rules, policy, k - 1);
        crate::matching::lemma_joined_push(fss, k - 1);
        lemma_part_plain(m, ckpt, q, rules, policy, k - 1);
        let p = ps[k - 1] as int;
        if k > 1 {
            assert(ps[k - 2] < ps[k - 1]);
            assert(m.offsets[ps[k - 2] + 1] <= m.offsets[p]);
        }
    }
}

/// A query that can plainly be answered can be answered.
proof fn lemma_plainly(
    m: TableModel,
    ckpt: Option<Checkpoint>,
    q: Query,
    rules: BucketRules,
    policy: MatchPolicy,
)
    requires
        plainly(m, ckpt, q, rules),
        m.n_parts <= usize::MAX,
    ensures
        answerable(m, ckpt, q, rules, policy),
{
    let fss = query_frags(m, ckpt, q, rules, policy);
    let ps = wanted(m, q, m.n_parts);
    let n = ps.len() as int;
    crate::query::lemma_wanted(m, q, m.n_parts);
    lemma_joined_len(m, ckpt, q, rules, policy, n);
    assert(fss.take(n) =~= fss);
    if n > 0 {
        assert(m.offsets[ps[n - 1] + 1] <= m.offsets[m.n_parts]);
    }
    assert forall|i: int| 0 <= i < fss.len() implies plain_frags(#[trigger] fss[i]) by {
        lemma_part_plain(m, ckpt, q, rules, policy, i);
    }
    crate::matching::lemma_all_plain(fss);
}

/// An answerable query can replay every partition that it asks for.
proof fn lemma_all_ready(
    m: TableModel,
    ckpt: Option<Checkpoint>,
    q: Query,
    rules: BucketRules,
    policy: MatchPolicy,
)
    requires
        answerable(m, ckpt, q, rules, policy),
        m.n_parts <= usize::MAX,
    ensures
        forall|p: int|
            0 <= p < m.n_parts && q.wants(m.clients[p], #[trigger] m.symbols[p]) ==> part_ready(
                m,
                ckpt,
                q,
                p,
            ),
{
    let ps = wanted(m, q, m.n_parts);
    crate::query::lemma_wanted(m, q, m.n_parts);
    assert forall|p: int|
        0 <= p < m.n_parts && q.wants(m.clients[p], #[trigger] m.symbols[p]) implies part_ready(
        m,
        ckpt,
        q,
        p,
    ) by {
        assert(ps.contains(p as usize));
        let i = choose|i: int| 0 <= i < ps.len() && ps[i] == p as usize;
        assert(part_ready(m, ckpt, q, ps[i] as int));
    }
}

/// The first `j` folds can be tallied, one by one and together.
spec fn tallied_upto(fss: Seq<Seq<Fragment>>, j: int) -> bool {
    &&& forall|i: int| 0 <= i < j ==> tallyable(#[trigger] fss[i])
    &&& forall|k: int, b: int|
        0 <= k <= j && 0 <= b < MAX_BUCKETS ==> (#[trigger] tally(joined(fss.take(k)), b)).fits()
}

proof fn lemma_tallied_none(fss: Seq<Seq<Fragment>>)
    ensures
        tallied_upto(fss, 0),
        tallies(joined(fss.take(0))) == tallies(Seq::empty()),
{
    assert(fss.take(0) =~= Seq::empty());
    assert forall|k: int, b: int| 0 <= k <= 0 && 0 <= b < MAX_BUCKETS implies (#[trigger] tally(
        joined(fss.take(k)),
        b,
    )).fits() by {
        assert(fss.take(k) =~= Seq::empty());
    }
}

/// One more fold: the sums over the first few either hold it, or they cannot all be
/// tallied.
proof fn lemma_tallied_next(fss: Seq<Seq<Fragment>>, j: int)
    requires
        0 <= j < fss.len(),
        tallied_upto(fss, j),
        tallyable(fss[j]),
    ensures
        ({
            let sums = tallies(joined(fss.take(j)));
            let part = tallies(fss[j]);
            &&& sum_fits(sums, part) ==> tallied_upto(fss, j + 1)
            &&& summed(sums, part) == tallies(joined(fss.take(j + 1)))
            &&& !sum_fits(sums, part) ==> !all_tallyable(fss)
        }),
{
    let sums = tallies(joined(fss.take(j)));
    let part = tallies(fss[j]);
    crate::matching::lemma_joined_push(fss, j);
    assert(summed(sums, part) =~= tallies(joined(fss.take(j + 1)))) by {
        assert forall|b: int| 0 <= b < MAX_BUCKETS implies summed(sums, part)[b] == tallies(
            joined(fss.take(j + 1)),
        )[b] by {
            crate::matching::lemma_tally_append(joined(fss.take(j)), fss[j], b);
        }
    }
    if sum_fits(sums, part) {
        assert forall|k: int, b: int|
            0 <= k <= j + 1 && 0 <= b < MAX_BUCKETS implies (#[trigger] tally(
            joined(fss.take(k)),
            b,
        )).fits() by {
            if k == j + 1 {
                assert(sums[b].plus(part[b]).fits());
                assert(summed(sums, part)[b] == tallies(joined(fss.take(j + 1)))[b]);
            }
        }
    } else {
        let b = choose|b: int| 0 <= b < MAX_BUCKETS && !(#[trigger] sums[b]).plus(part[b]).fits();
        assert(summed(sums, part)[b] == tallies(joined(fss.take(j + 1)))[b]);
        assert(!tally(joined(fss.take(j + 1)), b).fits());
    }
}

// ---------------------------------------------------------------------------
// Tests
// ---------------------------------------------------------------------------

/// Whether days never go back.
pub fn days_in_order(recs: &[PackedTrade]) -> (r: bool)
    ensures
        r == days_ascend(recs@),
        r <==> forall|i: int, j: int| 0 <= i <= j < recs@.len() ==> recs@[i].day <= recs@[j].day,
{
    let mut i: usize = 1;
    while i < recs.len()
        invariant
            1 <= i,
            i <= recs@.len() || recs@.len() == 0,
            forall|a: int, b: int| 0 <= a <= b < i && b < recs@.len() ==> recs@[a].day
                <= recs@[b].day,
        decreases recs@.len() - i,
    {
        if recs[i - 1].day > recs[i].day {
            assert(recs@[i - 1].day > recs@[i as int].day);
            return false;
        }
        i = i + 1;
    }
    true
}

/// Whether partitions stand in ascending order, each once.
pub fn keys_in_order(table: &PackedTable) -> (r: bool)
    requires
        table@.wf(),
    ensures
        r == table@.sorted(),
        r ==> forall|a: int, b: int|
            0 <= a < b < table@.n_parts ==> (#[trigger] table@.clients[a]) < (
            #[trigger] table@.clients[b]) || table@.clients[a] == table@.clients[b]
                && table@.symbols[a] < table@.symbols[b],
{
    let ghost m = table@;
    let pc = table.part_client();
    let ps = table.part_symbol();
    let mut i: usize = 1;
    while i < pc.len()
        invariant
            m == table@,
            m.wf(),
            pc@ == m.clients,
            ps@ == m.symbols,
            1 <= i,
            i <= pc@.len() || pc@.len() == 0,
            forall|a: int, b: int|
                0 <= a < b < i && b < m.n_parts ==> #[trigger] m.key_before(a, b),
        decreases pc@.len() - i,
    {
        let ok = pc[i - 1] < pc[i] || pc[i - 1] == pc[i] && ps[i - 1] < ps[i];
        if !ok {
            assert(!m.key_before(i - 1, i as int));
            return false;
        }
        proof {
            assert forall|a: int, b: int|
                0 <= a < b < i + 1 && b < m.n_parts implies #[trigger] m.key_before(a, b) by {
                if b == i && a < i - 1 {
                    assert(m.key_before(a, i - 1));
                    assert(m.key_before(i - 1, i as int));
                }
            }
        }
        i = i + 1;
    }
    proof {
        assert forall|a: int, b: int| 0 <= a < b < m.n_parts implies (#[trigger] m.clients[a]) < (
        #[trigger] m.clients[b]) || m.clients[a] == m.clients[b] && m.symbols[a] < m.symbols[b] by {
            assert(m.key_before(a, b));
        }
    }
    true
}

/// Whether every row of the table belongs to a partition.
pub fn is_covered(table: &PackedTable) -> (r: bool)
    ensures
        r == covered(table@),
{
    if !table.is_wf() {
        return false;
    }
    let off = table.part_offset();
    let n: usize = off.len() - 1;
    off[n] == table.n_rows() && (table.n_rows() == 0 || table.n_parts() > 0)
}

fn check_lots(lots: &VecDeque<Lot>) -> (r: bool)
    ensures
        r == sound_lots(lots@),
{
    let mut i: usize = 0;
    while i < lots.len()
        invariant
            i <= lots@.len(),
            forall|k: int|
                0 <= k < i ==> (#[trigger] lots@[k]).qty >= 0 && i32::MIN <= lots@[k].price_ticks
                    <= i32::MAX,
        decreases lots@.len() - i,
    {
        let lot: Lot = lots[i];
        if lot.qty < 0 || lot.price_ticks < -0x8000_0000 || lot.price_ticks > 0x7fff_ffff {
            assert(lots@[i as int] == lot);
            return false;
        }
        i = i + 1;
    }
    true
}

fn widen_recs(recs: &[PackedTrade], lo: i32, hi: i32) -> (r: (i32, i32))
    ensures
        recs_extent(recs@, Extent { lo: lo as int, hi: hi as int }) == (Extent {
            lo: r.0 as int,
            hi: r.1 as int,
        }),
{
    let ghost e = Extent { lo: lo as int, hi: hi as int };
    let mut a: i32 = lo;
    let mut b: i32 = hi;
    let mut i: usize = 0;
    assert(recs@.take(0) =~= Seq::empty());
    while i < recs.len()
        invariant
            i <= recs@.len(),
            recs_extent(recs@.take(i as int), e) == (Extent { lo: a as int, hi: b as int }),
        decreases recs@.len() - i,
    {
        assert(recs@.take(i + 1).drop_last() =~= recs@.take(i as int));
        let d: i32 = recs[i].day;
        if d < a {
            a = d;
        }
        if d > b {
            b = d;
        }
        i = i + 1;
    }
    assert(recs@.take(recs@.len() as int) =~= recs@);
    (a, b)
}

fn widen_lots(lots: &VecDeque<Lot>, lo: i32, hi: i32) -> (r: (i32, i32))
    ensures
        lots_extent(lots@, Extent { lo: lo as int, hi: hi as int }) == (Extent {
            lo: r.0 as int,
            hi: r.1 as int,
        }),
{
    let ghost e = Extent { lo: lo as int, hi: hi as int };
    let mut a: i32 = lo;
    let mut b: i32 = hi;
    let mut i: usize = 0;
    assert(lots@.take(0) =~= Seq::empty());
    while i < lots.len()
        invariant
            i <= lots@.len(),
            lots_extent(lots@.take(i as int), e) == (Extent { lo: a as int, hi: b as int }),
        decreases lots@.len() - i,
    {
        assert(lots@.take(i + 1).drop_last() =~= lots@.take(i as int));
        let d: i32 = lots[i].day;
        if d < a {
            a = d;
        }
        if d > b {
            b = d;
        }
        i = i + 1;
    }
    assert(lots@.take(lots@.len() as int) =~= lots@);
    (a, b)
}

/// Whether the days of lots and records can be told apart in 32 bits.
fn are_close(lots: &VecDeque<Lot>, recs: &[PackedTrade]) -> (r: bool)
    ensures
        r == days_close(lots@, recs@),
{
    let (a, b): (i32, i32) = widen_recs(recs, i32::MAX, i32::MIN);
    let (lo, hi): (i32, i32) = widen_lots(lots, a, b);
    hi as i64 - lo as i64 <= 0x7fff_ffff
}

/// Whether it is plain that a query can be answered.
#[verifier::spinoff_prover]
fn is_plain(table: &PackedTable, ckpt: Option<&Checkpoint>, q: &Query, rules: &BucketRules) -> (r:
    bool)
    ensures
        r == plainly(table@, deref_ckpt(ckpt), *q, *rules),
{
    let ghost m = table@;
    let ghost c = deref_ckpt(ckpt);
    if !table.is_wf() {
        return false;
    }
    let in_order = match q.clients {
        ClientSel::All => true,
        ClientSel::One(_) => keys_in_order(table),
    };
    if !in_order {
        return false;
    }
    if rules.n_bounds > MAX_BUCKETS || rules.num_buckets() > MAX_BUCKETS {
        return false;
    }
    let pc = table.part_client();
    let ps = table.part_symbol();
    let _n_parts: usize = pc.len();
    let parts: Vec<usize> = crate::query::select_partitions(table, q);
    let from: i32 = match ckpt {
        Some(snap) => if snap.cutoff_day < i32::MAX {
            snap.cutoff_day + 1
        } else {
            i32::MAX
        },
        None => i32::MIN,
    };
    let mut carried: u64 = table.n_rows();
    let mut i: usize = 0;
    proof {
        crate::query::lemma_wanted(m, *q, m.n_parts);
    }
    while i < parts.len()
        invariant
            m == table@,
            c == deref_ckpt(ckpt),
            m.wf(),
            pc@ == m.clients,
            ps@ == m.symbols,
            parts@ == wanted(m, *q, m.n_parts),
            from == first_day(c),
            i <= parts@.len(),
            forall|k: int| 0 <= k < parts@.len() ==> (#[trigger] parts@[k]) < m.n_parts,
            forall|k: int|
                0 <= k < i ==> part_plain(m, c, *q, (#[trigger] parts@[k]) as int),
            carried == m.n_rows + carried_upto(m, c, *q, i as int),
        decreases parts@.len() - i,
    {
        let p: usize = parts[i];
        assert(parts@[i as int] < m.n_parts);
        assert(m.offsets[p as int] <= m.offsets[p + 1]);
        assert(m.offsets[p + 1] <= m.offsets[m.n_parts]);
        let recs = table.partition(p);
        match q.span {
            Span::Full => {
                let none: VecDeque<Lot> = VecDeque::new();
                assert(none@ =~= start_lots(m, c, *q, p as int));
                if !are_close(&none, recs) {
                    assert(!part_plain(m, c, *q, parts@[i as int] as int));
                    return false;
                }
            },
            Span::Range(_, day_hi) => {
                let lots: VecDeque<Lot> = match ckpt {
                    Some(snap) => snap.carry_for(pc[p], ps[p]),
                    None => VecDeque::new(),
                };
                assert(lots@ =~= start_lots(m, c, *q, p as int));
                if !days_in_order(recs) || !check_lots(&lots) {
                    assert(!part_plain(m, c, *q, parts@[i as int] as int));
                    return false;
                }
                if lower_bound(recs, from as i64) > lower_bound(recs, day_hi as i64 + 1) {
                    assert(!part_plain(m, c, *q, parts@[i as int] as int));
                    return false;
                }
                let replay = table.day_range(recs, from, day_hi);
                if !are_close(&lots, replay) {
                    assert(!part_plain(m, c, *q, parts@[i as int] as int));
                    return false;
                }
                let more: u64 = lots.len() as u64;
                if more > u64::MAX - carried {
                    proof {
                        lemma_carried_grows(m, c, *q, i + 1, parts@.len() as int);
                    }
                    return false;
                }
                carried = carried + more;
                assert(lots_wf(lots@)) by {
                    assert forall|k: int| 0 <= k < lots@.len() implies (#[trigger] lots@[k]).qty
                        >= 0 by {}
                }
            },
        }
        assert(part_plain(m, c, *q, p as int));
        i = i + 1;
    }
    true
}

proof fn lemma_carried_grows(m: TableModel, ckpt: Option<Checkpoint>, q: Query, j: int, k: int)
    requires
        0 <= j <= k,
    ensures
        carried_upto(m, ckpt, q, j) <= carried_upto(m, ckpt, q, k),
    decreases k,
{
    if j < k {
        lemma_carried_grows(m, ckpt, q, j, k - 1);
    }
}

fn none_negative(lots: &VecDeque<Lot>) -> (r: bool)
    ensures
        r == lots_wf(lots@),
{
    let mut i: usize = 0;
    while i < lots.len()
        invariant
            i <= lots@.len(),
            forall|k: int| 0 <= k < i ==> (#[trigger] lots@[k]).qty >= 0,
        decreases lots@.len() - i,
    {
        let lot: Lot = lots[i];
        if lot.qty < 0 {
            assert(lots@[i as int] == lot);
            return false;
        }
        i = i + 1;
    }
    true
}

/// Whether a query can be answered. Where that is not plain from the days and prices
/// of what is folded, it is folded to see.
#[verifier::spinoff_prover]
pub fn can_answer(
    table: &PackedTable,
    ckpt: Option<&Checkpoint>,
    q: &Query,
    rules: &BucketRules,
    policy: MatchPolicy,
) -> (r: bool)
    ensures
        r == answerable(table@, deref_ckpt(ckpt), *q, *rules, policy),
{
    let ghost m = table@;
    let ghost c = deref_ckpt(ckpt);
    if !table.is_wf() {
        return false;
    }
    let pc = table.part_client();
    let ps = table.part_symbol();
    let _n_parts: usize = pc.len();
    if is_plain(table, ckpt, q, rules) {
        proof {
            lemma_plainly(m, c, *q, *rules, policy);
        }
        return true;
    }
    let in_order = match q.clients {
        ClientSel::All => true,
        ClientSel::One(_) => keys_in_order(table),
    };
    if !in_order || rules.n_bounds > MAX_BUCKETS {
        return false;
    }
    let parts: Vec<usize> = crate::query::select_partitions(table, q);
    let from: i32 = match ckpt {
        Some(snap) => if snap.cutoff_day < i32::MAX {
            snap.cutoff_day + 1
        } else {
            i32::MAX
        },
        None => i32::MIN,
    };
    let ghost fss = query_frags(m, c, *q, *rules, policy);
    let mut total = PartitionPnl::default();
    let mut i: usize = 0;
    proof {
        crate::query::lemma_wanted(m, *q, m.n_parts);
        lemma_tallied_none(fss);
    }
    while i < parts.len()
        invariant
            m == table@,
            c == deref_ckpt(ckpt),
            m.wf(),
            rules.wf(),
            pc@ == m.clients,
            ps@ == m.symbols,
            parts@ == wanted(m, *q, m.n_parts),
            fss == query_frags(m, c, *q, *rules, policy),
            fss.len() == parts@.len(),
            from == first_day(c),
            i <= parts@.len(),
            forall|k: int| 0 <= k < parts@.len() ==> (#[trigger] parts@[k]) < m.n_parts,
            forall|k: int| 0 <= k < i ==> part_ready(m, c, *q, (#[trigger] parts@[k]) as int),
            tallied_upto(fss, i as int),
            total@ == tallies(joined(fss.take(i as int))),
        decreases parts@.len() - i,
    {
        let p: usize = parts[i];
        assert(parts@[i as int] < m.n_parts);
        assert(m.offsets[p as int] <= m.offsets[p + 1]);
        assert(m.offsets[p + 1] <= m.offsets[m.n_parts]);
        assert(fss[i as int] == part_frags(m, c, *q, *rules, policy, p as int));
        let client: u64 = pc[p];
        let symbol: u32 = ps[p];
        let recs = table.partition(p);
        let folded = match q.span {
            Span::Full => fold_checked(client, symbol, VecDeque::new(), recs, None, rules, policy),
            Span::Range(lo, hi) => {
                let lots: VecDeque<Lot> = match ckpt {
                    Some(snap) => snap.carry_for(client, symbol),
                    None => VecDeque::new(),
                };
                assert(lots@ =~= start_lots(m, c, *q, p as int));
                if !days_in_order(recs) || !none_negative(&lots) || lower_bound(recs, from as i64)
                    > lower_bound(recs, hi as i64 + 1) {
                    assert(!part_ready(m, c, *q, parts@[i as int] as int));
                    return false;
                }
                let replay = table.day_range(recs, from, hi);
                fold_checked(client, symbol, lots, replay, Some((lo, hi)), rules, policy)
            },
        };
        assert(part_ready(m, c, *q, p as int));
        match folded {
            Some(part) => {
                proof {
                    lemma_tallied_next(fss, i as int);
                }
                if !total.try_merge(&part) {
                    return false;
                }
            },
            None => {
                assert(!tallyable(fss[i as int]));
                return false;
            },
        }
        i = i + 1;
    }
    true
}

/// Answer a query over a table that nothing is known of: `None` where it cannot
/// be answered.
pub fn try_query(
    table: &PackedTable,
    ckpt: Option<&Checkpoint>,
    q: &Query,
    rules: &BucketRules,
    policy: MatchPolicy,
) -> (r: Option<QueryResult>)
    ensures
        r is Some <==> answerable(table@, deref_ckpt(ckpt), *q, *rules, policy),
        r matches Some(out) ==> {
            let c = deref_ckpt(ckpt);
            let n = wanted(table@, *q, table@.n_parts).len() as int;
            &&& out.pnl@ == tallies(joined(query_frags(table@, c, *q, *rules, policy)))
            &&& out.rows_touched == rows_upto(table@, c, *q, n)
            &&& out.partition_fanout == n
            &&& out.max_partition_rows == most_upto(table@, c, *q, n)
            &&& out.checkpoints_loaded == loaded_upto(table@, c, *q, n)
        },
{
    if !can_answer(table, ckpt, q, rules, policy) {
        return None;
    }
    let _n_parts: usize = table.part_client().len();
    let mut sink = NoopSink;
    proof {
        let c = deref_ckpt(ckpt);
        lemma_all_ready(table@, c, *q, *rules, policy);
        crate::fifo::lemma_noop_accepts(sink, joined(query_frags(table@, c, *q, *rules, policy)));
    }
    Some(run_cpu(table, ckpt, q, &mut sink, rules, policy))
}

// ---------------------------------------------------------------------------
// Whole tables
// ---------------------------------------------------------------------------

/// Every record of a table.
pub open spec fn everything() -> Query {
    Query { clients: ClientSel::All, symbol: None, span: Span::Full }
}

/// What folding a whole table needs of it: nothing to count that the machine's
/// integers cannot hold.
pub open spec fn foldable(m: TableModel) -> bool {
    &&& m.wf()
    &&& all_tallyable(table_frags(m))
}

proof fn lemma_everything(m: TableModel, n: int)
    requires
        0 <= n <= m.n_parts,
        m.n_parts <= usize::MAX,
    ensures
        wanted(m, everything(), n) == Seq::new(n as nat, |i: int| i as usize),
    decreases n,
{
    if n > 0 {
        lemma_everything(m, n - 1);
    }
    assert(wanted(m, everything(), n) =~= Seq::new(n as nat, |i: int| i as usize));
}

/// Folding a whole table is asking for everything.
proof fn lemma_foldable(m: TableModel)
    requires
        m.wf(),
        m.n_parts <= usize::MAX,
    ensures
        foldable(m) == answerable(
            m,
            None,
            everything(),
            BucketRules::equity_rules(LONG_TERM_DAYS),
            MatchPolicy::Fifo,
        ),
{
    let q = everything();
    let rules = BucketRules::equity_rules(LONG_TERM_DAYS);
    lemma_everything(m, m.n_parts);
    let fss = query_frags(m, None, q, rules, MatchPolicy::Fifo);
    assert(fss =~= table_frags(m)) by {
        assert forall|p: int| 0 <= p < m.n_parts implies fss[p] == table_frags(m)[p] by {
            assert(wanted(m, q, m.n_parts)[p] == p as usize);
        }
    }
}

/// Whether a whole table can be folded.
pub fn can_fold(table: &PackedTable) -> (r: bool)
    ensures
        r == foldable(table@),
{
    if !table.is_wf() {
        return false;
    }
    let _n_parts: usize = table.part_client().len();
    proof {
        lemma_foldable(table@);
    }
    let q = Query { clients: ClientSel::All, symbol: None, span: Span::Full };
    can_answer(table, None, &q, &BucketRules::default(), MatchPolicy::Fifo)
}

/// Whether a table can be snapshot at a cutoff.
pub fn can_checkpoint(table: &PackedTable, cutoff: i32) -> (r: bool)
    ensures
        r == can_snapshot(table@, cutoff),
{
    let ghost m = table@;
    if !table.is_wf() {
        return false;
    }
    let pc = table.part_client();
    let ps = table.part_symbol();
    let n: usize = pc.len();
    let rules = BucketRules::default();
    let mut p: usize = 0;
    while p < n
        invariant
            m == table@,
            m.wf(),
            pc@ == m.clients,
            ps@ == m.symbols,
            n == m.n_parts,
            p <= n,
            rules == BucketRules::equity_rules(LONG_TERM_DAYS),
            forall|k: int|
                0 <= k < p ==> days_ascend(#[trigger] m.part(k)) && tallyable(
                    fold_frags(
                        default_desk(m.clients[k], m.symbols[k]),
                        Seq::empty(),
                        days_between(m.part(k), i32::MIN as int, cutoff as int),
                        None,
                    ),
                ),
        decreases n - p,
    {
        assert(m.offsets[p as int] <= m.offsets[p + 1]);
        assert(m.offsets[p + 1] <= m.offsets[m.n_parts]);
        let recs = table.partition(p);
        if !days_in_order(recs) {
            assert(!days_ascend(m.part(p as int)));
            return false;
        }
        proof {
            crate::packed::lemma_cut_mono(recs@, i32::MIN as int, cutoff + 1);
        }
        let replay = table.day_range(recs, i32::MIN, cutoff);
        let none: VecDeque<Lot> = VecDeque::new();
        assert(none@ =~= Seq::empty());
        if are_close(&none, replay) {
            let _len: usize = replay.len();
            proof {
                let desk = default_desk(m.clients[p as int], m.symbols[p as int]);
                lemma_close_plain(desk, Seq::empty(), replay@, None);
                crate::matching::lemma_plain_tallyable(
                    fold_frags(desk, Seq::empty(), replay@, None),
                );
            }
        } else if fold_checked(pc[p], ps[p], none, replay, None, &rules, MatchPolicy::Fifo).is_none() {
            assert(m.part(p as int) == recs@);
            return false;
        }
        p = p + 1;
    }
    true
}

/// The fragments of the first partitions are no more than their records, of the size
/// of records.
proof fn lemma_table_sized(m: TableModel, k: int)
    requires
        m.wf(),
        0 <= k <= m.n_parts,
    ensures
        joined(table_frags(m).take(k)).len() <= m.offsets[k],
        forall|p: int| 0 <= p < k ==> sized_frags(#[trigger] table_frags(m)[p]),
    decreases k,
{
    let fss = table_frags(m);
    if k > 0 {
        lemma_table_sized(m, k - 1);
        crate::matching::lemma_joined_push(fss, k - 1);
        let desk = default_desk(m.clients[k - 1], m.symbols[k - 1]);
        let recs = m.part(k - 1);
        assert(m.offsets[k - 1] <= m.offsets[k]);
        assert(m.offsets[k] <= m.offsets[m.n_parts]);
        crate::matching::lemma_fold_sized(desk, Seq::empty(), recs);
        crate::matching::lemma_counted_sized(fold(desk, Seq::empty(), recs).1, None);
    } else {
        assert(fss.take(0) =~= Seq::empty());
    }
}

/// A new rollup takes what any table yields.
proof fn lemma_rollup_takes(m: TableModel, r: Rollup)
    requires
        m.wf(),
        m.n_rows <= u64::MAX,
        r@ == Map::<i32, PeriodTally>::empty(),
    ensures
        accepts(r, joined(table_frags(m))),
{
    let fss = table_frags(m);
    lemma_table_sized(m, m.n_parts);
    assert(fss.take(m.n_parts) =~= fss);
    crate::matching::lemma_joined_sized(fss);
    crate::rollup::lemma_table_buckets(m);
    assert forall|k: i32| modest(#[trigger] month_tally(r@, k), 0) by {}
    crate::rollup::lemma_rollup_accepts(r, joined(fss), 0);
}

/// Fold a whole table that nothing is known of into a rollup: `None` where it
/// cannot be folded.
pub fn try_rollup(table: &PackedTable) -> (r: Option<(Rollup, PartitionPnl)>)
    ensures
        r is Some <==> foldable(table@),
        r matches Some((roll, total)) ==> {
            &&& roll@ == rolled_all(Map::empty(), joined(table_frags(table@)))
            &&& total@ == tallies(joined(table_frags(table@)))
        },
{
    if !can_fold(table) {
        return None;
    }
    let _n_parts: usize = table.part_client().len();
    let _n_rows: u64 = table.n_rows();
    let mut roll = Rollup::new();
    let ghost new = roll;
    proof {
        lemma_rollup_takes(table@, roll);
    }
    let total = fold_table(table, &mut roll);
    proof {
        crate::rollup::lemma_rollup_took(new, joined(table_frags(table@)), roll);
    }
    Some((roll, total))
}

// ---------------------------------------------------------------------------
// Rows
// ---------------------------------------------------------------------------

/// What a query needs of rows to scan them: nothing to count that the machine's
/// integers cannot hold.
pub open spec fn scannable(rows: Seq<Row>, q: Query) -> bool {
    all_tallyable(scan_frags(runs(rows), q, runs(rows).len() as int))
}

/// In each run that the query asks for, days that 32 bits can tell apart.
spec fn rows_close(rows: Seq<Row>, q: Query) -> bool {
    forall|i: int|
        0 <= i < runs(rows).len() && q.wants(
            (#[trigger] runs(rows)[i]).client,
            runs(rows)[i].symbol,
        ) ==> days_close(Seq::empty(), runs(rows)[i].recs)
}

proof fn lemma_scan_plain(rs: Seq<Run>, q: Query, k: int)
    requires
        0 <= k <= rs.len(),
        forall|i: int|
            0 <= i < rs.len() && q.wants((#[trigger] rs[i]).client, rs[i].symbol) ==> days_close(
                Seq::empty(),
                rs[i].recs,
            ),
    ensures
        forall|i: int|
            0 <= i < scan_frags(rs, q, k).len() ==> plain_frags(#[trigger] scan_frags(rs, q, k)[i]),
        joined(scan_frags(rs, q, k)).len() <= scan_rows(rs, q, k),
    decreases k,
{
    if k > 0 {
        lemma_scan_plain(rs, q, k - 1);
        let run = rs[k - 1];
        let before = scan_frags(rs, q, k - 1);
        let now = scan_frags(rs, q, k);
        if q.wants(run.client, run.symbol) {
            lemma_close_plain(
                default_desk(run.client, run.symbol),
                Seq::empty(),
                run.recs,
                q.window(),
            );
            assert(now.drop_last() =~= before);
            assert forall|i: int| 0 <= i < now.len() implies plain_frags(#[trigger] now[i]) by {
                if i < before.len() {
                    assert(now[i] == before[i]);
                }
            }
        }
    }
}

/// Rows whose days are close can be scanned.
proof fn lemma_rows_close(rows: Seq<Row>, q: Query)
    requires
        rows_close(rows, q),
        rows.len() <= u64::MAX,
    ensures
        scannable(rows, q),
{
    crate::baseline::lemma_scan_counts_rows(rows, q);
    crate::baseline::lemma_asked_rows(rows, q);
    lemma_scan_plain(runs(rows), q, runs(rows).len() as int);
    crate::matching::lemma_all_plain(scan_frags(runs(rows), q, runs(rows).len() as int));
}

/// Whether in each run that the query asks for 32 bits can tell the days apart.
fn are_rows_close(rows: &[Row], q: &Query) -> (r: bool)
    ensures
        r == rows_close(rows@, *q),
{
    let ghost all = runs(rows@);
    let none: VecDeque<Lot> = VecDeque::new();
    assert(none@ =~= Seq::empty());
    let n: usize = rows.len();
    let mut from: usize = 0;
    let ghost mut k: int = 0;
    assert(rows@.take(0) =~= Seq::empty());
    while from < n
        invariant
            n == rows@.len(),
            from <= n,
            starts_run(rows@, from as int),
            all == runs(rows@),
            none@ == Seq::<Lot>::empty(),
            k == runs(rows@.take(from as int)).len(),
            0 <= k <= all.len(),
            forall|i: int|
                0 <= i < k && q.wants((#[trigger] all[i]).client, all[i].symbol) ==> days_close(
                    Seq::empty(),
                    all[i].recs,
                ),
        decreases n - from,
    {
        let (recs, to): (Vec<PackedTrade>, usize) = next_run(rows, from);
        let client: u64 = rows[from].client;
        let symbol: u32 = rows[from].symbol;
        proof {
            crate::baseline::lemma_scan_grows(rows@, to as int);
            assert(runs(rows@.take(to as int))[k] == all[k]);
            assert(all[k] == Run { client, symbol, recs: recs@ });
        }
        if crate::baseline::matches(q, client, symbol) && !are_close(&none, recs.as_slice()) {
            assert(!days_close(Seq::empty(), runs(rows@)[k].recs));
            return false;
        }
        from = to;
        proof {
            k = k + 1;
        }
    }
    assert(rows@.take(n as int) =~= rows@);
    true
}

/// Whether a query can be answered by scanning rows. Where that is not plain from
/// their days, they are folded to see.
#[verifier::spinoff_prover]
pub fn can_scan(rows: &[Row], q: &Query) -> (r: bool)
    ensures
        r == scannable(rows@, *q),
{
    let n: usize = rows.len();
    if are_rows_close(rows, q) {
        proof {
            lemma_rows_close(rows@, *q);
        }
        return true;
    }
    let count: Option<(i32, i32)> = match q.span {
        Span::Full => None,
        Span::Range(lo, hi) => Some((lo, hi)),
    };
    let rules = BucketRules::default();
    let ghost all = runs(rows@);
    let ghost fss = scan_frags(all, *q, all.len() as int);
    let mut total = PartitionPnl::default();
    let mut from: usize = 0;
    let ghost mut k: int = 0;
    proof {
        assert(rows@.take(0) =~= Seq::empty());
        lemma_tallied_none(fss);
    }
    while from < n
        invariant
            n == rows@.len(),
            from <= n,
            starts_run(rows@, from as int),
            all == runs(rows@),
            fss == scan_frags(all, *q, all.len() as int),
            count == q.window(),
            rules == BucketRules::equity_rules(LONG_TERM_DAYS),
            k == runs(rows@.take(from as int)).len(),
            0 <= k <= all.len(),
            scan_frags(all, *q, k).len() <= fss.len(),
            tallied_upto(fss, scan_frags(all, *q, k).len() as int),
            total@ == tallies(joined(fss.take(scan_frags(all, *q, k).len() as int))),
        decreases n - from,
    {
        let (recs, to): (Vec<PackedTrade>, usize) = next_run(rows, from);
        let client: u64 = rows[from].client;
        let symbol: u32 = rows[from].symbol;
        proof {
            crate::baseline::lemma_scan_grows(rows@, to as int);
            assert(runs(rows@.take(to as int))[k] == all[k]);
            assert(all[k] == Run { client, symbol, recs: recs@ });
            crate::baseline::lemma_scan_is_prefix(all, *q, k + 1);
        }
        if crate::baseline::matches(q, client, symbol) {
            let ghost before = scan_frags(all, *q, k);
            let ghost j = before.len() as int;
            proof {
                let now = scan_frags(all, *q, k + 1);
                assert(now == before.push(run_frags(all[k], q.window())));
                assert(fss.take(j + 1) =~= now);
                assert(fss[j] == fss.take(j + 1)[j]);
            }
            let none: VecDeque<Lot> = VecDeque::new();
            assert(none@ =~= Seq::empty());
            match fold_checked(
                client,
                symbol,
                none,
                recs.as_slice(),
                count,
                &rules,
                MatchPolicy::Fifo,
            ) {
                Some(part) => {
                    proof {
                        lemma_tallied_next(fss, j);
                    }
                    if !total.try_merge(&part) {
                        return false;
                    }
                },
                None => {
                    assert(!tallyable(fss[j]));
                    return false;
                },
            }
        }
        from = to;
        proof {
            k = k + 1;
        }
    }
    assert(rows@.take(n as int) =~= rows@);
    true
}

/// Answer a query by scanning rows that nothing is known of: `None` where they
/// cannot be scanned.
pub fn try_baseline(rows: &[Row], q: &Query) -> (r: Option<(PartitionPnl, u64)>)
    ensures
        r is Some <==> scannable(rows@, *q),
        r matches Some((pnl, touched)) ==> {
            &&& pnl@ == tallies(joined(scan_frags(runs(rows@), *q, runs(rows@).len() as int)))
            &&& touched == asked_rows(rows@, *q)
        },
{
    if !can_scan(rows, q) {
        return None;
    }
    let _n: usize = rows.len();
    Some(baseline_query(rows, q))
}

/// What folding a client's trades needs of them.
pub open spec fn recomputable(client: u64, trades: Seq<Trade>) -> bool {
    &&& forall|i: int| 0 <= i < trades.len() ==> packable(#[trigger] trades[i])
    &&& all_tallyable(client_frags(client, trades))
}

/// Whether a client's trades can be folded.
pub fn can_recompute(client: u64, trades: &[Trade]) -> (r: bool)
    ensures
        r == recomputable(client, trades@),
{
    let mut rows: Vec<Row> = Vec::new();
    let mut i: usize = 0;
    assert(trade_rows(client, trades@.take(0)) =~= Seq::empty());
    while i < trades.len()
        invariant
            i <= trades@.len(),
            forall|k: int| 0 <= k < i ==> packable(#[trigger] trades@[k]),
            rows@ == trade_rows(client, trades@.take(i as int)),
        decreases trades@.len() - i,
    {
        let t: Trade = trades[i];
        if !PackedTrade::fits_record(&t) {
            assert(!packable(trades@[i as int]));
            return false;
        }
        rows.push(Row { client, symbol: t.symbol_id, rec: PackedTrade::from_trade(&t) });
        i = i + 1;
        assert(rows@ =~= trade_rows(client, trades@.take(i as int)));
    }
    assert(trades@.take(trades@.len() as int) =~= trades@);
    let _n: usize = rows.len();
    let q = Query { clients: ClientSel::One(client), symbol: None, span: Span::Full };
    let ok = can_scan(rows.as_slice(), &q);
    proof {
        crate::correction::lemma_client_is_scan(client, trades@);
    }
    ok
}

// ---------------------------------------------------------------------------
// Laws
// ---------------------------------------------------------------------------

proof fn lemma_extent_within(recs: Seq<PackedTrade>, lo: int, hi: int)
    requires
        forall|i: int| 0 <= i < recs.len() ==> lo <= (#[trigger] recs[i]).day <= hi,
        lo <= i32::MAX,
        i32::MIN <= hi,
    ensures
        lo <= recs_extent(recs, Extent::none()).lo,
        recs_extent(recs, Extent::none()).hi <= hi,
    decreases recs.len(),
{
    if recs.len() > 0 {
        let head = recs.drop_last();
        assert forall|i: int| 0 <= i < head.len() implies lo <= (#[trigger] head[i]).day <= hi by {
            assert(head[i] == recs[i]);
        }
        lemma_extent_within(head, lo, hi);
        assert(lo <= recs[recs.len() - 1].day <= hi);
    }
}

/// Days within a billion of the epoch can be told apart in 32 bits.
proof fn lemma_ordinary_days_close(recs: Seq<PackedTrade>)
    requires
        forall|i: int|
            0 <= i < recs.len() ==> -1_000_000_000 <= (#[trigger] recs[i]).day <= 1_000_000_000,
    ensures
        days_close(Seq::empty(), recs),
{
    lemma_extent_within(recs, -1_000_000_000, 1_000_000_000);
}

proof fn lemma_nothing_carried(m: TableModel, q: Query, k: int)
    ensures
        carried_upto(m, None, q, k) == 0,
    decreases k,
{
    if k > 0 {
        lemma_nothing_carried(m, q, k - 1);
    }
}

/// No ordinary query is declined: over a table in order, whose days lie within a
/// billion of the epoch, every query is answered without a checkpoint, whatever the
/// quantities and prices, under any rules of eight buckets or fewer and any policy.
pub proof fn lemma_ordinary_query_is_answered(
    m: TableModel,
    q: Query,
    rules: BucketRules,
    policy: MatchPolicy,
)
    requires
        m.wf(),
        m.sorted() || q.clients is All,
        m.n_parts <= usize::MAX,
        m.n_rows <= u64::MAX,
        rules.buckets() <= 8,
        forall|i: int|
            0 <= i < m.n_rows ==> -1_000_000_000 <= (#[trigger] m.records[i]).day
                <= 1_000_000_000,
        q.span is Range ==> forall|p: int|
            0 <= p < m.n_parts ==> days_ascend(#[trigger] m.part(p)),
    ensures
        answerable(m, None, q, rules, policy),
{
    let ps = wanted(m, q, m.n_parts);
    let n = ps.len() as int;
    crate::query::lemma_wanted(m, q, m.n_parts);
    lemma_nothing_carried(m, q, n);
    assert forall|i: int| 0 <= i < n implies part_plain(m, None, q, (#[trigger] ps[i]) as int) by {
        let p = ps[i] as int;
        let part = m.part(p);
        assert(m.offsets[p] <= m.offsets[p + 1]);
        assert(m.offsets[p + 1] <= m.offsets[m.n_parts]);
        assert forall|k: int| 0 <= k < part.len() implies -1_000_000_000 <= (#[trigger] part[k]).day
            <= 1_000_000_000 by {
            assert(part[k] == m.records[m.offsets[p] + k]);
        }
        match q.span {
            Span::Full => {
                lemma_ordinary_days_close(part);
            },
            Span::Range(lo, hi) => {
                assert(days_ascend(part));
                crate::query::lemma_no_checkpoint_is_truth(m, q, rules, policy, p, lo, hi);
                crate::packed::lemma_cut(part, first_day(None));
                crate::packed::lemma_cut(part, hi + 1);
                let recs = replayed(m, None, q, p);
                assert forall|k: int| 0 <= k < recs.len() implies -1_000_000_000 <= (
                #[trigger] recs[k]).day <= 1_000_000_000 by {
                    assert(recs[k] == part[crate::packed::cut(part, first_day(None)) + k]);
                }
                lemma_ordinary_days_close(recs);
            },
        }
    }
    lemma_plainly(m, None, q, rules, policy);
}

/// No ordinary table is declined: one whose days lie within a billion of the epoch is
/// folded, whatever its quantities and prices.
pub proof fn lemma_ordinary_table_is_folded(m: TableModel)
    requires
        m.wf(),
        m.n_parts <= usize::MAX,
        m.n_rows <= u64::MAX,
        forall|i: int|
            0 <= i < m.n_rows ==> -1_000_000_000 <= (#[trigger] m.records[i]).day
                <= 1_000_000_000,
    ensures
        foldable(m),
{
    lemma_foldable(m);
    lemma_ordinary_query_is_answered(
        m,
        everything(),
        BucketRules::equity_rules(LONG_TERM_DAYS),
        MatchPolicy::Fifo,
    );
}

/// No ordinary rows are declined: those whose days lie within a billion of the epoch
/// are scanned for any query.
pub proof fn lemma_ordinary_rows_are_scanned(rows: Seq<Row>, q: Query)
    requires
        rows.len() <= u64::MAX,
        forall|i: int|
            0 <= i < rows.len() ==> -1_000_000_000 <= (#[trigger] rows[i]).rec.day
                <= 1_000_000_000,
    ensures
        scannable(rows, q),
{
    assert forall|k: int|
        0 <= k < runs(rows).len() && q.wants(
            (#[trigger] runs(rows)[k]).client,
            runs(rows)[k].symbol,
        ) implies days_close(Seq::empty(), runs(rows)[k].recs) by {
        let (a, b) = crate::rows::lemma_run_is_block(rows, k);
        let recs = runs(rows)[k].recs;
        assert forall|i: int| 0 <= i < recs.len() implies -1_000_000_000 <= (
        #[trigger] recs[i]).day <= 1_000_000_000 by {
            assert(rows[a + i].rec == recs[a + i - a]);
        }
        lemma_ordinary_days_close(recs);
    }
    lemma_rows_close(rows, q);
}

/// No ordinary client is declined: trades whose quantities fit a record are folded
/// anew, at any price and on any day that a timestamp can tell.
pub proof fn lemma_ordinary_client_is_recomputed(client: u64, trades: Seq<Trade>)
    requires
        trades.len() <= u64::MAX,
        forall|i: int| 0 <= i < trades.len() ==> packable(#[trigger] trades[i]),
    ensures
        recomputable(client, trades),
{
    let rows = trade_rows(client, trades);
    let q = crate::correction::client_query(client);
    assert forall|i: int| 0 <= i < rows.len() implies -1_000_000_000 <= (#[trigger] rows[i]).rec.day
        <= 1_000_000_000 by {
        assert(rows[i].rec == crate::packed::packed_of(trades[i]));
        assert(-1_000_000_000 <= crate::packed::day_of(trades[i].ts_micros as int)
            <= 1_000_000_000);
    }
    lemma_ordinary_rows_are_scanned(rows, q);
    crate::correction::lemma_client_is_scan(client, trades);
}

/// No ordinary table is declined a checkpoint: one in day order, whose days lie within
/// a billion of the epoch, can be snapshot at any cutoff.
pub proof fn lemma_ordinary_table_is_snapshot(m: TableModel, cutoff: i32)
    requires
        m.wf(),
        m.n_rows <= u64::MAX,
        forall|i: int|
            0 <= i < m.n_rows ==> -1_000_000_000 <= (#[trigger] m.records[i]).day
                <= 1_000_000_000,
        forall|p: int| 0 <= p < m.n_parts ==> days_ascend(#[trigger] m.part(p)),
    ensures
        can_snapshot(m, cutoff),
{
    assert forall|p: int| 0 <= p < m.n_parts implies days_ascend(#[trigger] m.part(p))
        && tallyable(
        fold_frags(
            default_desk(m.clients[p], m.symbols[p]),
            Seq::empty(),
            days_between(m.part(p), i32::MIN as int, cutoff as int),
            None,
        ),
    ) by {
        let part = m.part(p);
        let from = i32::MIN as int;
        assert(m.offsets[p] <= m.offsets[p + 1]);
        assert(m.offsets[p + 1] <= m.offsets[m.n_parts]);
        crate::packed::lemma_cut(part, from);
        crate::packed::lemma_cut(part, cutoff + 1);
        crate::packed::lemma_cut_mono(part, from, cutoff + 1);
        let recs = days_between(part, from, cutoff as int);
        assert forall|k: int| 0 <= k < recs.len() implies -1_000_000_000 <= (#[trigger] recs[k]).day
            <= 1_000_000_000 by {
            let i = crate::packed::cut(part, from) + k;
            assert(recs[k] == part[i]);
            assert(part[i] == m.records[m.offsets[p] + i]);
        }
        lemma_ordinary_days_close(recs);
        let desk = default_desk(m.clients[p], m.symbols[p]);
        lemma_close_plain(desk, Seq::empty(), recs, None);
        crate::matching::lemma_plain_tallyable(fold_frags(desk, Seq::empty(), recs, None));
    }
}

/// A query that is answered without a checkpoint is answered from one that serves it.
pub proof fn lemma_checkpoint_is_no_hindrance(
    m: TableModel,
    ckpt: Checkpoint,
    q: Query,
    rules: BucketRules,
)
    requires
        m.distinct(),
        m.n_parts <= usize::MAX,
        crate::query::served_by(m, ckpt, q),
        answerable(m, None, q, rules, MatchPolicy::Fifo),
    ensures
        answerable(m, Some(ckpt), q, rules, MatchPolicy::Fifo),
{
    crate::query::lemma_wanted(m, q, m.n_parts);
    crate::query::lemma_checkpoint_changes_nothing(m, ckpt, q, rules);
    assert forall|i: int| 0 <= i < wanted(m, q, m.n_parts).len() implies part_ready(
        m,
        Some(ckpt),
        q,
        (#[trigger] wanted(m, q, m.n_parts)[i]) as int,
    ) by {
        let p = wanted(m, q, m.n_parts)[i] as int;
        assert(q.wants(m.clients[p], m.symbols[p]));
    }
}

} // verus!
