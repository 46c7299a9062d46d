//! The rollup: what was realized in each month, over all clients.
//!
//! It is a sink, filled by the same fold that answers queries. Once filled, an
//! aggregate over months is a lookup.

use std::collections::BTreeMap;
use vstd::prelude::*;
use vstd::std_specs::cmp::OrdSpec;
use vstd::std_specs::iter::IteratorSpec;
use crate::calendar::{
    civil_fits, civil_from_days, dash_parts, day_number, is_date, month_start, read_date, DateError,
};
use crate::fifo::{default_desk, table_frags, BucketPnl, Fragment, FragmentSink};
use crate::matching::{
    accepts, joined, modest_tally, sized_frag, sized_frags, tallies, tally, tally_one, took_all,
    within_buckets, Tally,
};
use crate::packed::TableModel;
use crate::text::{decimal, padded, push_padded, read_nat, value_of};

verus! {

broadcast use vstd::std_specs::btree::group_btree_axioms;

/// The day lies in month `k`, the months counted from January of year 0.
pub open spec fn in_month(day: int, k: int) -> bool {
    month_start(k) <= day < month_start(k + 1)
}

/// The month of a day.
pub open spec fn month_of(day: int) -> int {
    choose|k: int| in_month(day, k)
}

/// A day lies in one month only.
pub proof fn lemma_month_of(day: int, k: int)
    requires
        in_month(day, k),
    ensures
        month_of(day) == k,
{
    let j = choose|j: int| in_month(day, j);
    assert(in_month(day, j));
    if j < k {
        crate::calendar::lemma_month_starts_ascend(j + 1, k);
    } else if k < j {
        crate::calendar::lemma_month_starts_ascend(k + 1, j);
    }
}

/// The month of a day, as `year * 12 + (month - 1)`.
pub fn period_of(day: i32) -> (p: i32)
    ensures
        p == month_of(day as int),
        in_month(day as int, p as int),
        exists|y: int, m: int, d: int| #[trigger]
            is_date(y, m, d) && day_number(y, m, d) == day && p == 12 * y + m - 1,
{
    let (y, m, d): (i64, u32, u32) = civil_from_days(day as i64);
    let ghost k = 12 * y + m - 1;
    proof {
        assert(k / 12 == y && k % 12 == m - 1);
        assert(-10_000_000 <= y <= 10_000_000);
        assert(day_number(y as int, m as int, d as int) == month_start(k) + d - 1);
        crate::calendar::lemma_month_step(k);
        lemma_month_of(day as int, k);
    }
    (y as i32) * 12 + (m as i32 - 1)
}

/// A month as text.
pub open spec fn period_text(period: int) -> Seq<char> {
    padded(period / 12, 4) + seq!['-'] + padded(period % 12 + 1, 2)
}

/// A month as text, such as "2024-03".
pub fn period_label(period: i32) -> (r: String)
    ensures
        r@ == period_text(period as int),
{
    let p: i64 = period as i64;
    let m: i64 = (p % 12 + 12) % 12;
    assert(m == p as int % 12);
    let y: i64 = (p - m) / 12;
    assert(y == p as int / 12);
    let mut s = String::new();
    push_padded(&mut s, y, 4);
    s.push('-');
    push_padded(&mut s, m + 1, 2);
    assert(s@ =~= period_text(period as int));
    s
}

/// What one month adds up to, by bucket of the default rules.
#[derive(Clone, Copy, Debug, PartialEq, Eq, Structural)]
pub struct PeriodBuckets {
    pub intraday: BucketPnl,
    pub short: BucketPnl,
    pub long: BucketPnl,
}

/// The tallies of a month.
pub struct PeriodTally {
    pub intraday: Tally,
    pub short: Tally,
    pub long: Tally,
}

impl PeriodTally {
    pub open spec fn zero() -> PeriodTally {
        PeriodTally { intraday: Tally::zero(), short: Tally::zero(), long: Tally::zero() }
    }

    pub open spec fn plus(self, o: PeriodTally) -> PeriodTally {
        PeriodTally {
            intraday: self.intraday.plus(o.intraday),
            short: self.short.plus(o.short),
            long: self.long.plus(o.long),
        }
    }

    pub open spec fn fits(self) -> bool {
        self.intraday.fits() && self.short.fits() && self.long.fits()
    }
}

/// One fragment's share of a month.
pub open spec fn period_one(f: Fragment) -> PeriodTally {
    let z = PeriodTally::zero();
    if f.bucket == 0 {
        PeriodTally { intraday: tally_one(f), ..z }
    } else if f.bucket == 1 {
        PeriodTally { short: tally_one(f), ..z }
    } else {
        PeriodTally { long: tally_one(f), ..z }
    }
}

impl View for PeriodBuckets {
    type V = PeriodTally;

    open spec fn view(&self) -> PeriodTally {
        PeriodTally { intraday: self.intraday@, short: self.short@, long: self.long@ }
    }
}

impl Default for PeriodBuckets {
    fn default() -> (r: Self)
        ensures
            r@ == PeriodTally::zero(),
    {
        PeriodBuckets {
            intraday: BucketPnl::default(),
            short: BucketPnl::default(),
            long: BucketPnl::default(),
        }
    }
}

impl PeriodBuckets {
    /// The bucket numbered `b` by the default rules.
    fn bucket_mut(&mut self, b: usize) -> (r: &mut BucketPnl)
        requires
            b < 3,
        ensures
            *r == (if b == 0 {
                old(self).intraday
            } else if b == 1 {
                old(self).short
            } else {
                old(self).long
            }),
            *final(self) == (if b == 0 {
                PeriodBuckets { intraday: *final(r), ..*old(self) }
            } else if b == 1 {
                PeriodBuckets { short: *final(r), ..*old(self) }
            } else {
                PeriodBuckets { long: *final(r), ..*old(self) }
            }),
    {
        if b == 0 {
            &mut self.intraday
        } else if b == 1 {
            &mut self.short
        } else {
            &mut self.long
        }
    }

    /// Add another month's sums to this one's.
    pub fn merge(&mut self, o: &PeriodBuckets)
        requires
            old(self)@.plus(o@).fits(),
        ensures
            final(self)@ == old(self)@.plus(o@),
            final(self).intraday.realized_ticks == old(self).intraday.realized_ticks
                + o.intraday.realized_ticks,
            final(self).intraday.matched_qty == old(self).intraday.matched_qty
                + o.intraday.matched_qty,
            final(self).intraday.fragments == old(self).intraday.fragments + o.intraday.fragments,
            final(self).short.realized_ticks == old(self).short.realized_ticks
                + o.short.realized_ticks,
            final(self).short.matched_qty == old(self).short.matched_qty + o.short.matched_qty,
            final(self).short.fragments == old(self).short.fragments + o.short.fragments,
            final(self).long.realized_ticks == old(self).long.realized_ticks
                + o.long.realized_ticks,
            final(self).long.matched_qty == old(self).long.matched_qty + o.long.matched_qty,
            final(self).long.fragments == old(self).long.fragments + o.long.fragments,
    {
        self.intraday.merge(&o.intraday);
        self.short.merge(&o.short);
        self.long.merge(&o.long);
    }
}

/// Realized profit by month of the sell.
#[derive(Clone, Debug)]
pub struct Rollup {
    pub by_period: BTreeMap<i32, PeriodBuckets>,
}

impl View for Rollup {
    type V = Map<i32, PeriodTally>;

    open spec fn view(&self) -> Map<i32, PeriodTally> {
        self.by_period@.map_values(|p: PeriodBuckets| p@)
    }
}

/// The tallies of a month, zero if nothing was realized in it.
pub open spec fn month_tally(m: Map<i32, PeriodTally>, k: i32) -> PeriodTally {
    if m.dom().contains(k) {
        m[k]
    } else {
        PeriodTally::zero()
    }
}

/// The tallies of the months from `lo` to `hi`, both included.
pub open spec fn aggregated(m: Map<i32, PeriodTally>, lo: int, hi: int) -> PeriodTally
    decreases hi - lo + 1,
{
    if hi < lo {
        PeriodTally::zero()
    } else {
        aggregated(m, lo, hi - 1).plus(month_tally(m, hi as i32))
    }
}

proof fn lemma_aggregated_gap(m: Map<i32, PeriodTally>, lo: int, a: int, b: int)
    requires
        lo - 1 <= a <= b,
        forall|k: int| a < k <= b ==> !#[trigger] m.dom().contains(k as i32),
    ensures
        aggregated(m, lo, b) == aggregated(m, lo, a),
    decreases b - a,
{
    if a < b {
        lemma_aggregated_gap(m, lo, a, b - 1);
        assert(!m.dom().contains(b as i32));
    }
}

fn keys_of(m: &BTreeMap<i32, PeriodBuckets>) -> (v: Vec<i32>)
    ensures
        forall|i: int, j: int| 0 <= i < j < v@.len() ==> v@[i] < v@[j],
        forall|k: i32| #[trigger] m@.dom().contains(k) <==> v@.contains(k),
{
    let mut v: Vec<i32> = Vec::new();
    let iter = m.iter();
    let ghost s = iter.remaining();
    let ghost keys = s.map_values(|kv: (&i32, &PeriodBuckets)| *kv.0);
    assert(vstd::std_specs::btree::key_obeys_cmp_spec::<i32>());
    assert(vstd::std_specs::btree::increasing_seq(keys));
    for kv in it: iter
        invariant
            it.seq() == s,
            v@.len() == it.index(),
            forall|i: int| 0 <= i < v@.len() ==> v@[i] == *s[i].0,
    {
        v.push(*kv.0);
    }
    assert(v@ =~= keys);
    proof {
        assert forall|i: int, j: int| 0 <= i < j < v@.len() implies v@[i] < v@[j] by {
            assert(keys[i].cmp_spec(&keys[j]) is Less);
        }
        assert forall|k: i32| #[trigger] m@.dom().contains(k) <==> v@.contains(k) by {
            if m@.contains_key(k) {
                assert(s.contains((&k, &m@[k])));
                let i = choose|i: int| 0 <= i < s.len() && s[i] == (&k, &m@[k]);
                assert(v@[i] == k);
            }
            if v@.contains(k) {
                let i = choose|i: int| 0 <= i < v@.len() && v@[i] == k;
                assert(m@.contains_key(*s[i].0));
            }
        }
    }
    v
}

impl Default for Rollup {
    fn default() -> (r: Self)
        ensures
            r@ == Map::<i32, PeriodTally>::empty(),
    {
        let r = Rollup { by_period: BTreeMap::new() };
        assert(r@ =~= Map::<i32, PeriodTally>::empty());
        r
    }
}

impl Rollup {
    pub fn new() -> (r: Self)
        ensures
            r@ == Map::<i32, PeriodTally>::empty(),
    {
        Rollup::default()
    }

    /// What the months from `period_lo` to `period_hi`, both included, add up to.
    pub fn aggregate(&self, period_lo: i32, period_hi: i32) -> (acc: PeriodBuckets)
        requires
            period_lo <= period_hi,
            forall|k: int|
                period_lo <= k <= period_hi ==> (#[trigger] aggregated(
                    self@,
                    period_lo as int,
                    k,
                )).fits(),
        ensures
            acc@ == aggregated(self@, period_lo as int, period_hi as int),
    {
        let ghost m = self@;
        let keys: Vec<i32> = keys_of(&self.by_period);
        let mut acc = PeriodBuckets::default();
        let mut i: usize = 0;
        let ghost mut upto: int = period_lo - 1;
        while i < keys.len()
            invariant
                m == self@,
                i <= keys@.len(),
                period_lo <= period_hi,
                forall|a: int, b: int| 0 <= a < b < keys@.len() ==> keys@[a] < keys@[b],
                forall|k: i32| #[trigger] self.by_period@.dom().contains(k) <==> keys@.contains(k),
                forall|k: int|
                    period_lo <= k <= period_hi ==> (#[trigger] aggregated(
                        m,
                        period_lo as int,
                        k,
                    )).fits(),
                period_lo - 1 <= upto <= period_hi,
                acc@ == aggregated(m, period_lo as int, upto),
                forall|a: int|
                    0 <= a < i ==> #[trigger] keys@[a] <= upto || keys@[a] > period_hi,
                forall|a: int| i <= a < keys@.len() ==> #[trigger] keys@[a] > upto || keys@[a]
                    < period_lo,
            decreases keys@.len() - i,
        {
            let k: i32 = keys[i];
            assert(keys@.contains(k));
            if period_lo <= k && k <= period_hi {
                proof {
                    assert forall|j: int| upto < j <= k - 1 implies !#[trigger] m.dom().contains(
                        j as i32,
                    ) by {
                        if m.dom().contains(j as i32) {
                            assert(self.by_period@.dom().contains(j as i32));
                            assert(keys@.contains(j as i32));
                            let a = choose|a: int| 0 <= a < keys@.len() && keys@[a] == j as i32;
                            assert(keys@[a] == j);
                        }
                    }
                    lemma_aggregated_gap(m, period_lo as int, upto, k - 1);
                    assert(aggregated(m, period_lo as int, k as int).fits());
                    assert(self.by_period@.dom().contains(k));
                    assert(m.dom().contains(k));
                    assert(month_tally(m, k) == self.by_period@[k]@);
                }
                match self.by_period.get(&k) {
                    Some(pb) => {
                        acc.merge(pb);
                    },
                    None => {},
                }
                proof {
                    upto = k as int;
                }
            }
            i = i + 1;
        }
        proof {
            assert forall|j: int| upto < j <= period_hi implies !#[trigger] m.dom().contains(
                j as i32,
            ) by {
                if m.dom().contains(j as i32) {
                    assert(self.by_period@.dom().contains(j as i32));
                    assert(keys@.contains(j as i32));
                    let a = choose|a: int| 0 <= a < keys@.len() && keys@[a] == j as i32;
                    assert(keys@[a] == j);
                }
            }
            lemma_aggregated_gap(m, period_lo as int, upto, period_hi as int);
        }
        acc
    }
}

/// The rollup after taking `f`: its month, the month of the sell, has `f` added.
pub open spec fn rolled(m: Map<i32, PeriodTally>, f: Fragment) -> Map<i32, PeriodTally> {
    let k = month_of(f.sell_day as int) as i32;
    m.insert(k, month_tally(m, k).plus(period_one(f)))
}

impl FragmentSink for Rollup {
    /// The fragment falls into a bucket of the default rules, and the sums of its
    /// month stay within the machine's integers.
    open spec fn ready(&self, f: Fragment) -> bool {
        &&& f.bucket < 3
        &&& i64::MIN <= f.sell_ticks - f.buy_ticks <= i64::MAX
        &&& month_tally(self@, month_of(f.sell_day as int) as i32).plus(period_one(f)).fits()
    }

    open spec fn took(pre: Self, f: Fragment, post: Self) -> bool {
        post@ == rolled(pre@, f)
    }

    fn emit(&mut self, f: &Fragment) {
        let ghost before = self@;
        let k: i32 = period_of(f.sell_day);
        let mut pb = match self.by_period.get(&k) {
            Some(pb) => *pb,
            None => PeriodBuckets::default(),
        };
        assert(pb@ == month_tally(before, k));
        pb.bucket_mut(f.bucket).add_frag(f.realized_ticks(), f.matched_qty);
        assert(pb@ == month_tally(before, k).plus(period_one(*f)));
        self.by_period.insert(k, pb);
        assert(self@ =~= rolled(before, *f));
    }
}

// ---------------------------------------------------------------------------
// Laws
// ---------------------------------------------------------------------------

/// The rollup of fragments taken one after the other.
pub open spec fn rolled_all(m: Map<i32, PeriodTally>, fs: Seq<Fragment>) -> Map<i32, PeriodTally>
    decreases fs.len(),
{
    if fs.len() == 0 {
        m
    } else {
        rolled(rolled_all(m, fs.drop_last()), fs.last())
    }
}

/// A rollup that took fragments holds them all.
pub proof fn lemma_rollup_took(pre: Rollup, fs: Seq<Fragment>, post: Rollup)
    requires
        took_all(pre, fs, post),
    ensures
        post@ == rolled_all(pre@, fs),
    decreases fs.len(),
{
    if fs.len() > 0 {
        let mid = choose|mid: Rollup|
            #![trigger Rollup::took(mid, fs.last(), post)]
            took_all(pre, fs.drop_last(), mid) && Rollup::took(mid, fs.last(), post);
        lemma_rollup_took(pre, fs.drop_last(), mid);
    }
}

/// No more than `n` plain fragments were added to a month.
pub open spec fn modest(t: PeriodTally, n: int) -> bool {
    modest_tally(t.intraday, n) && modest_tally(t.short, n) && modest_tally(t.long, n)
}

proof fn lemma_modest(m: Map<i32, PeriodTally>, f: Fragment, n: int)
    requires
        0 <= n < u64::MAX,
        forall|k: i32| modest(#[trigger] month_tally(m, k), n),
        sized_frag(f),
    ensures
        month_tally(m, month_of(f.sell_day as int) as i32).plus(period_one(f)).fits(),
        forall|k: i32| modest(#[trigger] month_tally(rolled(m, f), k), n + 1),
{
    let key = month_of(f.sell_day as int) as i32;
    let t = month_tally(m, key);
    assert(modest(t, n));
    crate::matching::lemma_modest_plus(t.intraday, period_one(f).intraday, f, n);
    crate::matching::lemma_modest_plus(t.short, period_one(f).short, f, n);
    crate::matching::lemma_modest_plus(t.long, period_one(f).long, f, n);
    assert forall|k: i32| modest(#[trigger] month_tally(rolled(m, f), k), n + 1) by {
        assert(modest(month_tally(m, k), n));
        if k != key {
            assert(month_tally(rolled(m, f), k) == month_tally(m, k));
            let u = month_tally(m, k);
            crate::matching::lemma_modest_plus(u.intraday, Tally::zero(), f, n);
            crate::matching::lemma_modest_plus(u.short, Tally::zero(), f, n);
            crate::matching::lemma_modest_plus(u.long, Tally::zero(), f, n);
        }
    }
}

/// A rollup that holds `n` fragments can take more, as many as 64 bits can
/// count.
pub proof fn lemma_rollup_accepts(r: Rollup, fs: Seq<Fragment>, n: int)
    requires
        forall|k: i32| modest(#[trigger] month_tally(r@, k), n),
        0 <= n,
        n + fs.len() <= u64::MAX,
        sized_frags(fs),
        forall|i: int| 0 <= i < fs.len() ==> (#[trigger] fs[i]).bucket < 3,
    ensures
        accepts(r, fs),
    decreases fs.len(),
{
    if fs.len() > 0 {
        assert(sized_frag(fs[0]));
        lemma_modest(r@, fs[0], n);
        let rest = fs.drop_first();
        assert forall|i: int| 0 <= i < rest.len() implies sized_frag(#[trigger] rest[i])
            && rest[i].bucket < 3 by {
            assert(rest[i] == fs[i + 1]);
        }
        assert forall|t: Rollup| #[trigger] Rollup::took(r, fs[0], t) implies accepts(t, rest) by {
            lemma_rollup_accepts(t, rest, n + 1);
        }
    }
}

/// The fragments sold in the months from `lo` to `hi`, as a month's tallies.
pub open spec fn sold_between(fs: Seq<Fragment>, lo: int, hi: int) -> PeriodTally
    decreases fs.len(),
{
    if fs.len() == 0 {
        PeriodTally::zero()
    } else {
        let before = sold_between(fs.drop_last(), lo, hi);
        if lo <= month_of(fs.last().sell_day as int) <= hi {
            before.plus(period_one(fs.last()))
        } else {
            before
        }
    }
}

/// The month of a day fits 32 bits.
proof fn lemma_month_fits(day: i32)
    ensures
        i32::MIN <= month_of(day as int) <= i32::MAX,
        in_month(day as int, month_of(day as int)),
{
    let (y, m, d) = crate::calendar::lemma_day_has_date(day as int);
    let k = 12 * y + m - 1;
    assert(k / 12 == y && k % 12 == m - 1);
    assert(-10_000_000 <= y <= 10_000_000);
    assert(day_number(y, m, d) == month_start(k) + d - 1);
    crate::calendar::lemma_month_step(k);
    lemma_month_of(day as int, k);
}

proof fn lemma_aggregated_insert(m: Map<i32, PeriodTally>, k: i32, add: PeriodTally, lo: int, hi: int)
    requires
        i32::MIN <= lo,
        hi <= i32::MAX,
    ensures
        aggregated(m.insert(k, month_tally(m, k).plus(add)), lo, hi) == (if lo <= k <= hi {
            aggregated(m, lo, hi).plus(add)
        } else {
            aggregated(m, lo, hi)
        }),
    decreases hi - lo + 1,
{
    if lo <= hi {
        lemma_aggregated_insert(m, k, add, lo, hi - 1);
    }
}

/// What the rollup gives for a span of months is the sum of the fragments sold
/// in them.
pub proof fn lemma_aggregate_is_sum(fs: Seq<Fragment>, lo: int, hi: int)
    requires
        i32::MIN <= lo,
        hi <= i32::MAX,
    ensures
        aggregated(rolled_all(Map::empty(), fs), lo, hi) == sold_between(fs, lo, hi),
    decreases fs.len(),
{
    if fs.len() == 0 {
        lemma_aggregated_empty(lo, hi);
    } else {
        let head = fs.drop_last();
        let f = fs.last();
        lemma_aggregate_is_sum(head, lo, hi);
        lemma_month_fits(f.sell_day);
        lemma_aggregated_insert(
            rolled_all(Map::empty(), head),
            month_of(f.sell_day as int) as i32,
            period_one(f),
            lo,
            hi,
        );
    }
}

proof fn lemma_aggregated_empty(lo: int, hi: int)
    ensures
        aggregated(Map::empty(), lo, hi) == PeriodTally::zero(),
    decreases hi - lo + 1,
{
    if lo <= hi {
        lemma_aggregated_empty(lo, hi - 1);
    }
}

/// Over all months the rollup gives what the fold itself gives: its totals for
/// the three buckets are the fold's.
pub proof fn lemma_rollup_total(fs: Seq<Fragment>)
    requires
        forall|i: int| 0 <= i < fs.len() ==> (#[trigger] fs[i]).bucket < 3,
    ensures
        aggregated(rolled_all(Map::empty(), fs), i32::MIN as int, i32::MAX as int) == (
        PeriodTally { intraday: tally(fs, 0), short: tally(fs, 1), long: tally(fs, 2) }),
{
    lemma_aggregate_is_sum(fs, i32::MIN as int, i32::MAX as int);
    lemma_sold_all(fs);
}

proof fn lemma_sold_all(fs: Seq<Fragment>)
    requires
        forall|i: int| 0 <= i < fs.len() ==> (#[trigger] fs[i]).bucket < 3,
    ensures
        sold_between(fs, i32::MIN as int, i32::MAX as int) == (PeriodTally {
            intraday: tally(fs, 0),
            short: tally(fs, 1),
            long: tally(fs, 2),
        }),
    decreases fs.len(),
{
    if fs.len() > 0 {
        let head = fs.drop_last();
        assert forall|i: int| 0 <= i < head.len() implies (#[trigger] head[i]).bucket < 3 by {
            assert(head[i] == fs[i]);
        }
        lemma_sold_all(head);
        lemma_month_fits(fs.last().sell_day);
        assert(fs[fs.len() - 1].bucket < 3);
    }
}

/// A table folded under the default rules fills three buckets.
pub proof fn lemma_table_buckets(m: TableModel)
    ensures
        within_buckets(joined(table_frags(m)), 3),
{
    let fss = table_frags(m);
    assert forall|p: int| 0 <= p < fss.len() implies within_buckets(#[trigger] fss[p], 3) by {
        crate::matching::lemma_fold_buckets(
            default_desk(m.clients[p], m.symbols[p]),
            Seq::empty(),
            m.part(p),
            None,
        );
    }
    crate::matching::lemma_joined_within(fss, 3);
}

/// A table folded into a rollup comes, over all months, to what the fold gives:
/// nothing is lost between months, and nothing is counted twice.
pub proof fn lemma_rollup_is_fold(m: TableModel)
    ensures
        ({
            let all = aggregated(
                rolled_all(Map::empty(), joined(table_frags(m))),
                i32::MIN as int,
                i32::MAX as int,
            );
            let sums = tallies(joined(table_frags(m)));
            all.intraday == sums[0] && all.short == sums[1] && all.long == sums[2]
        }),
{
    lemma_table_buckets(m);
    lemma_rollup_total(joined(table_frags(m)));
}

/// The label of a month, followed by `-01`, reads as the first day of that month. Up
/// to year 9999 the year takes four digits, and the month always two; a year before 0
/// starts with a sign, and its label is no date.
pub proof fn lemma_label_is_a_date(period: int)
    requires
        0 <= period <= i32::MAX,
    ensures
        ({
            let text = period_text(period) + seq!['-', '0', '1'];
            &&& read_date(text) == Ok::<(int, int, int), DateError>((period / 12, period % 12 + 1, 1))
            &&& day_number(period / 12, period % 12 + 1, 1) == month_start(period)
            &&& civil_fits(period / 12, period % 12 + 1, 1)
        }),
        period < 120_000 ==> padded(period / 12, 4).len() == 4,
        padded(period % 12 + 1, 2).len() == 2,
{
    let y = padded(period / 12, 4);
    let m = padded(period % 12 + 1, 2);
    let d = seq!['0', '1'];
    let text = period_text(period) + seq!['-', '0', '1'];
    crate::text::lemma_read_padded(period / 12, 4);
    crate::text::lemma_read_padded(period % 12 + 1, 2);
    assert(!y.contains('-'));
    assert(!m.contains('-'));
    assert(!d.contains('-'));
    assert(text =~= (y + seq!['-'] + m) + seq!['-'] + d);
    crate::calendar::lemma_one_part(y);
    crate::calendar::lemma_last_part(y, m);
    crate::calendar::lemma_last_part(y + seq!['-'] + m, d);
    assert(dash_parts(text) =~= seq![y, m, d]);
    assert(read_nat(d) == Some(1int)) by {
        reveal_with_fuel(value_of, 3);
        assert(d.drop_last() =~= seq!['0']);
        assert(d.drop_last().drop_last() =~= Seq::empty());
    }
    reveal_with_fuel(decimal, 5);
}

/// Aggregates over months that follow each other add up.
pub proof fn lemma_aggregates_add_up(m: Map<i32, PeriodTally>, lo: int, mid: int, hi: int)
    requires
        lo <= mid + 1,
        mid <= hi,
    ensures
        aggregated(m, lo, hi) == aggregated(m, lo, mid).plus(aggregated(m, mid + 1, hi)),
    decreases hi - mid,
{
    if mid < hi {
        lemma_aggregates_add_up(m, lo, mid, hi - 1);
    }
}

/// The month of a date's day is that of the date.
pub proof fn lemma_month_by_date(y: int, m: int, d: int)
    requires
        is_date(y, m, d),
    ensures
        month_of(day_number(y, m, d)) == 12 * y + m - 1,
{
    let k = 12 * y + m - 1;
    assert(k / 12 == y && k % 12 == m - 1);
    assert(day_number(y, m, d) == month_start(k) + d - 1);
    crate::calendar::lemma_month_step(k);
    lemma_month_of(day_number(y, m, d), k);
}

/// A fragment goes into the month in which it was sold, under its own bucket, with
/// its shares, what they were sold for less what they cost, and one to the count. No
/// other month and no other bucket changes.
pub proof fn lemma_fragment_goes_to_sell_month(
    was: Map<i32, PeriodTally>,
    f: Fragment,
    y: int,
    m: int,
    d: int,
)
    requires
        f.bucket < 3,
        is_date(y, m, d),
        day_number(y, m, d) == f.sell_day,
    ensures
        ({
            let now = rolled(was, f);
            let k = (12 * y + m - 1) as i32;
            let a = month_tally(was, k);
            let b = now[k];
            let gain = f.matched_qty * f.sell_ticks - f.matched_qty * f.buy_ticks;
            &&& now.dom() == was.dom().insert(k)
            &&& forall|j: i32| j != k && #[trigger] was.dom().contains(j) ==> now[j] == was[j]
            &&& f.bucket == 0 ==> b.intraday.realized == a.intraday.realized + gain
                && b.intraday.qty == a.intraday.qty + f.matched_qty && b.intraday.count
                == a.intraday.count + 1 && b.short == a.short && b.long == a.long
            &&& f.bucket == 1 ==> b.short.realized == a.short.realized + gain && b.short.qty
                == a.short.qty + f.matched_qty && b.short.count == a.short.count + 1 && b.intraday
                == a.intraday && b.long == a.long
            &&& f.bucket == 2 ==> b.long.realized == a.long.realized + gain && b.long.qty
                == a.long.qty + f.matched_qty && b.long.count == a.long.count + 1 && b.intraday
                == a.intraday && b.short == a.short
        }),
{
    lemma_month_by_date(y, m, d);
    let now = rolled(was, f);
    let k = (12 * y + m - 1) as i32;
    assert(now.dom() =~= was.dom().insert(k));
    assert(f.matched_qty * (f.sell_ticks - f.buy_ticks) == f.matched_qty * f.sell_ticks
        - f.matched_qty * f.buy_ticks) by (nonlinear_arith);
}

/// An aggregate over one month more has that month's sums more, bucket by bucket,
/// and over no month it is nothing.
pub proof fn lemma_aggregate_adds_month(m: Map<i32, PeriodTally>, lo: int, hi: i32)
    requires
        lo <= hi,
    ensures
        ({
            let a = aggregated(m, lo, hi - 1);
            let b = aggregated(m, lo, hi as int);
            &&& !m.dom().contains(hi) ==> b == a
            &&& m.dom().contains(hi) ==> {
                &&& b.intraday.realized == a.intraday.realized + m[hi].intraday.realized
                &&& b.intraday.qty == a.intraday.qty + m[hi].intraday.qty
                &&& b.intraday.count == a.intraday.count + m[hi].intraday.count
                &&& b.short.realized == a.short.realized + m[hi].short.realized
                &&& b.short.qty == a.short.qty + m[hi].short.qty
                &&& b.short.count == a.short.count + m[hi].short.count
                &&& b.long.realized == a.long.realized + m[hi].long.realized
                &&& b.long.qty == a.long.qty + m[hi].long.qty
                &&& b.long.count == a.long.count + m[hi].long.count
            }
            &&& aggregated(m, lo, lo - 1).intraday.qty == 0
            &&& aggregated(m, lo, lo - 1).short.qty == 0
            &&& aggregated(m, lo, lo - 1).long.qty == 0
            &&& aggregated(m, lo, lo - 1).intraday.realized == 0
            &&& aggregated(m, lo, lo - 1).short.realized == 0
            &&& aggregated(m, lo, lo - 1).long.realized == 0
        }),
{
}

/// A month's label tells its year and its month, and two months do not share one.
pub proof fn lemma_labels_tell_months_apart(a: int, b: int)
    requires
        0 <= a <= i32::MAX,
        0 <= b <= i32::MAX,
        period_text(a) == period_text(b),
    ensures
        a == b,
{
    lemma_label_is_a_date(a);
    lemma_label_is_a_date(b);
}

} // verus!
