//! The fold: sells matched against open buy lots, partition by partition.

use std::collections::VecDeque;
use vstd::prelude::*;
use crate::matching::{
    accepts, all_tallyable, band_of, bucket_of, counted, drain, fold, in_window, joined, lot_of,
    pick, tallies, tally, tally_one, tallyable, took_all, Desk, Tally,
};
use crate::packed::{PackedTable, PackedTrade, TableModel};
use crate::text::{int_text, push_int};

verus! {

/// Longest holding, in days, that the default rules call short-term.
pub const LONG_TERM_DAYS: i32 = 365;

/// Most buckets that a ruleset can define.
pub const MAX_BUCKETS: usize = 8;

/// Holding-period rules: which bucket a matched fragment falls into.
///
/// With `intraday_same_day`, same-day round trips are bucket 0. The first
/// `n_bounds` entries of `boundaries` are inclusive upper bounds, in days held,
/// of the bands that follow; past the last comes one final bucket.
#[derive(Clone, Copy, Debug)]
pub struct BucketRules {
    pub intraday_same_day: bool,
    pub boundaries: [i32; MAX_BUCKETS],
    pub n_bounds: usize,
}

impl BucketRules {
    /// No more bands than there are bounds.
    pub open spec fn wf(self) -> bool {
        self.n_bounds <= MAX_BUCKETS
    }

    /// Intraday, one year, and past it.
    pub open spec fn default_equity(self) -> bool {
        self.intraday_same_day && self.n_bounds == 1 && self.boundaries@[0] == LONG_TERM_DAYS
    }

    proof fn lemma_default_bucket(self, buy_day: int, sell_day: int)
        requires
            self.default_equity(),
        ensures
            bucket_of(self, buy_day, sell_day) == (if sell_day == buy_day {
                0int
            } else if sell_day - buy_day <= LONG_TERM_DAYS {
                1
            } else {
                2
            }),
    {
        reveal_with_fuel(band_of, 2);
    }

    /// Intraday, up to `short_max_days`, and past it.
    pub open spec fn equity_rules(short_max_days: i32) -> BucketRules {
        BucketRules {
            intraday_same_day: true,
            boundaries: [short_max_days, 0, 0, 0, 0, 0, 0, 0],
            n_bounds: 1,
        }
    }

    /// Intraday, short-term up to `short_max_days`, and long-term past it.
    pub fn equity(short_max_days: i32) -> (r: Self)
        ensures
            r == Self::equity_rules(short_max_days),
            r.intraday_same_day,
            r.n_bounds == 1,
            r.boundaries@[0] == short_max_days,
            r.wf(),
    {
        BucketRules {
            intraday_same_day: true,
            boundaries: [short_max_days, 0, 0, 0, 0, 0, 0, 0],
            n_bounds: 1,
        }
    }

    /// How many bounds leave room for the bucket past the last of them, and for
    /// the intraday bucket where there is one.
    pub open spec fn bounds_kept(intraday_same_day: bool) -> int {
        if intraday_same_day {
            MAX_BUCKETS - 2
        } else {
            MAX_BUCKETS - 1
        }
    }

    /// Bands of holding days, `bounds` ascending. As many bounds are kept, from the
    /// first, as define no more than [`MAX_BUCKETS`] buckets.
    pub fn bands(intraday_same_day: bool, bounds: &[i32]) -> (r: Self)
        ensures
            r.intraday_same_day == intraday_same_day,
            r.n_bounds == (if bounds@.len() <= Self::bounds_kept(intraday_same_day) {
                bounds@.len() as int
            } else {
                Self::bounds_kept(intraday_same_day)
            }),
            bounds@.len() <= 6 ==> r.n_bounds == bounds@.len(),
            bounds@.len() > 6 ==> r.n_bounds == (if intraday_same_day {
                6int
            } else {
                7int
            }),
            forall|i: int| 0 <= i < r.n_bounds ==> #[trigger] r.boundaries@[i] == bounds@[i],
            r.boundaries@ == Seq::new(
                MAX_BUCKETS as nat,
                |i: int|
                    if i < r.n_bounds {
                        bounds@[i]
                    } else {
                        0
                    },
            ),
            r.buckets() <= MAX_BUCKETS,
            r.wf(),
    {
        let mut boundaries: [i32; MAX_BUCKETS] = [0;MAX_BUCKETS];
        let most: usize = if intraday_same_day {
            MAX_BUCKETS - 2
        } else {
            MAX_BUCKETS - 1
        };
        let n: usize = if bounds.len() <= most {
            bounds.len()
        } else {
            most
        };
        let mut i: usize = 0;
        while i < n
            invariant
                i <= n < MAX_BUCKETS,
                n <= bounds@.len(),
                forall|j: int| 0 <= j < i ==> boundaries@[j] == bounds@[j],
                forall|j: int| i <= j < MAX_BUCKETS ==> boundaries@[j] == 0,
            decreases n - i,
        {
            boundaries[i] = bounds[i];
            i = i + 1;
        }
        BucketRules { intraday_same_day, boundaries, n_bounds: n }
    }

    /// How many buckets the rules define.
    pub fn num_buckets(&self) -> (n: usize)
        requires
            self.buckets() <= usize::MAX,
        ensures
            n == self.buckets(),
            self.intraday_same_day ==> n == self.n_bounds + 2,
            !self.intraday_same_day ==> n == self.n_bounds + 1,
    {
        let intraday: usize = if self.intraday_same_day {
            1
        } else {
            0
        };
        intraday + self.n_bounds + 1
    }

    /// The band that bucket `i` stands for: its place among the bounds.
    pub open spec fn band(self, i: int) -> int {
        if self.intraday_same_day {
            i - 1
        } else {
            i
        }
    }

    /// The shortest holding, in days, of band `k`.
    pub open spec fn band_start(self, k: int) -> int {
        if k > 0 {
            self.boundaries@[k - 1] + 1
        } else if self.intraday_same_day {
            1
        } else {
            0
        }
    }

    /// The label of bucket `i`.
    pub open spec fn label_text(self, i: int) -> Seq<char> {
        let k = self.band(i);
        if k < 0 {
            "intraday"@
        } else if k < self.n_bounds {
            int_text(self.band_start(k)) + seq!['-'] + int_text(self.boundaries@[k] as int) + seq![
                'd',
            ]
        } else {
            seq!['>'] + int_text(self.boundaries@[self.n_bounds - 1] as int) + seq!['d']
        }
    }

    /// Label of bucket `i`, such as "intraday", "1-365d" or ">365d".
    pub fn label(&self, i: usize) -> (r: String)
        requires
            self.wf(),
            0 < self.band(i as int) < self.n_bounds ==> self.band_start(self.band(i as int))
                <= i32::MAX,
            self.n_bounds == 0 ==> self.band(i as int) < 0,
        ensures
            r@ == self.label_text(i as int),
    {
        let mut idx: usize = i;
        if self.intraday_same_day {
            if idx == 0 {
                return String::from_str("intraday");
            }
            idx = idx - 1;
        }
        let mut s = String::new();
        if idx < self.n_bounds {
            let lo: i32 = if idx == 0 {
                if self.intraday_same_day {
                    1
                } else {
                    0
                }
            } else {
                self.boundaries[idx - 1] + 1
            };
            push_int(&mut s, lo as i64);
            s.push('-');
            push_int(&mut s, self.boundaries[idx] as i64);
            s.push('d');
        } else {
            s.push('>');
            push_int(&mut s, self.boundaries[self.n_bounds - 1] as i64);
            s.push('d');
        }
        assert(s@ =~= self.label_text(i as int));
        s
    }

    /// Whether these are the default rules.
    pub fn is_default_equity(&self) -> (r: bool)
        ensures
            r == self.default_equity(),
            r == (self.intraday_same_day && self.n_bounds == 1 && self.boundaries@[0] == 365),
    {
        self.intraday_same_day && self.n_bounds == 1 && self.boundaries[0] == LONG_TERM_DAYS
    }

    /// How many buckets the rules define.
    pub open spec fn buckets(self) -> int {
        (if self.intraday_same_day {
            1int
        } else {
            0int
        }) + self.n_bounds + 1
    }
}

impl Default for BucketRules {
    fn default() -> (r: Self)
        ensures
            r == Self::equity_rules(LONG_TERM_DAYS),
            r.intraday_same_day,
            r.n_bounds == 1,
            r.boundaries@[0] == 365,
            r.wf(),
    {
        BucketRules::equity(LONG_TERM_DAYS)
    }
}

/// Which open lot a sell consumes.
#[derive(Clone, Copy, Debug, PartialEq, Eq, Structural)]
pub enum MatchPolicy {
    /// The oldest open lot.
    Fifo,
    /// The newest open lot.
    Lifo,
    /// The lot bought at the highest price.
    Hifo,
}

impl Default for MatchPolicy {
    fn default() -> (r: Self)
        ensures
            r == MatchPolicy::Fifo,
    {
        MatchPolicy::Fifo
    }
}

/// An open buy lot awaiting a matching sell.
#[derive(Clone, Copy, Debug)]
pub struct Lot {
    pub qty: i64,
    pub price_ticks: i64,
    pub day: i32,
}

/// A matched buy and sell.
#[derive(Clone, Copy, Debug)]
pub struct Fragment {
    pub client: u64,
    pub symbol: u32,
    pub buy_day: i32,
    pub sell_day: i32,
    pub matched_qty: i64,
    pub buy_ticks: i64,
    pub sell_ticks: i64,
    /// Bucket under the rules in force.
    pub bucket: usize,
}

impl Fragment {
    /// Realized profit in tick-shares.
    pub open spec fn realized(self) -> int {
        self.matched_qty * (self.sell_ticks - self.buy_ticks)
    }

    /// Realized profit in tick-shares.
    pub fn realized_ticks(&self) -> (r: i128)
        requires
            i64::MIN <= self.sell_ticks - self.buy_ticks <= i64::MAX,
        ensures
            r == self.realized(),
            r == self.matched_qty * (self.sell_ticks - self.buy_ticks),
    {
        times(self.matched_qty, self.sell_ticks - self.buy_ticks)
    }
}

/// Receives every matched fragment as the fold runs.
///
/// A sink that says nothing of itself can take any fragment at any time, and may
/// become anything by it.
pub trait FragmentSink: Sized {
    /// Whether the sink can take `f` now.
    open spec fn ready(&self, f: Fragment) -> bool {
        true
    }

    /// Whether taking `f` may turn `pre` into `post`.
    open spec fn took(pre: Self, f: Fragment, post: Self) -> bool {
        true
    }

    fn emit(&mut self, f: &Fragment)
        requires
            old(self).ready(*f),
        ensures
            Self::took(*old(self), *f, *final(self)),
    ;
}

/// A sink that discards fragments.
pub struct NoopSink;

impl FragmentSink for NoopSink {
    open spec fn ready(&self, f: Fragment) -> bool {
        true
    }

    open spec fn took(pre: Self, f: Fragment, post: Self) -> bool {
        pre == post
    }

    fn emit(&mut self, _f: &Fragment) {
    }
}

/// The sink that discards can take anything.
pub proof fn lemma_noop_accepts(s: NoopSink, fs: Seq<Fragment>)
    ensures
        accepts(s, fs),
    decreases fs.len(),
{
    if fs.len() > 0 {
        assert forall|t: NoopSink| #[trigger] NoopSink::took(s, fs[0], t) implies accepts(
            t,
            fs.drop_first(),
        ) by {
            lemma_noop_accepts(t, fs.drop_first());
        }
    }
}

/// What one bucket adds up to.
#[derive(Clone, Copy, Debug, PartialEq, Eq, Structural)]
pub struct BucketPnl {
    pub realized_ticks: i128,
    pub matched_qty: i128,
    pub fragments: u64,
}

impl View for BucketPnl {
    type V = Tally;

    open spec fn view(&self) -> Tally {
        Tally {
            realized: self.realized_ticks as int,
            qty: self.matched_qty as int,
            count: self.fragments as int,
        }
    }
}

impl Default for BucketPnl {
    fn default() -> (r: Self)
        ensures
            r@ == Tally::zero(),
    {
        BucketPnl { realized_ticks: 0, matched_qty: 0, fragments: 0 }
    }
}

impl BucketPnl {
    /// Count one more fragment.
    pub fn add_frag(&mut self, realized_ticks: i128, qty: i64)
        requires
            old(self)@.plus(
                Tally { realized: realized_ticks as int, qty: qty as int, count: 1 },
            ).fits(),
        ensures
            final(self)@ == old(self)@.plus(
                Tally { realized: realized_ticks as int, qty: qty as int, count: 1 },
            ),
            final(self).realized_ticks == old(self).realized_ticks + realized_ticks,
            final(self).matched_qty == old(self).matched_qty + qty,
            final(self).fragments == old(self).fragments + 1,
    {
        self.realized_ticks = self.realized_ticks + realized_ticks;
        self.matched_qty = self.matched_qty + qty as i128;
        self.fragments = self.fragments + 1;
    }

    /// Add another bucket's sums to this one's.
    pub fn merge(&mut self, o: &BucketPnl)
        requires
            old(self)@.plus(o@).fits(),
        ensures
            final(self)@ == old(self)@.plus(o@),
            final(self).realized_ticks == old(self).realized_ticks + o.realized_ticks,
            final(self).matched_qty == old(self).matched_qty + o.matched_qty,
            final(self).fragments == old(self).fragments + o.fragments,
    {
        self.realized_ticks = self.realized_ticks + o.realized_ticks;
        self.matched_qty = self.matched_qty + o.matched_qty;
        self.fragments = self.fragments + o.fragments;
    }
}

/// What a partition adds up to, bucket by bucket.
#[derive(Clone, Copy, Debug, PartialEq)]
pub struct PartitionPnl {
    /// One entry per bucket; those past the last bucket stay zero.
    pub buckets: [BucketPnl; MAX_BUCKETS],
}

impl View for PartitionPnl {
    type V = Seq<Tally>;

    open spec fn view(&self) -> Seq<Tally> {
        Seq::new(MAX_BUCKETS as nat, |b: int| self.buckets@[b]@)
    }
}

impl Default for PartitionPnl {
    fn default() -> (r: Self)
        ensures
            r@ == tallies(Seq::empty()),
    {
        let zero = BucketPnl::default();
        PartitionPnl { buckets: [zero; MAX_BUCKETS] }
    }
}

impl PartitionPnl {
    /// The entry of bucket `i`.
    pub fn bucket_mut(&mut self, i: usize) -> (r: &mut BucketPnl)
        requires
            i < MAX_BUCKETS,
        ensures
            *r == old(self).buckets@[i as int],
            final(self).buckets@ == old(self).buckets@.update(i as int, *final(r)),
    {
        &mut self.buckets[i]
    }

    /// Count one more fragment, after `fs`.
    fn count_frag(&mut self, f: &Fragment, Ghost(fs): Ghost<Seq<Fragment>>)
        requires
            old(self)@ == tallies(fs),
            crate::matching::countable(*f),
            tally(fs, f.bucket as int).plus(tally_one(*f)).fits(),
        ensures
            final(self)@ == tallies(fs.push(*f)),
    {
        let ghost prev = self@;
        assert(prev[f.bucket as int] == tally(fs, f.bucket as int));
        self.bucket_mut(f.bucket).add_frag(f.realized_ticks(), f.matched_qty);
        assert(self@ =~= tallies(fs.push(*f))) by {
            assert forall|b: int| 0 <= b < MAX_BUCKETS implies self@[b] == tally(
                fs.push(*f),
                b,
            ) by {
                crate::matching::lemma_tally_push(fs, *f, b);
                assert(prev[b] == tally(fs, b));
            }
        }
    }

    /// Count `matched` shares sold at `spread` above their cost, after `fs`.
    fn count_match(
        &mut self,
        bucket: usize,
        matched: i64,
        spread: i64,
        Ghost(f): Ghost<Fragment>,
        Ghost(fs): Ghost<Seq<Fragment>>,
    )
        requires
            old(self)@ == tallies(fs),
            crate::matching::countable(f),
            tally(fs, f.bucket as int).plus(tally_one(f)).fits(),
            bucket == f.bucket,
            matched == f.matched_qty,
            spread == f.sell_ticks - f.buy_ticks,
        ensures
            final(self)@ == tallies(fs.push(f)),
    {
        let realized: i128 = times(matched, spread);
        let ghost prev = self@;
        assert(prev[f.bucket as int] == tally(fs, f.bucket as int));
        self.bucket_mut(bucket).add_frag(realized, matched);
        assert(self@ =~= tallies(fs.push(f))) by {
            assert forall|b: int| 0 <= b < MAX_BUCKETS implies self@[b] == tally(
                fs.push(f),
                b,
            ) by {
                crate::matching::lemma_tally_push(fs, f, b);
                assert(prev[b] == tally(fs, b));
            }
        }
    }

    /// Add the first three buckets of `o` to this one's.
    pub fn merge_default3(&mut self, o: &PartitionPnl)
        requires
            forall|b: int|
                0 <= b < 3 ==> (#[trigger] old(self)@[b]).plus(o@[b]).fits(),
        ensures
            final(self)@ == Seq::new(
                MAX_BUCKETS as nat,
                |b: int|
                    if b < 3 {
                        old(self)@[b].plus(o@[b])
                    } else {
                        old(self)@[b]
                    },
            ),
    {
        let ghost before = self@;
        assert(before[0].plus(o@[0]).fits());
        assert(before[1].plus(o@[1]).fits());
        assert(before[2].plus(o@[2]).fits());
        self.buckets[0].merge(&o.buckets[0]);
        self.buckets[1].merge(&o.buckets[1]);
        self.buckets[2].merge(&o.buckets[2]);
    }

    /// Add every bucket of `o` to this one's.
    pub fn merge(&mut self, o: &PartitionPnl)
        requires
            sum_fits(old(self)@, o@),
        ensures
            final(self)@ == summed(old(self)@, o@),
            forall|b: int|
                0 <= b < MAX_BUCKETS ==> {
                    let was = old(self).buckets@[b];
                    let now = #[trigger] final(self).buckets@[b];
                    &&& now.realized_ticks == was.realized_ticks + o.buckets@[b].realized_ticks
                    &&& now.matched_qty == was.matched_qty + o.buckets@[b].matched_qty
                    &&& now.fragments == was.fragments + o.buckets@[b].fragments
                },
    {
        let mut i: usize = 0;
        while i < MAX_BUCKETS
            invariant
                i <= MAX_BUCKETS,
                sum_fits(old(self)@, o@),
                forall|b: int|
                    0 <= b < i ==> #[trigger] self@[b] == old(self)@[b].plus(o@[b]),
                forall|b: int| i <= b < MAX_BUCKETS ==> #[trigger] self@[b] == old(self)@[b],
            decreases MAX_BUCKETS - i,
        {
            assert(self@[i as int] == old(self)@[i as int]);
            assert(old(self)@[i as int].plus(o@[i as int]).fits());
            let ghost prev = self@;
            self.buckets[i].merge(&o.buckets[i]);
            assert forall|b: int| 0 <= b < MAX_BUCKETS && b != i implies #[trigger] self@[b]
                == prev[b] by {}
            i = i + 1;
        }
        assert(self@ =~= summed(old(self)@, o@));
        assert forall|b: int| 0 <= b < MAX_BUCKETS implies {
            let was = old(self).buckets@[b];
            let now = #[trigger] self.buckets@[b];
            &&& now.realized_ticks == was.realized_ticks + o.buckets@[b].realized_ticks
            &&& now.matched_qty == was.matched_qty + o.buckets@[b].matched_qty
            &&& now.fragments == was.fragments + o.buckets@[b].fragments
        } by {
            assert(self@[b] == old(self)@[b].plus(o@[b]));
        }
    }
}

impl PartitionPnl {
    /// Realized profit over all buckets.
    pub fn total_ticks(&self) -> (t: i128)
        requires
            forall|k: int|
                0 <= k <= MAX_BUCKETS ==> i128::MIN <= #[trigger] realized_upto(self@, k)
                    <= i128::MAX,
        ensures
            t == realized_upto(self@, MAX_BUCKETS as int),
            t == self.buckets@[0].realized_ticks + self.buckets@[1].realized_ticks
                + self.buckets@[2].realized_ticks + self.buckets@[3].realized_ticks
                + self.buckets@[4].realized_ticks + self.buckets@[5].realized_ticks
                + self.buckets@[6].realized_ticks + self.buckets@[7].realized_ticks,
    {
        let mut t: i128 = 0;
        let mut i: usize = 0;
        while i < MAX_BUCKETS
            invariant
                i <= MAX_BUCKETS,
                t == realized_upto(self@, i as int),
                forall|k: int|
                    0 <= k <= MAX_BUCKETS ==> i128::MIN <= #[trigger] realized_upto(self@, k)
                        <= i128::MAX,
            decreases MAX_BUCKETS - i,
        {
            assert(realized_upto(self@, i + 1) == t + self@[i as int].realized);
            t = t + self.buckets[i].realized_ticks;
            i = i + 1;
        }
        proof {
            reveal_with_fuel(realized_upto, 9);
        }
        t
    }

    /// Same-day round trips, under the default rules.
    pub fn intraday(&self) -> (r: &BucketPnl)
        ensures
            *r == self.buckets@[0],
    {
        &self.buckets[0]
    }

    /// Short-term holdings, under the default rules.
    pub fn short(&self) -> (r: &BucketPnl)
        ensures
            *r == self.buckets@[1],
    {
        &self.buckets[1]
    }

    /// Long-term holdings, under the default rules.
    pub fn long(&self) -> (r: &BucketPnl)
        ensures
            *r == self.buckets@[2],
    {
        &self.buckets[2]
    }
}

/// Realized profit over the first `k` buckets.
pub open spec fn realized_upto(ts: Seq<Tally>, k: int) -> int
    decreases k,
{
    if k <= 0 {
        0
    } else {
        realized_upto(ts, k - 1) + ts[k - 1].realized
    }
}

/// The bucketwise sum of two lists of tallies.
pub open spec fn summed(a: Seq<Tally>, b: Seq<Tally>) -> Seq<Tally> {
    Seq::new(MAX_BUCKETS as nat, |i: int| a[i].plus(b[i]))
}

/// The bucketwise sum fits the integers that hold it.
pub open spec fn sum_fits(a: Seq<Tally>, b: Seq<Tally>) -> bool {
    forall|i: int| 0 <= i < MAX_BUCKETS ==> (#[trigger] a[i]).plus(b[i]).fits()
}

/// The lot that a sell consumes next.
fn pick_lot(carry: &VecDeque<Lot>, policy: MatchPolicy) -> (idx: usize)
    requires
        carry@.len() > 0,
    ensures
        idx == pick(carry@, policy),
        idx < carry@.len(),
        policy == MatchPolicy::Fifo ==> idx == 0,
        policy == MatchPolicy::Lifo ==> idx + 1 == carry@.len(),
        policy == MatchPolicy::Hifo ==> {
            &&& forall|j: int|
                0 <= j < carry@.len() ==> (#[trigger] carry@[j]).price_ticks
                    <= carry@[idx as int].price_ticks
            &&& forall|j: int|
                0 <= j < idx ==> (#[trigger] carry@[j]).price_ticks
                    < carry@[idx as int].price_ticks
        },
{
    match policy {
        MatchPolicy::Fifo => 0,
        MatchPolicy::Lifo => carry.len() - 1,
        MatchPolicy::Hifo => {
            let mut best: usize = 0;
            let mut i: usize = 1;
            while i < carry.len()
                invariant
                    1 <= i <= carry@.len(),
                    best < i,
                    forall|j: int|
                        0 <= j < i ==> #[trigger] carry@[j].price_ticks
                            <= carry@[best as int].price_ticks,
                    forall|j: int|
                        0 <= j < best ==> #[trigger] carry@[j].price_ticks
                            < carry@[best as int].price_ticks,
                decreases carry@.len() - i,
            {
                if carry[i].price_ticks > carry[best].price_ticks {
                    best = i;
                }
                i = i + 1;
            }
            proof {
                crate::matching::lemma_dearest_unique(carry@, best as int);
            }
            best
        },
    }
}

/// The bucket of a fragment bought on `buy_day` and sold on `sell_day`.
pub fn classify(rules: &BucketRules, buy_day: i32, sell_day: i32) -> (b: usize)
    requires
        rules.wf(),
        i32::MIN <= sell_day - buy_day <= i32::MAX,
    ensures
        b == bucket_of(*rules, buy_day as int, sell_day as int),
        b < rules.buckets(),
        rules.intraday_same_day && sell_day == buy_day ==> b == 0,
        !(rules.intraday_same_day && sell_day == buy_day) ==> {
            let k = b - (if rules.intraday_same_day {
                1int
            } else {
                0int
            });
            &&& 0 <= k <= rules.n_bounds
            &&& forall|j: int| 0 <= j < k ==> #[trigger] rules.boundaries@[j] < sell_day - buy_day
            &&& k < rules.n_bounds ==> sell_day - buy_day <= rules.boundaries@[k]
        },
{
    let span: i32 = sell_day - buy_day;
    let base: usize = if rules.intraday_same_day {
        if span == 0 {
            return 0;
        }
        1
    } else {
        0
    };
    let mut i: usize = 0;
    while i < rules.n_bounds
        invariant
            rules.wf(),
            i <= rules.n_bounds,
            base == (if rules.intraday_same_day { 1int } else { 0int }),
            rules.intraday_same_day ==> span != 0,
            span == sell_day - buy_day,
            forall|j: int| 0 <= j < i ==> #[trigger] rules.boundaries@[j] < span,
            bucket_of(*rules, buy_day as int, sell_day as int) == base + band_of(
                rules.boundaries@,
                rules.n_bounds as int,
                i as int,
                span as int,
            ),
        decreases rules.n_bounds - i,
    {
        if span <= rules.boundaries[i] {
            return base + i;
        }
        i = i + 1;
    }
    base + rules.n_bounds
}

/// Lots hold no negative quantity.
pub open spec fn lots_wf(lots: Seq<Lot>) -> bool {
    forall|i: int| 0 <= i < lots.len() ==> (#[trigger] lots[i]).qty >= 0
}

/// The fragments that a fold counts.
pub open spec fn fold_frags(
    desk: Desk,
    lots: Seq<Lot>,
    recs: Seq<PackedTrade>,
    count: Option<(i32, i32)>,
) -> Seq<Fragment> {
    counted(fold(desk, lots, recs).1, count)
}

/// Whether a sell on `day` counts.
fn counts(count: Option<(i32, i32)>, day: i32) -> (r: bool)
    ensures
        r == in_window(count, day),
        r == (count matches Some((lo, hi)) ==> lo <= day <= hi),
{
    match count {
        Some((lo, hi)) => day >= lo && day <= hi,
        None => true,
    }
}

/// Before the first record nothing has happened.
proof fn lemma_no_records(
    desk: Desk,
    lots: Seq<Lot>,
    recs: Seq<PackedTrade>,
    count: Option<(i32, i32)>,
)
    ensures
        fold(desk, lots, recs.take(0)).0 == lots,
        fold_frags(desk, lots, recs.take(0), count) == Seq::<Fragment>::empty(),
{
    reveal(Seq::filter);
    assert(recs.take(0) =~= Seq::empty());
    assert(fold_frags(desk, lots, recs.take(0), count) =~= Seq::empty());
}

/// Take up to `remaining` shares out of lot `idx`; a lot taken whole is removed.
fn consume(carry: &mut VecDeque<Lot>, idx: usize, remaining: i64) -> (r: (i64, Lot))
    requires
        idx < old(carry)@.len(),
        lots_wf(old(carry)@),
        remaining > 0,
    ensures
        r.1 == old(carry)@[idx as int],
        r.0 == (if r.1.qty <= remaining {
            r.1.qty
        } else {
            remaining
        }),
        final(carry)@ == (if r.1.qty <= remaining {
            old(carry)@.remove(idx as int)
        } else {
            old(carry)@.update(idx as int, Lot { qty: (r.1.qty - remaining) as i64, ..r.1 })
        }),
        lots_wf(final(carry)@),
{
    let lot: Lot = carry[idx];
    let matched: i64 = if remaining <= lot.qty {
        remaining
    } else {
        lot.qty
    };
    let _ = carry.remove(idx);
    if lot.qty != matched {
        carry.insert(
            idx,
            Lot { qty: lot.qty - matched, price_ticks: lot.price_ticks, day: lot.day },
        );
        assert(carry@ =~= old(carry)@.update(
            idx as int,
            Lot { qty: (lot.qty - remaining) as i64, ..lot },
        ));
    }
    (matched, lot)
}

/// A desk for folds in which no one asks whose trades they are.
pub open spec fn anon(rules: BucketRules, policy: MatchPolicy) -> Desk {
    Desk { client: 0, symbol: 0, rules, policy }
}

#[verifier::spinoff_prover]
fn fold_core_fifo<S: FragmentSink>(
    client: u64,
    symbol: u32,
    carry: &mut VecDeque<Lot>,
    recs: &[PackedTrade],
    sink: &mut S,
    count: Option<(i32, i32)>,
    rules: &BucketRules,
) -> (pnl: PartitionPnl)
    requires
        rules.wf(),
        lots_wf(old(carry)@),
        ({
            let desk = Desk { client, symbol, rules: *rules, policy: MatchPolicy::Fifo };
            let frags = fold_frags(desk, old(carry)@, recs@, count);
            tallyable(frags) && accepts(*old(sink), frags)
        }),
    ensures
        ({
            let desk = Desk { client, symbol, rules: *rules, policy: MatchPolicy::Fifo };
            let frags = fold_frags(desk, old(carry)@, recs@, count);
            &&& final(carry)@ == fold(desk, old(carry)@, recs@).0
            &&& lots_wf(final(carry)@)
            &&& pnl@ == tallies(frags)
            &&& took_all(*old(sink), frags, *final(sink))
        }),
{
    let ghost desk = Desk { client, symbol, rules: *rules, policy: MatchPolicy::Fifo };
    let ghost lots0 = carry@;
    let ghost sink0 = *sink;
    let ghost all = fold_frags(desk, lots0, recs@, count);
    let mut pnl = PartitionPnl::default();
    let mut i: usize = 0;
    proof {
        lemma_no_records(desk, lots0, recs@, count);
    }
    while i < recs.len()
        invariant
            i <= recs@.len(),
            rules.wf(),
            desk == (Desk { client, symbol, rules: *rules, policy: MatchPolicy::Fifo }),
            all == fold_frags(desk, lots0, recs@, count),
            tallyable(all),
            accepts(sink0, all),
            carry@ == fold(desk, lots0, recs@.take(i as int)).0,
            lots_wf(carry@),
            pnl@ == tallies(fold_frags(desk, lots0, recs@.take(i as int), count)),
            took_all(sink0, fold_frags(desk, lots0, recs@.take(i as int), count), *sink),
        decreases recs@.len() - i,
    {
        let r: PackedTrade = recs[i];
        let ghost before = carry@;
        let ghost done = fold_frags(desk, lots0, recs@.take(i as int), count);
        proof {
            crate::matching::lemma_fold_push(desk, lots0, recs@, i as int);
            crate::matching::lemma_counted_push(desk, lots0, recs@, i as int, count);
        }
        if r.signed_qty > 0 {
            carry.push_back(
                Lot { qty: r.signed_qty as i64, price_ticks: r.price_ticks as i64, day: r.day },
            );
            i = i + 1;
            assert(done + Seq::<Fragment>::empty() =~= done);
            continue;
        }
        let mut remaining: i64 = -(r.signed_qty as i64);
        let sell_ticks: i64 = r.price_ticks as i64;
        let sell_day: i32 = r.day;
        let is_counted = counts(count, sell_day);
        let ghost total = remaining as int;
        let ghost mut so_far = Seq::<Fragment>::empty();
        assert(so_far + drain(desk, before, total, r).1 =~= drain(desk, before, total, r).1);
        assert(done + so_far =~= done);
        while remaining > 0
            invariant_except_break
                0 <= remaining,
                drain(desk, before, total, r) == (
                    drain(desk, carry@, remaining as int, r).0,
                    so_far + drain(desk, carry@, remaining as int, r).1,
                ),
            invariant
                i < recs@.len(),
                r == recs@[i as int],
                rules.wf(),
                desk == (Desk { client, symbol, rules: *rules, policy: MatchPolicy::Fifo }),
                all == fold_frags(desk, lots0, recs@, count),
                tallyable(all),
                accepts(sink0, all),
                lots_wf(carry@),
                r.signed_qty <= 0,
                total == -(r.signed_qty as int),
                sell_ticks == r.price_ticks,
                sell_day == r.day,
                is_counted == in_window(count, r.day),
                before == fold(desk, lots0, recs@.take(i as int)).0,
                done == fold_frags(desk, lots0, recs@.take(i as int), count),
                pnl@ == tallies(
                    if is_counted {
                        done + so_far
                    } else {
                        done
                    },
                ),
                took_all(
                    sink0,
                    if is_counted {
                        done + so_far
                    } else {
                        done
                    },
                    *sink,
                ),
            ensures
                drain(desk, before, total, r) == (carry@, so_far),
            decreases carry@.len(), remaining,
        {
            let ghost lots1 = carry@;
            let ghost rem1 = remaining as int;
            let lot: Lot = match carry.pop_front() {
                Some(l) => l,
                None => {
                    assert(so_far + Seq::<Fragment>::empty() =~= so_far);
                    break ;
                },
            };
            assert(carry@ =~= lots1.remove(0));
            let matched: i64 = if remaining <= lot.qty {
                remaining
            } else {
                lot.qty
            };
            let ghost f = crate::matching::fragment(desk, lot, r, matched as int);
            let ghost rest = if lot.qty <= rem1 {
                drain(desk, lots1.remove(0), rem1 - lot.qty, r).1
            } else {
                Seq::empty()
            };
            assert(drain(desk, lots1, rem1, r).1 =~= seq![f] + rest);
            if is_counted {
                proof {
                    crate::matching::lemma_next_prefix(
                        desk,
                        lots0,
                        recs@,
                        i as int,
                        count,
                        so_far,
                        f,
                        rest,
                    );
                    crate::matching::lemma_tallyable_prefix(all, done + so_far, f);
                    crate::matching::lemma_sink_ready(sink0, all, done + so_far, f, *sink);
                }
                proof {
                    crate::matching::lemma_bucket_range(*rules, lot.day as int, sell_day as int);
                }
                let bucket: usize = classify(rules, lot.day, sell_day);
                let frag = Fragment {
                    client,
                    symbol,
                    buy_day: lot.day,
                    sell_day,
                    matched_qty: matched,
                    buy_ticks: lot.price_ticks,
                    sell_ticks,
                    bucket,
                };
                assert(frag == f);
                pnl.count_frag(&frag, Ghost(done + so_far));
                let ghost mid = *sink;
                sink.emit(&frag);
                proof {
                    crate::matching::lemma_took_push(sink0, done + so_far, f, mid, *sink);
                    assert((done + so_far).push(f) =~= done + so_far.push(f));
                }
            }
            remaining = remaining - matched;
            if lot.qty != matched {
                carry.push_front(
                    Lot { qty: lot.qty - matched, price_ticks: lot.price_ticks, day: lot.day },
                );
                assert(carry@ =~= lots1.update(0, Lot { qty: (lot.qty - rem1) as i64, ..lot }));
            }
            proof {
                assert(so_far + (seq![f] + rest) =~= so_far.push(f) + rest);
                so_far = so_far.push(f);
            }
        }
        i = i + 1;
    }
    assert(recs@.take(recs@.len() as int) =~= recs@);
    pnl
}

/// Fold `recs` into the open lots `carry`, which on return holds what is still
/// open.
///
/// `count` restricts which fragments are counted and emitted, by sell day, both
/// ends included. Lots are consumed either way.
#[verifier::spinoff_prover]
pub fn fold_core<S: FragmentSink>(
    client: u64,
    symbol: u32,
    carry: &mut VecDeque<Lot>,
    recs: &[PackedTrade],
    sink: &mut S,
    count: Option<(i32, i32)>,
    rules: &BucketRules,
    policy: MatchPolicy,
) -> (pnl: PartitionPnl)
    requires
        rules.wf(),
        lots_wf(old(carry)@),
        ({
            let desk = Desk { client, symbol, rules: *rules, policy };
            let frags = fold_frags(desk, old(carry)@, recs@, count);
            tallyable(frags) && accepts(*old(sink), frags)
        }),
    ensures
        ({
            let desk = Desk { client, symbol, rules: *rules, policy };
            let frags = fold_frags(desk, old(carry)@, recs@, count);
            &&& final(carry)@ == fold(desk, old(carry)@, recs@).0
            &&& lots_wf(final(carry)@)
            &&& pnl@ == tallies(frags)
            &&& took_all(*old(sink), frags, *final(sink))
        }),
{
    if policy == MatchPolicy::Fifo {
        return fold_core_fifo(client, symbol, carry, recs, sink, count, rules);
    }
    let ghost desk = Desk { client, symbol, rules: *rules, policy };
    let ghost lots0 = carry@;
    let ghost sink0 = *sink;
    let ghost all = fold_frags(desk, lots0, recs@, count);
    let mut pnl = PartitionPnl::default();
    let mut i: usize = 0;
    proof {
        lemma_no_records(desk, lots0, recs@, count);
    }
    while i < recs.len()
        invariant
            i <= recs@.len(),
            rules.wf(),
            desk == (Desk { client, symbol, rules: *rules, policy }),
            all == fold_frags(desk, lots0, recs@, count),
            tallyable(all),
            accepts(sink0, all),
            carry@ == fold(desk, lots0, recs@.take(i as int)).0,
            lots_wf(carry@),
            pnl@ == tallies(fold_frags(desk, lots0, recs@.take(i as int), count)),
            took_all(sink0, fold_frags(desk, lots0, recs@.take(i as int), count), *sink),
        decreases recs@.len() - i,
    {
        let r: PackedTrade = recs[i];
        let ghost before = carry@;
        let ghost done = fold_frags(desk, lots0, recs@.take(i as int), count);
        proof {
            crate::matching::lemma_fold_push(desk, lots0, recs@, i as int);
            crate::matching::lemma_counted_push(desk, lots0, recs@, i as int, count);
        }
        if r.signed_qty > 0 {
            carry.push_back(
                Lot { qty: r.signed_qty as i64, price_ticks: r.price_ticks as i64, day: r.day },
            );
            assert(done + Seq::<Fragment>::empty() =~= done);
        } else if r.signed_qty < 0 {
            let mut remaining: i64 = -(r.signed_qty as i64);
            let sell_ticks: i64 = r.price_ticks as i64;
            let sell_day: i32 = r.day;
            let is_counted = counts(count, sell_day);
            let ghost total = remaining as int;
            let ghost mut so_far = Seq::<Fragment>::empty();
            assert(so_far + drain(desk, before, total, r).1 =~= drain(desk, before, total, r).1);
            assert(done + so_far =~= done);
            while remaining > 0
                invariant_except_break
                    0 <= remaining,
                    drain(desk, before, total, r) == (
                        drain(desk, carry@, remaining as int, r).0,
                        so_far + drain(desk, carry@, remaining as int, r).1,
                    ),
                invariant
                    i < recs@.len(),
                    r == recs@[i as int],
                    rules.wf(),
                    desk == (Desk { client, symbol, rules: *rules, policy }),
                    all == fold_frags(desk, lots0, recs@, count),
                    tallyable(all),
                    accepts(sink0, all),
                    lots_wf(carry@),
                    r.signed_qty <= 0,
                    total == -(r.signed_qty as int),
                    sell_ticks == r.price_ticks,
                    sell_day == r.day,
                    is_counted == in_window(count, r.day),
                    before == fold(desk, lots0, recs@.take(i as int)).0,
                    done == fold_frags(desk, lots0, recs@.take(i as int), count),
                    pnl@ == tallies(
                        if is_counted {
                            done + so_far
                        } else {
                            done
                        },
                    ),
                    took_all(
                        sink0,
                        if is_counted {
                            done + so_far
                        } else {
                            done
                        },
                        *sink,
                    ),
                ensures
                    drain(desk, before, total, r) == (carry@, so_far),
                decreases carry@.len(), remaining,
            {
                let ghost lots1 = carry@;
                let ghost rem1 = remaining as int;
                if carry.len() == 0 {
                    assert(so_far + Seq::<Fragment>::empty() =~= so_far);
                    break ;
                }
                let idx: usize = pick_lot(carry, policy);
                let (matched, lot): (i64, Lot) = consume(carry, idx, remaining);
                let ghost f = crate::matching::fragment(desk, lot, r, matched as int);
                let ghost rest = if lot.qty <= rem1 {
                    drain(desk, lots1.remove(idx as int), rem1 - lot.qty, r).1
                } else {
                    Seq::empty()
                };
                assert(drain(desk, lots1, rem1, r).1 =~= seq![f] + rest);
                if is_counted {
                    proof {
                        crate::matching::lemma_next_prefix(
                            desk,
                            lots0,
                            recs@,
                            i as int,
                            count,
                            so_far,
                            f,
                            rest,
                        );
                        crate::matching::lemma_tallyable_prefix(all, done + so_far, f);
                        crate::matching::lemma_sink_ready(sink0, all, done + so_far, f, *sink);
                        crate::matching::lemma_bucket_range(
                            *rules,
                            lot.day as int,
                            sell_day as int,
                        );
                    }
                    let bucket: usize = classify(rules, lot.day, sell_day);
                    let frag = Fragment {
                        client,
                        symbol,
                        buy_day: lot.day,
                        sell_day,
                        matched_qty: matched,
                        buy_ticks: lot.price_ticks,
                        sell_ticks,
                        bucket,
                    };
                    assert(frag == f);
                    pnl.count_frag(&frag, Ghost(done + so_far));
                    let ghost mid = *sink;
                    sink.emit(&frag);
                    proof {
                        crate::matching::lemma_took_push(sink0, done + so_far, f, mid, *sink);
                        assert((done + so_far).push(f) =~= done + so_far.push(f));
                    }
                }
                remaining = remaining - matched;
                proof {
                    assert(so_far + (seq![f] + rest) =~= so_far.push(f) + rest);
                    so_far = so_far.push(f);
                }
            }
        } else {
            assert(done + Seq::<Fragment>::empty() =~= done);
        }
        i = i + 1;
    }
    assert(recs@.take(recs@.len() as int) =~= recs@);
    pnl
}

/// The bucket of `lot` sold by `r`, where the fragment stays within the machine's
/// integers.
fn countable_bucket(rules: &BucketRules, lot: Lot, r: PackedTrade) -> (b: Option<usize>)
    requires
        rules.wf(),
    ensures
        forall|desk: Desk, qty: int|
            desk.rules == *rules ==> (b is Some <==> crate::matching::countable(
                #[trigger] crate::matching::fragment(desk, lot, r, qty),
            )),
        b matches Some(x) ==> x == bucket_of(*rules, lot.day as int, r.day as int),
{
    let held: i64 = r.day as i64 - lot.day as i64;
    let spread: i128 = r.price_ticks as i128 - lot.price_ticks as i128;
    proof {
        crate::matching::lemma_bucket_range(*rules, lot.day as int, r.day as int);
    }
    if held < -0x8000_0000 || held > 0x7fff_ffff || spread < -0x8000_0000_0000_0000 || spread
        > 0x7fff_ffff_ffff_ffff {
        return None;
    }
    let bucket: usize = classify(rules, lot.day, r.day);
    if bucket < MAX_BUCKETS {
        Some(bucket)
    } else {
        None
    }
}

impl PartitionPnl {
    /// Count one more fragment, after `fs`, where the sums can hold it.
    fn try_count(&mut self, f: &Fragment, Ghost(fs): Ghost<Seq<Fragment>>) -> (r: bool)
        requires
            old(self)@ == tallies(fs),
            crate::matching::countable(*f),
        ensures
            r == tally(fs, f.bucket as int).plus(tally_one(*f)).fits(),
            r ==> final(self)@ == tallies(fs.push(*f)),
    {
        let now: BucketPnl = self.buckets[f.bucket];
        assert(now@ == self@[f.bucket as int]);
        assert(now@ == tally(fs, f.bucket as int));
        let fits = now.realized_ticks.checked_add(f.realized_ticks()).is_some()
            && now.matched_qty.checked_add(f.matched_qty as i128).is_some() && now.fragments
            < u64::MAX;
        if fits {
            self.count_frag(f, Ghost(fs));
        }
        fits
    }

    /// Add another partition's sums, where these can hold them.
    pub fn try_merge(&mut self, o: &PartitionPnl) -> (r: bool)
        ensures
            r == sum_fits(old(self)@, o@),
            r ==> final(self)@ == summed(old(self)@, o@),
            !r ==> *final(self) == *old(self),
    {
        let mut i: usize = 0;
        while i < MAX_BUCKETS
            invariant
                i <= MAX_BUCKETS,
                *self == *old(self),
                forall|b: int| 0 <= b < i ==> (#[trigger] self@[b]).plus(o@[b]).fits(),
            decreases MAX_BUCKETS - i,
        {
            let a: BucketPnl = self.buckets[i];
            let b: BucketPnl = o.buckets[i];
            assert(a@ == self@[i as int] && b@ == o@[i as int]);
            if a.realized_ticks.checked_add(b.realized_ticks).is_none() || a.matched_qty.checked_add(
                b.matched_qty,
            ).is_none() || a.fragments.checked_add(b.fragments).is_none() {
                assert(!self@[i as int].plus(o@[i as int]).fits());
                return false;
            }
            i = i + 1;
        }
        self.merge(o);
        true
    }
}

/// The fold of [`fold_core`] without a sink, over records that nothing is known of:
/// `None` where what it counts does not stay within the machine's integers.
#[verifier::spinoff_prover]
pub fn fold_checked(
    client: u64,
    symbol: u32,
    lots: VecDeque<Lot>,
    recs: &[PackedTrade],
    count: Option<(i32, i32)>,
    rules: &BucketRules,
    policy: MatchPolicy,
) -> (r: Option<PartitionPnl>)
    requires
        rules.wf(),
        lots_wf(lots@),
    ensures
        ({
            let desk = Desk { client, symbol, rules: *rules, policy };
            let frags = fold_frags(desk, lots@, recs@, count);
            &&& r is Some <==> tallyable(frags)
            &&& r matches Some(pnl) ==> pnl@ == tallies(frags)
        }),
{
    let ghost desk = Desk { client, symbol, rules: *rules, policy };
    let ghost lots0 = lots@;
    let ghost all = fold_frags(desk, lots0, recs@, count);
    let mut carry: VecDeque<Lot> = lots;
    let mut pnl = PartitionPnl::default();
    let mut i: usize = 0;
    proof {
        lemma_no_records(desk, lots0, recs@, count);
        assert(tallyable(Seq::empty())) by {
            assert forall|k: int, b: int| 0 <= k <= 0 && 0 <= b < MAX_BUCKETS implies (
            #[trigger] tally(Seq::<Fragment>::empty().take(k), b)).fits() by {
                assert(Seq::<Fragment>::empty().take(k) =~= Seq::empty());
            }
        }
    }
    while i < recs.len()
        invariant
            i <= recs@.len(),
            rules.wf(),
            lots0 == lots@,
            desk == (Desk { client, symbol, rules: *rules, policy }),
            all == fold_frags(desk, lots0, recs@, count),
            carry@ == fold(desk, lots0, recs@.take(i as int)).0,
            lots_wf(carry@),
            tallyable(fold_frags(desk, lots0, recs@.take(i as int), count)),
            pnl@ == tallies(fold_frags(desk, lots0, recs@.take(i as int), count)),
        decreases recs@.len() - i,
    {
        let r: PackedTrade = recs[i];
        let ghost before = carry@;
        let ghost done = fold_frags(desk, lots0, recs@.take(i as int), count);
        proof {
            crate::matching::lemma_fold_push(desk, lots0, recs@, i as int);
            crate::matching::lemma_counted_push(desk, lots0, recs@, i as int, count);
        }
        if r.signed_qty > 0 {
            carry.push_back(
                Lot { qty: r.signed_qty as i64, price_ticks: r.price_ticks as i64, day: r.day },
            );
            assert(done + Seq::<Fragment>::empty() =~= done);
        } else {
            let mut remaining: i64 = -(r.signed_qty as i64);
            let is_counted = counts(count, r.day);
            let ghost total = remaining as int;
            let ghost mut so_far = Seq::<Fragment>::empty();
            assert(so_far + drain(desk, before, total, r).1 =~= drain(desk, before, total, r).1);
            assert(done + so_far =~= done);
            while remaining > 0
                invariant_except_break
                    0 <= remaining,
                    drain(desk, before, total, r) == (
                        drain(desk, carry@, remaining as int, r).0,
                        so_far + drain(desk, carry@, remaining as int, r).1,
                    ),
                invariant
                    i < recs@.len(),
                    r == recs@[i as int],
                    rules.wf(),
                    lots0 == lots@,
                    desk == (Desk { client, symbol, rules: *rules, policy }),
                    all == fold_frags(desk, lots0, recs@, count),
                    lots_wf(carry@),
                    r.signed_qty <= 0,
                    total == -(r.signed_qty as int),
                    is_counted == in_window(count, r.day),
                    before == fold(desk, lots0, recs@.take(i as int)).0,
                    done == fold_frags(desk, lots0, recs@.take(i as int), count),
                    pnl@ == tallies(
                        if is_counted {
                            done + so_far
                        } else {
                            done
                        },
                    ),
                    tallyable(
                        if is_counted {
                            done + so_far
                        } else {
                            done
                        },
                    ),
                ensures
                    drain(desk, before, total, r) == (carry@, so_far),
                decreases carry@.len(), remaining,
            {
                let ghost lots1 = carry@;
                let ghost rem1 = remaining as int;
                if carry.len() == 0 {
                    assert(so_far + Seq::<Fragment>::empty() =~= so_far);
                    break ;
                }
                let idx: usize = pick_lot(&carry, policy);
                let (matched, lot): (i64, Lot) = consume(&mut carry, idx, remaining);
                let ghost f = crate::matching::fragment(desk, lot, r, matched as int);
                let ghost rest = if lot.qty <= rem1 {
                    drain(desk, lots1.remove(idx as int), rem1 - lot.qty, r).1
                } else {
                    Seq::empty()
                };
                assert(drain(desk, lots1, rem1, r).1 =~= seq![f] + rest);
                if is_counted {
                    proof {
                        crate::matching::lemma_next_prefix(
                            desk,
                            lots0,
                            recs@,
                            i as int,
                            count,
                            so_far,
                            f,
                            rest,
                        );
                        if tallyable(all) {
                            crate::matching::lemma_tallyable_prefix(all, done + so_far, f);
                        }
                    }
                    let bucket: usize = match countable_bucket(rules, lot, r) {
                        Some(b) => b,
                        None => {
                            return None;
                        },
                    };
                    let frag = Fragment {
                        client,
                        symbol,
                        buy_day: lot.day,
                        sell_day: r.day,
                        matched_qty: matched,
                        buy_ticks: lot.price_ticks,
                        sell_ticks: r.price_ticks as i64,
                        bucket,
                    };
                    assert(frag == f);
                    if !pnl.try_count(&frag, Ghost(done + so_far)) {
                        return None;
                    }
                    proof {
                        crate::matching::lemma_tallyable_push(done + so_far, f);
                        assert((done + so_far).push(f) =~= done + so_far.push(f));
                    }
                }
                remaining = remaining - matched;
                proof {
                    assert(so_far + (seq![f] + rest) =~= so_far.push(f) + rest);
                    so_far = so_far.push(f);
                }
            }
        }
        i = i + 1;
    }
    assert(recs@.take(recs@.len() as int) =~= recs@);
    Some(pnl)
}

/// The fold of [`fold_core`] without a sink.
#[verifier::spinoff_prover]
pub fn fold_core_nosink(
    carry: &mut VecDeque<Lot>,
    recs: &[PackedTrade],
    count: Option<(i32, i32)>,
    rules: &BucketRules,
    policy: MatchPolicy,
) -> (pnl: PartitionPnl)
    requires
        rules.wf(),
        lots_wf(old(carry)@),
        tallyable(fold_frags(anon(*rules, policy), old(carry)@, recs@, count)),
    ensures
        final(carry)@ == fold(anon(*rules, policy), old(carry)@, recs@).0,
        lots_wf(final(carry)@),
        pnl@ == tallies(fold_frags(anon(*rules, policy), old(carry)@, recs@, count)),
{
    if policy == MatchPolicy::Fifo {
        if is_default_equity_rules(rules) {
            return match count {
                None => fold_core_fifo_default_full_nosink(carry, recs, Ghost(*rules)),
                Some(_) => fold_core_fifo_default_nosink(carry, recs, count, Ghost(*rules)),
            };
        }
        return fold_core_fifo_nosink(carry, recs, count, rules);
    }
    let ghost desk = anon(*rules, policy);
    let ghost lots0 = carry@;
    let ghost all = fold_frags(desk, lots0, recs@, count);
    let mut pnl = PartitionPnl::default();
    let mut i: usize = 0;
    proof {
        lemma_no_records(desk, lots0, recs@, count);
    }
    while i < recs.len()
        invariant
            i <= recs@.len(),
            rules.wf(),
            desk == anon(*rules, policy),
            all == fold_frags(desk, lots0, recs@, count),
            tallyable(all),
            carry@ == fold(desk, lots0, recs@.take(i as int)).0,
            lots_wf(carry@),
            pnl@ == tallies(fold_frags(desk, lots0, recs@.take(i as int), count)),
        decreases recs@.len() - i,
    {
        let r: PackedTrade = recs[i];
        let ghost before = carry@;
        let ghost done = fold_frags(desk, lots0, recs@.take(i as int), count);
        proof {
            crate::matching::lemma_fold_push(desk, lots0, recs@, i as int);
            crate::matching::lemma_counted_push(desk, lots0, recs@, i as int, count);
        }
        if r.signed_qty > 0 {
            carry.push_back(
                Lot { qty: r.signed_qty as i64, price_ticks: r.price_ticks as i64, day: r.day },
            );
            assert(done + Seq::<Fragment>::empty() =~= done);
        } else if r.signed_qty < 0 {
            let mut remaining: i64 = -(r.signed_qty as i64);
            let sell_ticks: i64 = r.price_ticks as i64;
            let sell_day: i32 = r.day;
            let is_counted = counts(count, sell_day);
            let ghost total = remaining as int;
            let ghost mut so_far = Seq::<Fragment>::empty();
            assert(so_far + drain(desk, before, total, r).1 =~= drain(desk, before, total, r).1);
            assert(done + so_far =~= done);
            while remaining > 0
                invariant_except_break
                    0 <= remaining,
                    drain(desk, before, total, r) == (
                        drain(desk, carry@, remaining as int, r).0,
                        so_far + drain(desk, carry@, remaining as int, r).1,
                    ),
                invariant
                    i < recs@.len(),
                    r == recs@[i as int],
                    rules.wf(),
                    desk == anon(*rules, policy),
                    all == fold_frags(desk, lots0, recs@, count),
                    tallyable(all),
                    lots_wf(carry@),
                    r.signed_qty <= 0,
                    total == -(r.signed_qty as int),
                    sell_ticks == r.price_ticks,
                    sell_day == r.day,
                    is_counted == in_window(count, r.day),
                    before == fold(desk, lots0, recs@.take(i as int)).0,
                    done == fold_frags(desk, lots0, recs@.take(i as int), count),
                    pnl@ == tallies(
                        if is_counted {
                            done + so_far
                        } else {
                            done
                        },
                    ),
                ensures
                    drain(desk, before, total, r) == (carry@, so_far),
                decreases carry@.len(), remaining,
            {
                let ghost lots1 = carry@;
                let ghost rem1 = remaining as int;
                if carry.len() == 0 {
                    assert(so_far + Seq::<Fragment>::empty() =~= so_far);
                    break ;
                }
                let idx: usize = pick_lot(carry, policy);
                let (matched, lot): (i64, Lot) = consume(carry, idx, remaining);
                let ghost f = crate::matching::fragment(desk, lot, r, matched as int);
                let ghost rest = if lot.qty <= rem1 {
                    drain(desk, lots1.remove(idx as int), rem1 - lot.qty, r).1
                } else {
                    Seq::empty()
                };
                assert(drain(desk, lots1, rem1, r).1 =~= seq![f] + rest);
                if is_counted {
                    proof {
                        crate::matching::lemma_next_prefix(
                            desk,
                            lots0,
                            recs@,
                            i as int,
                            count,
                            so_far,
                            f,
                            rest,
                        );
                        crate::matching::lemma_tallyable_prefix(all, done + so_far, f);
                        crate::matching::lemma_bucket_range(
                            *rules,
                            lot.day as int,
                            sell_day as int,
                        );
                    }
                    let bucket: usize = classify(rules, lot.day, sell_day);
                    pnl.count_match(
                        bucket,
                        matched,
                        sell_ticks - lot.price_ticks,
                        Ghost(f),
                        Ghost(done + so_far),
                    );
                    assert((done + so_far).push(f) =~= done + so_far.push(f));
                }
                remaining = remaining - matched;
                proof {
                    assert(so_far + (seq![f] + rest) =~= so_far.push(f) + rest);
                    so_far = so_far.push(f);
                }
            }
        } else {
            assert(done + Seq::<Fragment>::empty() =~= done);
        }
        i = i + 1;
    }
    assert(recs@.take(recs@.len() as int) =~= recs@);
    pnl
}

fn is_default_equity_rules(rules: &BucketRules) -> (r: bool)
    ensures
        r == rules.default_equity(),
{
    rules.is_default_equity()
}

/// Move all lots out of the queue, oldest first.
fn take_lots(carry: &mut VecDeque<Lot>) -> (lots: Vec<Lot>)
    ensures
        lots@ == old(carry)@,
        final(carry)@ == Seq::<Lot>::empty(),
{
    let ghost all = carry@;
    let mut lots: Vec<Lot> = Vec::new();
    loop
        invariant_except_break
            lots@ + carry@ == all,
        ensures
            lots@ == all,
            carry@ == Seq::<Lot>::empty(),
        decreases carry@.len(),
    {
        let ghost l1 = lots@;
        let ghost c1 = carry@;
        match carry.pop_front() {
            Some(lot) => {
                lots.push(lot);
                assert(l1.push(lot) + carry@ =~= l1 + c1);
            },
            None => {
                assert(carry@ =~= Seq::<Lot>::empty());
                assert(lots@ + carry@ =~= lots@);
                break ;
            },
        }
    }
    lots
}

/// Put the lots from `head` on back into the empty queue.
fn put_lots(carry: &mut VecDeque<Lot>, lots: &Vec<Lot>, head: usize)
    requires
        old(carry)@ == Seq::<Lot>::empty(),
        head <= lots@.len(),
    ensures
        final(carry)@ == lots@.skip(head as int),
{
    let mut j: usize = head;
    while j < lots.len()
        invariant
            head <= j <= lots@.len(),
            carry@ == lots@.subrange(head as int, j as int),
        decreases lots@.len() - j,
    {
        carry.push_back(lots[j]);
        j = j + 1;
        assert(carry@ =~= lots@.subrange(head as int, j as int));
    }
    assert(carry@ =~= lots@.skip(head as int));
}

/// Take up to `remaining` shares out of the lot at `head`, and step past it when
/// it is taken whole.
fn consume_head(lots: &mut Vec<Lot>, head: &mut usize, remaining: i64) -> (r: (i64, Lot))
    requires
        *old(head) < old(lots)@.len(),
        lots_wf(old(lots)@),
        remaining > 0,
    ensures
        r.1 == old(lots)@[*old(head) as int],
        r.0 == (if r.1.qty <= remaining {
            r.1.qty
        } else {
            remaining
        }),
        *final(head) <= final(lots)@.len(),
        final(lots)@.len() == old(lots)@.len(),
        final(lots)@.skip(*final(head) as int) == (if r.1.qty <= remaining {
            old(lots)@.skip(*old(head) as int).remove(0)
        } else {
            old(lots)@.skip(*old(head) as int).update(
                0,
                Lot { qty: (r.1.qty - remaining) as i64, ..r.1 },
            )
        }),
        lots_wf(final(lots)@),
        r.1.qty <= remaining ==> *final(head) == *old(head) + 1,
        r.1.qty > remaining ==> *final(head) == *old(head),
{
    let h: usize = *head;
    let n: usize = lots.len();
    assert(h < n);
    let lot: Lot = lots[h];
    let matched: i64 = if remaining <= lot.qty {
        remaining
    } else {
        lot.qty
    };
    lots[h] = Lot { qty: lot.qty - matched, price_ticks: lot.price_ticks, day: lot.day };
    if lot.qty == matched {
        *head = h + 1;
        assert(lots@.skip(h + 1) =~= old(lots)@.skip(h as int).remove(0));
    } else {
        assert(lots@.skip(h as int) =~= old(lots)@.skip(h as int).update(
            0,
            Lot { qty: (lot.qty - remaining) as i64, ..lot },
        ));
    }
    (matched, lot)
}

#[verifier::spinoff_prover]
fn fold_core_fifo_nosink(
    carry: &mut VecDeque<Lot>,
    recs: &[PackedTrade],
    count: Option<(i32, i32)>,
    rules: &BucketRules,
) -> (pnl: PartitionPnl)
    requires
        rules.wf(),
        lots_wf(old(carry)@),
        tallyable(fold_frags(anon(*rules, MatchPolicy::Fifo), old(carry)@, recs@, count)),
    ensures
        final(carry)@ == fold(anon(*rules, MatchPolicy::Fifo), old(carry)@, recs@).0,
        lots_wf(final(carry)@),
        pnl@ == tallies(fold_frags(anon(*rules, MatchPolicy::Fifo), old(carry)@, recs@, count)),
{
    let ghost desk = anon(*rules, MatchPolicy::Fifo);
    let ghost lots0 = carry@;
    let ghost all = fold_frags(desk, lots0, recs@, count);
    let mut pnl = PartitionPnl::default();
    let mut lots: Vec<Lot> = take_lots(carry);
    let mut head: usize = 0;
    let mut i: usize = 0;
    assert(lots@.skip(0) =~= lots0);
    proof {
        lemma_no_records(desk, lots0, recs@, count);
    }
    while i < recs.len()
        invariant
            i <= recs@.len(),
            rules.wf(),
            desk == anon(*rules, MatchPolicy::Fifo),
            all == fold_frags(desk, lots0, recs@, count),
            tallyable(all),
            head <= lots@.len(),
            lots@.skip(head as int) == fold(desk, lots0, recs@.take(i as int)).0,
            lots_wf(lots@),
            pnl@ == tallies(fold_frags(desk, lots0, recs@.take(i as int), count)),
        decreases recs@.len() - i,
    {
        let r: PackedTrade = recs[i];
        let ghost before = lots@.skip(head as int);
        let ghost done = fold_frags(desk, lots0, recs@.take(i as int), count);
        proof {
            crate::matching::lemma_fold_push(desk, lots0, recs@, i as int);
            crate::matching::lemma_counted_push(desk, lots0, recs@, i as int, count);
        }
        if r.signed_qty > 0 {
            lots.push(
                Lot { qty: r.signed_qty as i64, price_ticks: r.price_ticks as i64, day: r.day },
            );
            assert(lots@.skip(head as int) =~= before.push(lot_of(r)));
            assert(done + Seq::<Fragment>::empty() =~= done);
            i = i + 1;
            continue;
        }
        let mut remaining: i64 = -(r.signed_qty as i64);
        let sell_ticks: i64 = r.price_ticks as i64;
        let sell_day: i32 = r.day;
        let is_counted = counts(count, sell_day);
        let ghost total = remaining as int;
        let ghost mut so_far = Seq::<Fragment>::empty();
        assert(so_far + drain(desk, before, total, r).1 =~= drain(desk, before, total, r).1);
        assert(done + so_far =~= done);
        while remaining > 0 && head < lots.len()
            invariant
                0 <= remaining,
                head <= lots@.len(),
                drain(desk, before, total, r) == (
                    drain(desk, lots@.skip(head as int), remaining as int, r).0,
                    so_far + drain(desk, lots@.skip(head as int), remaining as int, r).1,
                ),
                i < recs@.len(),
                r == recs@[i as int],
                rules.wf(),
                desk == anon(*rules, MatchPolicy::Fifo),
                all == fold_frags(desk, lots0, recs@, count),
                tallyable(all),
                lots_wf(lots@),
                r.signed_qty <= 0,
                total == -(r.signed_qty as int),
                sell_ticks == r.price_ticks,
                sell_day == r.day,
                is_counted == in_window(count, r.day),
                before == fold(desk, lots0, recs@.take(i as int)).0,
                done == fold_frags(desk, lots0, recs@.take(i as int), count),
                pnl@ == tallies(if is_counted { done + so_far } else { done }),
            decreases lots@.len() - head, remaining,
        {
            let ghost lots1 = lots@.skip(head as int);
            let ghost rem1 = remaining as int;
            let (matched, lot): (i64, Lot) = consume_head(&mut lots, &mut head, remaining);
            let ghost f = crate::matching::fragment(desk, lot, r, matched as int);
            let ghost rest = if lot.qty <= rem1 {
                drain(desk, lots1.remove(0), rem1 - lot.qty, r).1
            } else {
                Seq::empty()
            };
            assert(drain(desk, lots1, rem1, r).1 =~= seq![f] + rest);
            if is_counted {
                proof {
                    crate::matching::lemma_next_prefix(
                        desk,
                        lots0,
                        recs@,
                        i as int,
                        count,
                        so_far,
                        f,
                        rest,
                    );
                    crate::matching::lemma_tallyable_prefix(all, done + so_far, f);
                    crate::matching::lemma_bucket_range(*rules, lot.day as int, sell_day as int);
                }
                let bucket: usize = classify(rules, lot.day, sell_day);
                pnl.count_match(
                    bucket,
                    matched,
                    sell_ticks - lot.price_ticks,
                    Ghost(f),
                    Ghost(done + so_far),
                );
                assert((done + so_far).push(f) =~= done + so_far.push(f));
            }
            remaining = remaining - matched;
            proof {
                assert(so_far + (seq![f] + rest) =~= so_far.push(f) + rest);
                so_far = so_far.push(f);
            }
        }
        assert(so_far + Seq::<Fragment>::empty() =~= so_far);
        i = i + 1;
    }
    assert(recs@.take(recs@.len() as int) =~= recs@);
    put_lots(carry, &lots, head);
    pnl
}

/// `matched` shares at `spread` ticks each.
fn times(matched: i64, spread: i64) -> (r: i128)
    ensures
        r == matched * spread,
{
    assert(-0x4000_0000_0000_0000_0000_0000_0000_0000 <= matched * spread
        <= 0x4000_0000_0000_0000_0000_0000_0000_0000) by (nonlinear_arith)
        requires
            i64::MIN <= matched <= i64::MAX,
            i64::MIN <= spread <= i64::MAX,
    ;
    matched as i128 * spread as i128
}

/// The three sums are the tallies of `fs`, which fall into no fourth bucket.
spec fn three(same_day: BucketPnl, short: BucketPnl, long: BucketPnl, fs: Seq<Fragment>) -> bool {
    &&& same_day@ == tally(fs, 0)
    &&& short@ == tally(fs, 1)
    &&& long@ == tally(fs, 2)
    &&& forall|i: int| 0 <= i < fs.len() ==> (#[trigger] fs[i]).bucket < 3
}

/// Count one more fragment, `f`, held for `span` days, after `fs`.
fn add_three(
    same_day: &mut BucketPnl,
    short: &mut BucketPnl,
    long: &mut BucketPnl,
    span: i32,
    realized: i128,
    matched: i64,
    Ghost(fs): Ghost<Seq<Fragment>>,
    Ghost(f): Ghost<Fragment>,
)
    requires
        three(*old(same_day), *old(short), *old(long), fs),
        f.bucket == (if span == 0 {
            0int
        } else if span <= LONG_TERM_DAYS {
            1
        } else {
            2
        }),
        realized == f.realized(),
        matched == f.matched_qty,
        tally(fs, f.bucket as int).plus(tally_one(f)).fits(),
    ensures
        three(*final(same_day), *final(short), *final(long), fs.push(f)),
{
    proof {
        crate::matching::lemma_tally_push(fs, f, 0);
        crate::matching::lemma_tally_push(fs, f, 1);
        crate::matching::lemma_tally_push(fs, f, 2);
    }
    if span == 0 {
        same_day.add_frag(realized, matched);
    } else if span <= LONG_TERM_DAYS {
        short.add_frag(realized, matched);
    } else {
        long.add_frag(realized, matched);
    }
}

proof fn lemma_three_total(
    same_day: BucketPnl,
    short: BucketPnl,
    long: BucketPnl,
    fs: Seq<Fragment>,
)
    requires
        three(same_day, short, long, fs),
    ensures
        forall|b: int| 3 <= b ==> #[trigger] tally(fs, b) == Tally::zero(),
{
    assert forall|b: int| 3 <= b implies #[trigger] tally(fs, b) == Tally::zero() by {
        lemma_no_such_bucket(fs, b);
    }
}

/// A bucket that no fragment falls into adds up to nothing.
proof fn lemma_no_such_bucket(fs: Seq<Fragment>, b: int)
    requires
        forall|i: int| 0 <= i < fs.len() ==> (#[trigger] fs[i]).bucket != b,
    ensures
        tally(fs, b) == Tally::zero(),
    decreases fs.len(),
{
    if fs.len() > 0 {
        assert(fs.last().bucket != b);
        lemma_no_such_bucket(fs.drop_last(), b);
    }
}

#[verifier::spinoff_prover]
fn fold_core_fifo_default_nosink(
    carry: &mut VecDeque<Lot>,
    recs: &[PackedTrade],
    count: Option<(i32, i32)>,
    Ghost(rules): Ghost<BucketRules>,
) -> (pnl: PartitionPnl)
    requires
        rules.default_equity(),
        lots_wf(old(carry)@),
        tallyable(fold_frags(anon(rules, MatchPolicy::Fifo), old(carry)@, recs@, count)),
    ensures
        final(carry)@ == fold(anon(rules, MatchPolicy::Fifo), old(carry)@, recs@).0,
        lots_wf(final(carry)@),
        pnl@ == tallies(fold_frags(anon(rules, MatchPolicy::Fifo), old(carry)@, recs@, count)),
{
    let ghost desk = anon(rules, MatchPolicy::Fifo);
    let ghost lots0 = carry@;
    let ghost all = fold_frags(desk, lots0, recs@, count);
    let mut lots: Vec<Lot> = take_lots(carry);
    let mut head: usize = 0;
    let mut i: usize = 0;
    assert(lots@.skip(0) =~= lots0);
    proof {
        lemma_no_records(desk, lots0, recs@, count);
    }
    let mut same_day = BucketPnl::default();
    let mut short = BucketPnl::default();
    let mut long = BucketPnl::default();
    assert(three(same_day, short, long, Seq::empty()));
    while i < recs.len()
        invariant
            i <= recs@.len(),
            rules.default_equity(),
            desk == anon(rules, MatchPolicy::Fifo),
            all == fold_frags(desk, lots0, recs@, count),
            tallyable(all),
            head <= lots@.len(),
            lots@.skip(head as int) == fold(desk, lots0, recs@.take(i as int)).0,
            lots_wf(lots@),
            three(same_day, short, long, fold_frags(desk, lots0, recs@.take(i as int), count)),
        decreases recs@.len() - i,
    {
        let r: PackedTrade = recs[i];
        let ghost before = lots@.skip(head as int);
        let ghost done = fold_frags(desk, lots0, recs@.take(i as int), count);
        proof {
            crate::matching::lemma_fold_push(desk, lots0, recs@, i as int);
            crate::matching::lemma_counted_push(desk, lots0, recs@, i as int, count);
        }
        if r.signed_qty > 0 {
            lots.push(
                Lot { qty: r.signed_qty as i64, price_ticks: r.price_ticks as i64, day: r.day },
            );
            assert(lots@.skip(head as int) =~= before.push(lot_of(r)));
            assert(done + Seq::<Fragment>::empty() =~= done);
            i = i + 1;
            continue;
        }
        let mut remaining: i64 = -(r.signed_qty as i64);
        let sell_ticks: i64 = r.price_ticks as i64;
        let sell_day: i32 = r.day;
        let is_counted = counts(count, sell_day);
        let ghost total = remaining as int;
        let ghost mut so_far = Seq::<Fragment>::empty();
        assert(so_far + drain(desk, before, total, r).1 =~= drain(desk, before, total, r).1);
        assert(done + so_far =~= done);
        while remaining > 0 && head < lots.len()
            invariant
                0 <= remaining,
                head <= lots@.len(),
                drain(desk, before, total, r) == (
                    drain(desk, lots@.skip(head as int), remaining as int, r).0,
                    so_far + drain(desk, lots@.skip(head as int), remaining as int, r).1,
                ),
                i < recs@.len(),
                r == recs@[i as int],
                rules.default_equity(),
                desk == anon(rules, MatchPolicy::Fifo),
                all == fold_frags(desk, lots0, recs@, count),
                tallyable(all),
                lots_wf(lots@),
                r.signed_qty <= 0,
                total == -(r.signed_qty as int),
                sell_ticks == r.price_ticks,
                sell_day == r.day,
                is_counted == in_window(count, r.day),
                before == fold(desk, lots0, recs@.take(i as int)).0,
                done == fold_frags(desk, lots0, recs@.take(i as int), count),
                three(same_day, short, long, if is_counted { done + so_far } else { done }),
            decreases lots@.len() - head, remaining,
        {
            let ghost lots1 = lots@.skip(head as int);
            let ghost rem1 = remaining as int;
            let (matched, lot): (i64, Lot) = consume_head(&mut lots, &mut head, remaining);
            let ghost f = crate::matching::fragment(desk, lot, r, matched as int);
            let ghost rest = if lot.qty <= rem1 {
                drain(desk, lots1.remove(0), rem1 - lot.qty, r).1
            } else {
                Seq::empty()
            };
            assert(drain(desk, lots1, rem1, r).1 =~= seq![f] + rest);
            if is_counted {
                proof {
                    crate::matching::lemma_next_prefix(
                        desk,
                        lots0,
                        recs@,
                        i as int,
                        count,
                        so_far,
                        f,
                        rest,
                    );
                    crate::matching::lemma_tallyable_prefix(all, done + so_far, f);
                    crate::matching::lemma_bucket_range(rules, lot.day as int, sell_day as int);
                }
                let spread: i64 = sell_ticks - lot.price_ticks;
                let realized: i128 = times(matched, spread);
                let span: i32 = sell_day - lot.day;
                proof {
                    rules.lemma_default_bucket(lot.day as int, sell_day as int);
                }
                add_three(
                    &mut same_day,
                    &mut short,
                    &mut long,
                    span,
                    realized,
                    matched,
                    Ghost(done + so_far),
                    Ghost(f),
                );
                assert((done + so_far).push(f) =~= done + so_far.push(f));
            }
            remaining = remaining - matched;
            proof {
                assert(so_far + (seq![f] + rest) =~= so_far.push(f) + rest);
                so_far = so_far.push(f);
            }
        }
        assert(so_far + Seq::<Fragment>::empty() =~= so_far);
        i = i + 1;
    }
    assert(recs@.take(recs@.len() as int) =~= recs@);
    put_lots(carry, &lots, head);
    let mut pnl = PartitionPnl::default();
    let ghost blank = pnl@;
    pnl.buckets[0] = same_day;
    pnl.buckets[1] = short;
    pnl.buckets[2] = long;
    proof {
        lemma_three_total(same_day, short, long, all);
        assert forall|b: int| 0 <= b < MAX_BUCKETS implies #[trigger] pnl@[b] == tally(all, b) by {
            assert(blank[b] == tally(Seq::empty(), b));
        }
        assert(pnl@ =~= tallies(all));
    }
    pnl
}

#[verifier::spinoff_prover]
fn fold_core_fifo_default_full_nosink(
    carry: &mut VecDeque<Lot>,
    recs: &[PackedTrade],
    Ghost(rules): Ghost<BucketRules>,
) -> (pnl: PartitionPnl)
    requires
        rules.default_equity(),
        lots_wf(old(carry)@),
        tallyable(fold_frags(anon(rules, MatchPolicy::Fifo), old(carry)@, recs@, None)),
    ensures
        final(carry)@ == fold(anon(rules, MatchPolicy::Fifo), old(carry)@, recs@).0,
        lots_wf(final(carry)@),
        pnl@ == tallies(fold_frags(anon(rules, MatchPolicy::Fifo), old(carry)@, recs@, None)),
{
    let ghost count: Option<(i32, i32)> = None;
    let ghost desk = anon(rules, MatchPolicy::Fifo);
    let ghost lots0 = carry@;
    let ghost all = fold_frags(desk, lots0, recs@, count);
    let mut lots: Vec<Lot> = take_lots(carry);
    let mut head: usize = 0;
    let mut i: usize = 0;
    assert(lots@.skip(0) =~= lots0);
    proof {
        lemma_no_records(desk, lots0, recs@, count);
    }
    let mut same_day = BucketPnl::default();
    let mut short = BucketPnl::default();
    let mut long = BucketPnl::default();
    assert(three(same_day, short, long, Seq::empty()));
    while i < recs.len()
        invariant
            i <= recs@.len(),
            rules.default_equity(),
            desk == anon(rules, MatchPolicy::Fifo),
            count is None,
            all == fold_frags(desk, lots0, recs@, count),
            tallyable(all),
            head <= lots@.len(),
            lots@.skip(head as int) == fold(desk, lots0, recs@.take(i as int)).0,
            lots_wf(lots@),
            three(same_day, short, long, fold_frags(desk, lots0, recs@.take(i as int), count)),
        decreases recs@.len() - i,
    {
        let r: PackedTrade = recs[i];
        let ghost before = lots@.skip(head as int);
        let ghost done = fold_frags(desk, lots0, recs@.take(i as int), count);
        proof {
            crate::matching::lemma_fold_push(desk, lots0, recs@, i as int);
            crate::matching::lemma_counted_push(desk, lots0, recs@, i as int, count);
        }
        if r.signed_qty > 0 {
            lots.push(
                Lot { qty: r.signed_qty as i64, price_ticks: r.price_ticks as i64, day: r.day },
            );
            assert(lots@.skip(head as int) =~= before.push(lot_of(r)));
            assert(done + Seq::<Fragment>::empty() =~= done);
            i = i + 1;
            continue;
        }
        let mut remaining: i64 = -(r.signed_qty as i64);
        let sell_ticks: i64 = r.price_ticks as i64;
        let sell_day: i32 = r.day;
        let ghost total = remaining as int;
        let ghost mut so_far = Seq::<Fragment>::empty();
        assert(so_far + drain(desk, before, total, r).1 =~= drain(desk, before, total, r).1);
        assert(done + so_far =~= done);
        while remaining > 0 && head < lots.len()
            invariant
                0 <= remaining,
                head <= lots@.len(),
                drain(desk, before, total, r) == (
                    drain(desk, lots@.skip(head as int), remaining as int, r).0,
                    so_far + drain(desk, lots@.skip(head as int), remaining as int, r).1,
                ),
                i < recs@.len(),
                r == recs@[i as int],
                rules.default_equity(),
                desk == anon(rules, MatchPolicy::Fifo),
                all == fold_frags(desk, lots0, recs@, count),
                tallyable(all),
                lots_wf(lots@),
                r.signed_qty <= 0,
                total == -(r.signed_qty as int),
                sell_ticks == r.price_ticks,
                sell_day == r.day,
                count is None,
                before == fold(desk, lots0, recs@.take(i as int)).0,
                done == fold_frags(desk, lots0, recs@.take(i as int), count),
                three(same_day, short, long, done + so_far),
            decreases lots@.len() - head, remaining,
        {
            let ghost lots1 = lots@.skip(head as int);
            let ghost rem1 = remaining as int;
            let (matched, lot): (i64, Lot) = consume_head(&mut lots, &mut head, remaining);
            let ghost f = crate::matching::fragment(desk, lot, r, matched as int);
            let ghost rest = if lot.qty <= rem1 {
                drain(desk, lots1.remove(0), rem1 - lot.qty, r).1
            } else {
                Seq::empty()
            };
            assert(drain(desk, lots1, rem1, r).1 =~= seq![f] + rest);
            proof {
                crate::matching::lemma_next_prefix(
                    desk,
                    lots0,
                    recs@,
                    i as int,
                    count,
                    so_far,
                    f,
                    rest,
                );
                crate::matching::lemma_tallyable_prefix(all, done + so_far, f);
                crate::matching::lemma_bucket_range(rules, lot.day as int, sell_day as int);
            }
            let spread: i64 = sell_ticks - lot.price_ticks;
            let realized: i128 = times(matched, spread);
            let span: i32 = sell_day - lot.day;
            proof {
                rules.lemma_default_bucket(lot.day as int, sell_day as int);
            }
            add_three(
                &mut same_day,
                &mut short,
                &mut long,
                span,
                realized,
                matched,
                Ghost(done + so_far),
                Ghost(f),
            );
            assert((done + so_far).push(f) =~= done + so_far.push(f));
            remaining = remaining - matched;
            proof {
                assert(so_far + (seq![f] + rest) =~= so_far.push(f) + rest);
                so_far = so_far.push(f);
            }
        }
        assert(so_far + Seq::<Fragment>::empty() =~= so_far);
        assert(drain(desk, before, total, r) == (lots@.skip(head as int), so_far));
        assert(in_window(count, r.day));
        assert(fold_frags(desk, lots0, recs@.take(i + 1), count) == done + so_far);
        i = i + 1;
    }
    assert(recs@.take(recs@.len() as int) =~= recs@);
    put_lots(carry, &lots, head);
    let mut pnl = PartitionPnl::default();
    let ghost blank = pnl@;
    pnl.buckets[0] = same_day;
    pnl.buckets[1] = short;
    pnl.buckets[2] = long;
    proof {
        lemma_three_total(same_day, short, long, all);
        assert forall|b: int| 0 <= b < MAX_BUCKETS implies #[trigger] pnl@[b] == tally(all, b) by {
            assert(blank[b] == tally(Seq::empty(), b));
        }
        assert(pnl@ =~= tallies(all));
    }
    pnl
}

/// The desk of a client and symbol under the default rules.
pub open spec fn default_desk(client: u64, symbol: u32) -> Desk {
    Desk {
        client,
        symbol,
        rules: BucketRules::equity_rules(LONG_TERM_DAYS),
        policy: MatchPolicy::Fifo,
    }
}

/// Fold `recs` into the open lots `carry`, first in first out, under the default
/// rules, counting every fragment.
pub fn fold_with_carry<S: FragmentSink>(
    client: u64,
    symbol: u32,
    carry: &mut VecDeque<Lot>,
    recs: &[PackedTrade],
    sink: &mut S,
) -> (pnl: PartitionPnl)
    requires
        lots_wf(old(carry)@),
        tallyable(fold_frags(default_desk(client, symbol), old(carry)@, recs@, None)),
        accepts(*old(sink), fold_frags(default_desk(client, symbol), old(carry)@, recs@, None)),
    ensures
        final(carry)@ == fold(default_desk(client, symbol), old(carry)@, recs@).0,
        lots_wf(final(carry)@),
        pnl@ == tallies(fold_frags(default_desk(client, symbol), old(carry)@, recs@, None)),
        took_all(
            *old(sink),
            fold_frags(default_desk(client, symbol), old(carry)@, recs@, None),
            *final(sink),
        ),
{
    fold_core(
        client,
        symbol,
        carry,
        recs,
        sink,
        None,
        &BucketRules::default(),
        MatchPolicy::Fifo,
    )
}

/// The fragments of a partition folded from no open lots.
pub open spec fn partition_frags(client: u64, symbol: u32, recs: Seq<PackedTrade>) -> Seq<
    Fragment,
> {
    fold_frags(default_desk(client, symbol), Seq::empty(), recs, None)
}

/// Fold a partition from no open lots.
pub fn fold_partition<S: FragmentSink>(
    client: u64,
    symbol: u32,
    recs: &[PackedTrade],
    sink: &mut S,
) -> (pnl: PartitionPnl)
    requires
        tallyable(partition_frags(client, symbol, recs@)),
        accepts(*old(sink), partition_frags(client, symbol, recs@)),
    ensures
        pnl@ == tallies(partition_frags(client, symbol, recs@)),
        took_all(*old(sink), partition_frags(client, symbol, recs@), *final(sink)),
{
    let mut carry: VecDeque<Lot> = VecDeque::new();
    fold_with_carry(client, symbol, &mut carry, recs, sink)
}

/// The fragments of a table's partitions, one after the other.
pub open spec fn table_frags(m: TableModel) -> Seq<Seq<Fragment>> {
    Seq::new(
        m.n_parts as nat,
        |p: int| partition_frags(m.clients[p], m.symbols[p], m.part(p)),
    )
}

/// Fold every partition of a table into one result.
pub fn fold_table<S: FragmentSink>(table: &PackedTable, sink: &mut S) -> (total: PartitionPnl)
    requires
        table@.wf(),
        all_tallyable(table_frags(table@)),
        accepts(*old(sink), joined(table_frags(table@))),
    ensures
        total@ == tallies(joined(table_frags(table@))),
        took_all(*old(sink), joined(table_frags(table@)), *final(sink)),
{
    let pc = table.part_client();
    let ps = table.part_symbol();
    let ghost m = table@;
    let ghost fss = table_frags(m);
    let ghost sink0 = *sink;
    let mut total = PartitionPnl::default();
    let mut p: usize = 0;
    assert(fss.take(0) =~= Seq::empty());
    while p < pc.len()
        invariant
            m == table@,
            m.wf(),
            pc@ == m.clients,
            ps@ == m.symbols,
            p <= pc@.len(),
            fss == table_frags(m),
            all_tallyable(fss),
            accepts(sink0, joined(fss)),
            total@ == tallies(joined(fss.take(p as int))),
            took_all(sink0, joined(fss.take(p as int)), *sink),
        decreases pc@.len() - p,
    {
        let ghost mid = *sink;
        assert(fss[p as int] == partition_frags(pc@[p as int], ps@[p as int], m.part(p as int)));
        proof {
            crate::matching::lemma_accepts_next(sink0, fss, p as int, mid);
        }
        let part = fold_partition(pc[p], ps[p], table.partition(p), sink);
        proof {
            crate::matching::lemma_took_append(
                sink0,
                joined(fss.take(p as int)),
                mid,
                fss[p as int],
                *sink,
            );
            lemma_merge_next(fss, p as int);
        }
        total.merge(&part);
        p = p + 1;
    }
    assert(fss.take(fss.len() as int) =~= fss);
    total
}

/// Merging the tallies of the next fold.
pub proof fn lemma_merge_next(fss: Seq<Seq<Fragment>>, k: int)
    requires
        0 <= k < fss.len(),
        all_tallyable(fss),
    ensures
        sum_fits(tallies(joined(fss.take(k))), tallies(fss[k])),
        summed(tallies(joined(fss.take(k))), tallies(fss[k])) == tallies(joined(fss.take(k + 1))),
        joined(fss.take(k + 1)) == joined(fss.take(k)) + fss[k],
{
    crate::matching::lemma_joined_push(fss, k);
    let a = joined(fss.take(k));
    assert forall|b: int| 0 <= b < MAX_BUCKETS implies tally(a + fss[k], b) == (
    #[trigger] tallies(a)[b]).plus(tallies(fss[k])[b]) by {
        crate::matching::lemma_tally_append(a, fss[k], b);
    }
    assert forall|b: int| 0 <= b < MAX_BUCKETS implies (#[trigger] tallies(a)[b]).plus(
        tallies(fss[k])[b],
    ).fits() by {
        assert(tally(joined(fss.take(k + 1)), b).fits());
    }
    assert(summed(tallies(a), tallies(fss[k])) =~= tallies(a + fss[k]));
}

/// What the label of bucket `i` says of a holding of `span` days.
pub open spec fn label_covers(rules: BucketRules, i: int, span: int) -> bool {
    let k = rules.band(i);
    if k < 0 {
        span == 0
    } else if k < rules.n_bounds {
        rules.band_start(k) <= span <= rules.boundaries@[k]
    } else {
        span > rules.boundaries@[rules.n_bounds - 1]
    }
}

/// The bounds in use ascend.
pub open spec fn bounds_ascend(rules: BucketRules) -> bool {
    forall|i: int, j: int|
        0 <= i <= j < rules.n_bounds ==> rules.boundaries@[i] <= rules.boundaries@[j]
}

proof fn lemma_band_covers(bounds: Seq<i32>, n: int, i: int, span: int)
    requires
        0 <= i <= n <= bounds.len(),
        i > 0 ==> span > bounds[i - 1],
    ensures
        ({
            let k = band_of(bounds, n, i, span);
            &&& i <= k <= n
            &&& k < n ==> span <= bounds[k]
            &&& k > 0 ==> span > bounds[k - 1]
        }),
    decreases n - i,
{
    if i < n && span > bounds[i] {
        lemma_band_covers(bounds, n, i + 1, span);
    }
}

/// Labels and buckets agree: under bounds that ascend, a holding falls into the bucket
/// whose label covers its days, and into no other.
pub proof fn lemma_label_agrees(rules: BucketRules, buy_day: int, sell_day: int, i: int)
    requires
        rules.wf(),
        rules.n_bounds > 0,
        bounds_ascend(rules),
        buy_day <= sell_day,
        rules.intraday_same_day ==> rules.boundaries@[0] >= 0,
        0 <= i < rules.buckets(),
    ensures
        bucket_of(rules, buy_day, sell_day) == i <==> label_covers(rules, i, sell_day - buy_day),
{
    let span = sell_day - buy_day;
    let n = rules.n_bounds as int;
    let k = band_of(rules.boundaries@, n, 0, span);
    let j = rules.band(i);
    lemma_band_covers(rules.boundaries@, n, 0, span);
    if 0 <= j < k {
        assert(rules.boundaries@[j] <= rules.boundaries@[k - 1]);
    } else if k < j {
        assert(rules.boundaries@[k] <= rules.boundaries@[j - 1]);
    }
}

} // verus!
