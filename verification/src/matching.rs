//! What it means to match sells against open buy lots.
//!
//! Everything here is ghost: the fold over a partition as a function on
//! sequences, and the laws that hold of it. The executable folds in
//! [`crate::fifo`] are proved equal to these functions.

use vstd::prelude::*;
use crate::fifo::{BucketRules, Fragment, FragmentSink, Lot, MatchPolicy, MAX_BUCKETS};
use crate::packed::PackedTrade;

verus! {

// ---------------------------------------------------------------------------
// Buckets
// ---------------------------------------------------------------------------

/// The first band, from `i` on, whose upper bound is not below `span`; `n` when
/// `span` is past them all.
pub open spec fn band_of(bounds: Seq<i32>, n: int, i: int, span: int) -> int
    decreases n - i,
{
    if i >= n {
        n
    } else if span <= bounds[i] {
        i
    } else {
        band_of(bounds, n, i + 1, span)
    }
}

/// The bucket of a holding that lasted from `buy_day` to `sell_day`.
pub open spec fn bucket_of(rules: BucketRules, buy_day: int, sell_day: int) -> int {
    let span = sell_day - buy_day;
    if rules.intraday_same_day {
        if span == 0 {
            0
        } else {
            1 + band_of(rules.boundaries@, rules.n_bounds as int, 0, span)
        }
    } else {
        band_of(rules.boundaries@, rules.n_bounds as int, 0, span)
    }
}

pub proof fn lemma_band_range(bounds: Seq<i32>, n: int, i: int, span: int)
    requires
        0 <= i <= n,
    ensures
        i <= band_of(bounds, n, i, span) <= n,
    decreases n - i,
{
    if i < n && span > bounds[i] {
        lemma_band_range(bounds, n, i + 1, span);
    }
}

/// A bucket is one of those that the rules define.
pub proof fn lemma_bucket_range(rules: BucketRules, buy_day: int, sell_day: int)
    ensures
        0 <= bucket_of(rules, buy_day, sell_day) < rules.buckets(),
{
    lemma_band_range(rules.boundaries@, rules.n_bounds as int, 0, sell_day - buy_day);
}

// ---------------------------------------------------------------------------
// Matching one sell
// ---------------------------------------------------------------------------

/// `i` is the earliest of the lots with the highest price.
pub open spec fn is_dearest(lots: Seq<Lot>, i: int) -> bool {
    &&& 0 <= i < lots.len()
    &&& forall|j: int| 0 <= j < lots.len() ==> #[trigger] lots[j].price_ticks <= lots[i].price_ticks
    &&& forall|j: int| 0 <= j < i ==> #[trigger] lots[j].price_ticks < lots[i].price_ticks
}

/// The open lot that a sell consumes next.
pub open spec fn pick(lots: Seq<Lot>, policy: MatchPolicy) -> int {
    match policy {
        MatchPolicy::Fifo => 0,
        MatchPolicy::Lifo => lots.len() - 1,
        MatchPolicy::Hifo => choose|i: int| is_dearest(lots, i),
    }
}

proof fn lemma_dearest_exists(lots: Seq<Lot>)
    requires
        lots.len() > 0,
    ensures
        exists|i: int| is_dearest(lots, i),
    decreases lots.len(),
{
    if lots.len() == 1 {
        assert(is_dearest(lots, 0));
    } else {
        let head = lots.drop_last();
        lemma_dearest_exists(head);
        let b = choose|i: int| is_dearest(head, i);
        assert forall|j: int| 0 <= j < head.len() implies #[trigger] lots[j].price_ticks
            <= lots[b].price_ticks by {
            assert(head[j].price_ticks <= head[b].price_ticks);
        }
        assert forall|j: int| 0 <= j < b implies #[trigger] lots[j].price_ticks
            < lots[b].price_ticks by {
            assert(head[j].price_ticks < head[b].price_ticks);
        }
        if lots.last().price_ticks > lots[b].price_ticks {
            assert(is_dearest(lots, lots.len() - 1));
        } else {
            assert(is_dearest(lots, b));
        }
    }
}

/// There is one earliest dearest lot.
pub proof fn lemma_dearest_unique(lots: Seq<Lot>, i: int)
    requires
        is_dearest(lots, i),
    ensures
        pick(lots, MatchPolicy::Hifo) == i,
{
    let k = choose|k: int| is_dearest(lots, k);
    assert(is_dearest(lots, k));
    assert(lots[i].price_ticks <= lots[k].price_ticks);
    assert(lots[k].price_ticks <= lots[i].price_ticks);
}

/// The lot picked is one of the lots.
pub proof fn lemma_pick_in_range(lots: Seq<Lot>, policy: MatchPolicy)
    requires
        lots.len() > 0,
    ensures
        0 <= pick(lots, policy) < lots.len(),
        policy == MatchPolicy::Hifo ==> is_dearest(lots, pick(lots, policy)),
{
    if policy == MatchPolicy::Hifo {
        lemma_dearest_exists(lots);
        let i = choose|i: int| is_dearest(lots, i);
        assert(is_dearest(lots, i));
    }
}

/// Who and what a fold is about.
pub struct Desk {
    pub client: u64,
    pub symbol: u32,
    pub rules: BucketRules,
    pub policy: MatchPolicy,
}

/// `qty` shares of `lot`, sold by `sell`.
pub open spec fn fragment(desk: Desk, lot: Lot, sell: PackedTrade, qty: int) -> Fragment {
    Fragment {
        client: desk.client,
        symbol: desk.symbol,
        buy_day: lot.day,
        sell_day: sell.day,
        matched_qty: qty as i64,
        buy_ticks: lot.price_ticks,
        sell_ticks: sell.price_ticks as i64,
        bucket: bucket_of(desk.rules, lot.day as int, sell.day as int) as usize,
    }
}

/// Selling `remaining` shares out of `lots`: the lots that stay open, and the
/// fragments matched, in order. Shares beyond what is open match nothing.
pub open spec fn drain(desk: Desk, lots: Seq<Lot>, remaining: int, sell: PackedTrade) -> (
    Seq<Lot>,
    Seq<Fragment>,
)
    decreases lots.len(),
{
    if remaining <= 0 || lots.len() == 0 {
        (lots, Seq::empty())
    } else {
        proof {
            lemma_pick_in_range(lots, desk.policy);
        }
        let i = pick(lots, desk.policy);
        let lot = lots[i];
        if lot.qty <= remaining {
            let rest = drain(desk, lots.remove(i), remaining - lot.qty, sell);
            (rest.0, seq![fragment(desk, lot, sell, lot.qty as int)] + rest.1)
        } else {
            (
                lots.update(i, Lot { qty: (lot.qty - remaining) as i64, ..lot }),
                seq![fragment(desk, lot, sell, remaining)],
            )
        }
    }
}

/// The lot that a buy opens.
pub open spec fn lot_of(buy: PackedTrade) -> Lot {
    Lot { qty: buy.signed_qty as i64, price_ticks: buy.price_ticks as i64, day: buy.day }
}

/// What one trade does to the open lots, and the fragments it matches.
pub open spec fn step(desk: Desk, lots: Seq<Lot>, r: PackedTrade) -> (Seq<Lot>, Seq<Fragment>) {
    if r.signed_qty > 0 {
        (lots.push(lot_of(r)), Seq::empty())
    } else {
        drain(desk, lots, -(r.signed_qty as int), r)
    }
}

/// Folding `recs`, in order, from the open lots `lots`.
pub open spec fn fold(desk: Desk, lots: Seq<Lot>, recs: Seq<PackedTrade>) -> (
    Seq<Lot>,
    Seq<Fragment>,
)
    decreases recs.len(),
{
    if recs.len() == 0 {
        (lots, Seq::empty())
    } else {
        let before = fold(desk, lots, recs.drop_last());
        let last = step(desk, before.0, recs.last());
        (last.0, before.1 + last.1)
    }
}

// ---------------------------------------------------------------------------
// Counting
// ---------------------------------------------------------------------------

/// Whether a fragment sold on `day` counts.
pub open spec fn in_window(count: Option<(i32, i32)>, day: i32) -> bool {
    match count {
        Some((lo, hi)) => lo <= day <= hi,
        None => true,
    }
}

/// The fragments that count.
pub open spec fn counted(fs: Seq<Fragment>, count: Option<(i32, i32)>) -> Seq<Fragment> {
    fs.filter(|f: Fragment| in_window(count, f.sell_day))
}

/// What a set of fragments adds up to.
pub struct Tally {
    pub realized: int,
    pub qty: int,
    pub count: int,
}

impl Tally {
    pub open spec fn zero() -> Tally {
        Tally { realized: 0, qty: 0, count: 0 }
    }

    pub open spec fn plus(self, o: Tally) -> Tally {
        Tally {
            realized: self.realized + o.realized,
            qty: self.qty + o.qty,
            count: self.count + o.count,
        }
    }

    /// The sums fit the integers that hold them.
    pub open spec fn fits(self) -> bool {
        &&& i128::MIN <= self.realized <= i128::MAX
        &&& i128::MIN <= self.qty <= i128::MAX
        &&& 0 <= self.count <= u64::MAX
    }
}

/// The tally of one fragment.
pub open spec fn tally_one(f: Fragment) -> Tally {
    Tally { realized: f.realized(), qty: f.matched_qty as int, count: 1 }
}

/// The tally of the fragments in bucket `b`.
pub open spec fn tally(fs: Seq<Fragment>, b: int) -> Tally
    decreases fs.len(),
{
    if fs.len() == 0 {
        Tally::zero()
    } else {
        let t = tally(fs.drop_last(), b);
        if fs.last().bucket == b {
            t.plus(tally_one(fs.last()))
        } else {
            t
        }
    }
}

/// The tallies of all buckets.
pub open spec fn tallies(fs: Seq<Fragment>) -> Seq<Tally> {
    Seq::new(MAX_BUCKETS as nat, |b: int| tally(fs, b))
}

/// The fragment's own arithmetic stays within the machine's integers, and its
/// bucket is one that can be tallied.
pub open spec fn countable(f: Fragment) -> bool {
    &&& i32::MIN <= f.sell_day - f.buy_day <= i32::MAX
    &&& i64::MIN <= f.sell_ticks - f.buy_ticks <= i64::MAX
    &&& f.bucket < MAX_BUCKETS
}

/// The fragments can be tallied one after the other without overflow.
pub open spec fn tallyable(fs: Seq<Fragment>) -> bool {
    &&& forall|i: int| 0 <= i < fs.len() ==> countable(#[trigger] fs[i])
    &&& forall|k: int, b: int|
        0 <= k <= fs.len() && 0 <= b < MAX_BUCKETS ==> (#[trigger] tally(fs.take(k), b)).fits()
}

// ---------------------------------------------------------------------------
// Sinks
// ---------------------------------------------------------------------------

/// `post` is what `pre` may have become after taking `fs`, in order.
pub open spec fn took_all<S: FragmentSink>(pre: S, fs: Seq<Fragment>, post: S) -> bool
    decreases fs.len(),
{
    if fs.len() == 0 {
        pre == post
    } else {
        exists|mid: S|
            #![trigger S::took(mid, fs.last(), post)]
            took_all(pre, fs.drop_last(), mid) && S::took(mid, fs.last(), post)
    }
}

/// The sink can take `fs`, in order.
pub open spec fn accepts<S: FragmentSink>(s: S, fs: Seq<Fragment>) -> bool
    decreases fs.len(),
{
    fs.len() > 0 ==> {
        &&& s.ready(fs[0])
        &&& forall|t: S| #[trigger] S::took(s, fs[0], t) ==> accepts(t, fs.drop_first())
    }
}

// ---------------------------------------------------------------------------
// Lemmas about folds
// ---------------------------------------------------------------------------

/// Folding one sequence after another is folding them joined: the open lots
/// carried from the first into the second are all that the second needs.
pub proof fn lemma_fold_append(
    desk: Desk,
    lots: Seq<Lot>,
    a: Seq<PackedTrade>,
    b: Seq<PackedTrade>,
)
    ensures
        fold(desk, lots, a + b).0 == fold(desk, fold(desk, lots, a).0, b).0,
        fold(desk, lots, a + b).1 == fold(desk, lots, a).1 + fold(
            desk,
            fold(desk, lots, a).0,
            b,
        ).1,
    decreases b.len(),
{
    if b.len() == 0 {
        assert(a + b =~= a);
        assert(fold(desk, lots, a).1 + Seq::<Fragment>::empty() =~= fold(desk, lots, a).1);
    } else {
        lemma_fold_append(desk, lots, a, b.drop_last());
        assert((a + b).drop_last() =~= a + b.drop_last());
        assert((a + b).last() == b.last());
        let ab = fold(desk, lots, a + b.drop_last());
        let bb = fold(desk, fold(desk, lots, a).0, b.drop_last());
        let last = step(desk, ab.0, b.last());
        assert(fold(desk, lots, a).1 + bb.1 + last.1 =~= fold(desk, lots, a).1 + (bb.1 + last.1));
    }
}

/// Folding one more record.
pub proof fn lemma_fold_push(desk: Desk, lots: Seq<Lot>, recs: Seq<PackedTrade>, i: int)
    requires
        0 <= i < recs.len(),
    ensures
        fold(desk, lots, recs.take(i + 1)) == ({
            let before = fold(desk, lots, recs.take(i));
            let last = step(desk, before.0, recs[i]);
            (last.0, before.1 + last.1)
        }),
{
    assert(recs.take(i + 1).drop_last() =~= recs.take(i));
    assert(recs.take(i + 1).last() == recs[i]);
}

/// A sell's fragments all carry its day.
pub proof fn lemma_drain_day(desk: Desk, lots: Seq<Lot>, remaining: int, sell: PackedTrade)
    ensures
        forall|k: int|
            0 <= k < drain(desk, lots, remaining, sell).1.len() ==> (#[trigger] drain(
                desk,
                lots,
                remaining,
                sell,
            ).1[k]).sell_day == sell.day,
    decreases lots.len(),
{
    if remaining > 0 && lots.len() > 0 {
        lemma_pick_in_range(lots, desk.policy);
        let i = pick(lots, desk.policy);
        if lots[i].qty <= remaining {
            let rest = drain(desk, lots.remove(i), remaining - lots[i].qty, sell);
            let whole = drain(desk, lots, remaining, sell);
            lemma_drain_day(desk, lots.remove(i), remaining - lots[i].qty, sell);
            assert forall|k: int| 0 <= k < whole.1.len() implies (#[trigger] whole.1[k]).sell_day
                == sell.day by {
                if k > 0 {
                    assert(whole.1[k] == rest.1[k - 1]);
                }
            }
        }
    }
}

/// Counting distributes over joining.
pub proof fn lemma_counted_append(
    a: Seq<Fragment>,
    b: Seq<Fragment>,
    count: Option<(i32, i32)>,
)
    ensures
        counted(a + b, count) == counted(a, count) + counted(b, count),
{
    Seq::filter_distributes_over_add(a, b, |f: Fragment| in_window(count, f.sell_day));
}

/// Fragments of one day count together or not at all.
pub proof fn lemma_counted_same_day(fs: Seq<Fragment>, day: i32, count: Option<(i32, i32)>)
    requires
        forall|k: int| 0 <= k < fs.len() ==> (#[trigger] fs[k]).sell_day == day,
    ensures
        counted(fs, count) == if in_window(count, day) {
            fs
        } else {
            Seq::empty()
        },
    decreases fs.len(),
{
    reveal(Seq::filter);
    if fs.len() > 0 {
        assert(fs.last().sell_day == day);
        lemma_counted_same_day(fs.drop_last(), day, count);
        assert(fs.drop_last().push(fs.last()) =~= fs);
    }
}

/// The fragments counted after one more record.
pub proof fn lemma_counted_push(
    desk: Desk,
    lots: Seq<Lot>,
    recs: Seq<PackedTrade>,
    i: int,
    count: Option<(i32, i32)>,
)
    requires
        0 <= i < recs.len(),
    ensures
        ({
            let before = fold(desk, lots, recs.take(i));
            let last = step(desk, before.0, recs[i]);
            counted(fold(desk, lots, recs.take(i + 1)).1, count) == counted(before.1, count) + (
            if in_window(count, recs[i].day) {
                last.1
            } else {
                Seq::empty()
            })
        }),
{
    let before = fold(desk, lots, recs.take(i));
    let last = step(desk, before.0, recs[i]);
    lemma_fold_push(desk, lots, recs, i);
    lemma_counted_append(before.1, last.1, count);
    if recs[i].signed_qty <= 0 {
        lemma_drain_day(desk, before.0, -(recs[i].signed_qty as int), recs[i]);
    }
    lemma_counted_same_day(last.1, recs[i].day, count);
}

/// The fragments counted up to some record are the first of those counted in all.
pub proof fn lemma_counted_prefix(
    desk: Desk,
    lots: Seq<Lot>,
    recs: Seq<PackedTrade>,
    i: int,
    count: Option<(i32, i32)>,
)
    requires
        0 <= i <= recs.len(),
    ensures
        counted(fold(desk, lots, recs.take(i)).1, count).is_prefix_of(
            counted(fold(desk, lots, recs).1, count),
        ),
{
    let a = recs.take(i);
    let b = recs.skip(i);
    assert(a + b =~= recs);
    lemma_fold_append(desk, lots, a, b);
    let fa = fold(desk, lots, a);
    let fb = fold(desk, fa.0, b);
    lemma_counted_append(fa.1, fb.1, count);
}

/// In the middle of a sell that counts: the fragments so far, and the next one,
/// are the first of those counted in all.
pub proof fn lemma_next_prefix(
    desk: Desk,
    lots: Seq<Lot>,
    recs: Seq<PackedTrade>,
    i: int,
    count: Option<(i32, i32)>,
    so_far: Seq<Fragment>,
    f: Fragment,
    more: Seq<Fragment>,
)
    requires
        0 <= i < recs.len(),
        in_window(count, recs[i].day),
        step(desk, fold(desk, lots, recs.take(i)).0, recs[i]).1 == so_far + (seq![f] + more),
    ensures
        (counted(fold(desk, lots, recs.take(i)).1, count) + so_far).push(f).is_prefix_of(
            counted(fold(desk, lots, recs).1, count),
        ),
{
    lemma_counted_push(desk, lots, recs, i, count);
    lemma_counted_prefix(desk, lots, recs, i + 1, count);
    let done = counted(fold(desk, lots, recs.take(i)).1, count);
    let upto = counted(fold(desk, lots, recs.take(i + 1)).1, count);
    assert(upto =~= (done + so_far).push(f) + more);
}

// ---------------------------------------------------------------------------
// Lemmas about tallies and sinks
// ---------------------------------------------------------------------------

/// One more fragment adds to its own bucket alone.
pub proof fn lemma_tally_push(fs: Seq<Fragment>, f: Fragment, b: int)
    ensures
        tally(fs.push(f), b) == if f.bucket == b {
            tally(fs, b).plus(tally_one(f))
        } else {
            tally(fs, b)
        },
{
    assert(fs.push(f).drop_last() =~= fs);
}

/// The tally of joined fragments is the sum of the tallies.
pub proof fn lemma_tally_append(a: Seq<Fragment>, b: Seq<Fragment>, k: int)
    ensures
        tally(a + b, k) == tally(a, k).plus(tally(b, k)),
    decreases b.len(),
{
    if b.len() == 0 {
        assert(a + b =~= a);
    } else {
        lemma_tally_append(a, b.drop_last(), k);
        assert((a + b).drop_last() =~= a + b.drop_last());
    }
}

/// What can be tallied in all can be tallied up to any point.
pub proof fn lemma_tallyable_prefix(all: Seq<Fragment>, fs: Seq<Fragment>, f: Fragment)
    requires
        tallyable(all),
        fs.push(f).is_prefix_of(all),
    ensures
        countable(f),
        tally(fs, f.bucket as int).plus(tally_one(f)).fits(),
{
    let n = fs.len() as int;
    assert(all[n] == fs.push(f)[n]);
    assert(all.take(n + 1) =~= fs.push(f));
    lemma_tally_push(fs, f, f.bucket as int);
    assert(tally(all.take(n + 1), f.bucket as int).fits());
}

/// A sink that can take `all`, having taken the first of them, can take the rest.
pub proof fn lemma_accepts_rest<S: FragmentSink>(s: S, all: Seq<Fragment>, fs: Seq<Fragment>, t: S)
    requires
        accepts(s, all),
        fs.is_prefix_of(all),
        took_all(s, fs, t),
    ensures
        accepts(t, all.skip(fs.len() as int)),
    decreases fs.len(),
{
    let n = fs.len() as int;
    if n == 0 {
        assert(all.skip(0) =~= all);
    } else {
        let mid = choose|mid: S|
            #![trigger S::took(mid, fs.last(), t)]
            took_all(s, fs.drop_last(), mid) && S::took(mid, fs.last(), t);
        lemma_accepts_rest(s, all, fs.drop_last(), mid);
        let rest = all.skip(n - 1);
        assert(rest[0] == fs.last());
        assert(rest.drop_first() =~= all.skip(n));
    }
}

/// The next fragment is one that the sink can take.
pub proof fn lemma_sink_ready<S: FragmentSink>(
    s: S,
    all: Seq<Fragment>,
    fs: Seq<Fragment>,
    f: Fragment,
    t: S,
)
    requires
        accepts(s, all),
        fs.push(f).is_prefix_of(all),
        took_all(s, fs, t),
    ensures
        t.ready(f),
{
    let n = fs.len() as int;
    assert(fs.is_prefix_of(all)) by {
        assert(fs.push(f).take(n) =~= fs);
        assert(all.take(n + 1).take(n) =~= all.take(n));
        assert(fs =~= all.take(n)) by {
            assert forall|j: int| 0 <= j < n implies fs[j] == all[j] by {
                assert(fs.push(f)[j] == all[j]);
            }
        }
    }
    lemma_accepts_rest(s, all, fs, t);
    assert(all.skip(n)[0] == all[n]);
    assert(fs.push(f)[n] == all[n]);
}

/// Taking one more fragment.
pub proof fn lemma_took_push<S: FragmentSink>(s: S, fs: Seq<Fragment>, f: Fragment, mid: S, t: S)
    requires
        took_all(s, fs, mid),
        S::took(mid, f, t),
    ensures
        took_all(s, fs.push(f), t),
{
    assert(fs.push(f).drop_last() =~= fs);
    assert(fs.push(f).last() == f);
}

/// Sinks that take one sequence and then another take them joined.
pub proof fn lemma_took_append<S: FragmentSink>(
    s: S,
    a: Seq<Fragment>,
    mid: S,
    b: Seq<Fragment>,
    t: S,
)
    requires
        took_all(s, a, mid),
        took_all(mid, b, t),
    ensures
        took_all(s, a + b, t),
    decreases b.len(),
{
    if b.len() == 0 {
        assert(a + b =~= a);
    } else {
        let m2 = choose|m2: S|
            #![trigger S::took(m2, b.last(), t)]
            took_all(mid, b.drop_last(), m2) && S::took(m2, b.last(), t);
        lemma_took_append(s, a, mid, b.drop_last(), m2);
        assert((a + b).drop_last() =~= a + b.drop_last());
        assert((a + b).last() == b.last());
    }
}

// ---------------------------------------------------------------------------
// When a fold stays within the machine's integers
// ---------------------------------------------------------------------------

/// Days that lie so close together that any difference fits 32 bits.
pub open spec fn day_window(lo: int, hi: int) -> bool {
    hi - lo <= i32::MAX
}

/// Open lots as a fold of records leaves them: prices and days that a record
/// can hold, the days between `lo` and `hi`.
pub open spec fn plain_lots(lots: Seq<Lot>, lo: int, hi: int) -> bool {
    forall|i: int|
        0 <= i < lots.len() ==> {
            &&& (#[trigger] lots[i]).qty >= 0
            &&& i32::MIN <= lots[i].price_ticks <= i32::MAX
            &&& lo <= lots[i].day <= hi
        }
}

/// Records whose days lie between `lo` and `hi`.
pub open spec fn plain_recs(recs: Seq<PackedTrade>, lo: int, hi: int) -> bool {
    forall|i: int| 0 <= i < recs.len() ==> lo <= (#[trigger] recs[i]).day <= hi
}

/// A fragment with prices and a quantity that records can hold.
pub open spec fn sized_frag(f: Fragment) -> bool {
    &&& i32::MIN <= f.buy_ticks <= i32::MAX
    &&& i32::MIN <= f.sell_ticks <= i32::MAX
    &&& 0 <= f.matched_qty <= 0x8000_0000
}

pub open spec fn sized_frags(fs: Seq<Fragment>) -> bool {
    forall|i: int| 0 <= i < fs.len() ==> sized_frag(#[trigger] fs[i])
}

/// A fragment of plain lots and records, its days close together.
pub open spec fn plain_frag(f: Fragment) -> bool {
    &&& sized_frag(f)
    &&& i32::MIN <= f.sell_day - f.buy_day <= i32::MAX
    &&& f.bucket < MAX_BUCKETS
}

pub open spec fn plain_frags(fs: Seq<Fragment>) -> bool {
    forall|i: int| 0 <= i < fs.len() ==> plain_frag(#[trigger] fs[i])
}

/// Lots with quantities that are not negative and prices that a record can hold.
pub open spec fn sound_lots(lots: Seq<Lot>) -> bool {
    forall|i: int|
        0 <= i < lots.len() ==> (#[trigger] lots[i]).qty >= 0 && i32::MIN <= lots[i].price_ticks
            <= i32::MAX
}

proof fn lemma_drain_sized(desk: Desk, lots: Seq<Lot>, remaining: int, sell: PackedTrade)
    requires
        sound_lots(lots),
        remaining <= 0x8000_0000,
    ensures
        sound_lots(drain(desk, lots, remaining, sell).0),
        sized_frags(drain(desk, lots, remaining, sell).1),
        drain(desk, lots, remaining, sell).1.len() + drain(desk, lots, remaining, sell).0.len()
            <= lots.len() + 1,
    decreases lots.len(),
{
    if remaining > 0 && lots.len() > 0 {
        lemma_pick_in_range(lots, desk.policy);
        let i = pick(lots, desk.policy);
        let lot = lots[i];
        if lot.qty <= remaining {
            let rest = lots.remove(i);
            assert forall|k: int| 0 <= k < rest.len() implies (#[trigger] rest[k]).qty >= 0
                && i32::MIN <= rest[k].price_ticks <= i32::MAX by {
                assert(rest[k] == lots[if k < i {
                    k
                } else {
                    k + 1
                }]);
            }
            lemma_drain_sized(desk, rest, remaining - lot.qty, sell);
            let sub = drain(desk, rest, remaining - lot.qty, sell);
            let whole = drain(desk, lots, remaining, sell);
            assert forall|k: int| 0 <= k < whole.1.len() implies sized_frag(
                #[trigger] whole.1[k],
            ) by {
                if k > 0 {
                    assert(whole.1[k] == sub.1[k - 1]);
                }
            }
        }
    }
}

/// Folding records into sound lots leaves sound lots, matches fragments of their size,
/// and matches no more of them than there are lots and records.
pub proof fn lemma_fold_sized(desk: Desk, lots: Seq<Lot>, recs: Seq<PackedTrade>)
    requires
        sound_lots(lots),
    ensures
        sound_lots(fold(desk, lots, recs).0),
        sized_frags(fold(desk, lots, recs).1),
        fold(desk, lots, recs).1.len() + fold(desk, lots, recs).0.len() <= lots.len() + recs.len(),
    decreases recs.len(),
{
    if recs.len() > 0 {
        lemma_fold_sized(desk, lots, recs.drop_last());
        let r = recs.last();
        let before = fold(desk, lots, recs.drop_last());
        if r.signed_qty <= 0 {
            lemma_drain_sized(desk, before.0, -(r.signed_qty as int), r);
        }
    }
}

/// Counting keeps fragments sized and adds none.
pub proof fn lemma_counted_sized(fs: Seq<Fragment>, count: Option<(i32, i32)>)
    requires
        sized_frags(fs),
    ensures
        sized_frags(counted(fs, count)),
        counted(fs, count).len() <= fs.len(),
    decreases fs.len(),
{
    reveal(Seq::filter);
    if fs.len() > 0 {
        assert(sized_frag(fs[fs.len() - 1]));
        lemma_counted_sized(fs.drop_last(), count);
    }
}

proof fn lemma_drain_plain(
    desk: Desk,
    lots: Seq<Lot>,
    remaining: int,
    sell: PackedTrade,
    lo: int,
    hi: int,
)
    requires
        plain_lots(lots, lo, hi),
        day_window(lo, hi),
        lo <= sell.day <= hi,
        remaining <= 0x8000_0000,
        desk.rules.buckets() <= MAX_BUCKETS,
    ensures
        plain_lots(drain(desk, lots, remaining, sell).0, lo, hi),
        plain_frags(drain(desk, lots, remaining, sell).1),
        drain(desk, lots, remaining, sell).1.len() + drain(desk, lots, remaining, sell).0.len()
            <= lots.len() + 1,
    decreases lots.len(),
{
    if remaining > 0 && lots.len() > 0 {
        lemma_pick_in_range(lots, desk.policy);
        let i = pick(lots, desk.policy);
        let lot = lots[i];
        lemma_bucket_range(desk.rules, lot.day as int, sell.day as int);
        if lot.qty <= remaining {
            let rest = lots.remove(i);
            assert forall|k: int| 0 <= k < rest.len() implies {
                &&& (#[trigger] rest[k]).qty >= 0
                &&& i32::MIN <= rest[k].price_ticks <= i32::MAX
                &&& lo <= rest[k].day <= hi
            } by {
                assert(rest[k] == lots[if k < i {
                    k
                } else {
                    k + 1
                }]);
            }
            lemma_drain_plain(desk, rest, remaining - lot.qty, sell, lo, hi);
            let sub = drain(desk, rest, remaining - lot.qty, sell);
            let whole = drain(desk, lots, remaining, sell);
            assert forall|k: int| 0 <= k < whole.1.len() implies plain_frag(#[trigger] whole.1[k]) by {
                if k > 0 {
                    assert(whole.1[k] == sub.1[k - 1]);
                }
            }
        }
    }
}

/// Folding plain records into plain lots leaves plain lots, matches plain
/// fragments, and matches no more of them than there are lots and records.
pub proof fn lemma_fold_plain(desk: Desk, lots: Seq<Lot>, recs: Seq<PackedTrade>, lo: int, hi: int)
    requires
        plain_lots(lots, lo, hi),
        plain_recs(recs, lo, hi),
        day_window(lo, hi),
        desk.rules.buckets() <= MAX_BUCKETS,
    ensures
        plain_lots(fold(desk, lots, recs).0, lo, hi),
        plain_frags(fold(desk, lots, recs).1),
        fold(desk, lots, recs).1.len() + fold(desk, lots, recs).0.len() <= lots.len() + recs.len(),
    decreases recs.len(),
{
    if recs.len() > 0 {
        lemma_fold_plain(desk, lots, recs.drop_last(), lo, hi);
        let r = recs.last();
        let before = fold(desk, lots, recs.drop_last());
        assert(lo <= recs[recs.len() - 1].day <= hi);
        if r.signed_qty <= 0 {
            lemma_drain_plain(desk, before.0, -(r.signed_qty as int), r, lo, hi);
        }
    }
}

proof fn lemma_drain_buckets(desk: Desk, lots: Seq<Lot>, remaining: int, sell: PackedTrade)
    requires
        desk.rules.buckets() <= usize::MAX,
    ensures
        forall|k: int|
            0 <= k < drain(desk, lots, remaining, sell).1.len() ==> (#[trigger] drain(
                desk,
                lots,
                remaining,
                sell,
            ).1[k]).bucket < desk.rules.buckets(),
    decreases lots.len(),
{
    if remaining > 0 && lots.len() > 0 {
        lemma_pick_in_range(lots, desk.policy);
        let i = pick(lots, desk.policy);
        lemma_bucket_range(desk.rules, lots[i].day as int, sell.day as int);
        if lots[i].qty <= remaining {
            let rest = drain(desk, lots.remove(i), remaining - lots[i].qty, sell);
            let whole = drain(desk, lots, remaining, sell);
            lemma_drain_buckets(desk, lots.remove(i), remaining - lots[i].qty, sell);
            assert forall|k: int| 0 <= k < whole.1.len() implies (#[trigger] whole.1[k]).bucket
                < desk.rules.buckets() by {
                if k > 0 {
                    assert(whole.1[k] == rest.1[k - 1]);
                }
            }
        }
    }
}

/// Every fragment falls into a bucket that the rules define.
pub proof fn lemma_fold_buckets(
    desk: Desk,
    lots: Seq<Lot>,
    recs: Seq<PackedTrade>,
    count: Option<(i32, i32)>,
)
    requires
        desk.rules.buckets() <= usize::MAX,
    ensures
        within_buckets(counted(fold(desk, lots, recs).1, count), desk.rules.buckets()),
    decreases recs.len(),
{
    reveal(Seq::filter);
    if recs.len() > 0 {
        let head = recs.drop_last();
        let r = recs.last();
        let before = fold(desk, lots, head);
        let last = step(desk, before.0, r);
        lemma_fold_buckets(desk, lots, head, count);
        lemma_counted_append(before.1, last.1, count);
        if r.signed_qty <= 0 {
            lemma_drain_buckets(desk, before.0, -(r.signed_qty as int), r);
            lemma_drain_day(desk, before.0, -(r.signed_qty as int), r);
        }
        lemma_counted_same_day(last.1, r.day, count);
        let a = counted(before.1, count);
        let all = counted(fold(desk, lots, recs).1, count);
        assert forall|k: int| 0 <= k < all.len() implies (#[trigger] all[k]).bucket
            < desk.rules.buckets() by {
            if k < a.len() {
                assert(all[k] == a[k]);
            } else {
                assert(all[k] == last.1[k - a.len()]);
            }
        }
    }
}

/// Counting keeps fragments plain and adds none.
pub proof fn lemma_counted_plain(fs: Seq<Fragment>, count: Option<(i32, i32)>)
    requires
        plain_frags(fs),
    ensures
        plain_frags(counted(fs, count)),
        counted(fs, count).len() <= fs.len(),
    decreases fs.len(),
{
    reveal(Seq::filter);
    if fs.len() > 0 {
        assert(plain_frag(fs[fs.len() - 1]));
        lemma_counted_plain(fs.drop_last(), count);
    }
}

/// The sums that up to `n` plain fragments can come to.
pub open spec fn modest_tally(t: Tally, n: int) -> bool {
    &&& 0 <= t.count <= n
    &&& 0 <= t.qty <= n * 0x8000_0000
    &&& -(n * 0x7fff_ffff_ffff_ffff) <= t.realized <= n * 0x7fff_ffff_ffff_ffff
}

/// One more plain fragment, or none.
pub proof fn lemma_modest_plus(t: Tally, add: Tally, f: Fragment, n: int)
    requires
        0 <= n,
        modest_tally(t, n),
        sized_frag(f),
        add == Tally::zero() || add == tally_one(f),
    ensures
        modest_tally(t.plus(add), n + 1),
        n < u64::MAX ==> t.plus(add).fits(),
{
    let q = f.matched_qty as int;
    let d = f.sell_ticks - f.buy_ticks;
    assert(-0x7fff_ffff_ffff_ffff <= q * d <= 0x7fff_ffff_ffff_ffff) by (nonlinear_arith)
        requires
            0 <= q <= 0x8000_0000,
            -0xffff_ffff <= d <= 0xffff_ffff,
    ;
}

/// The sums of sized fragments are bounded by their number.
proof fn lemma_tally_sized(fs: Seq<Fragment>, b: int)
    requires
        sized_frags(fs),
    ensures
        modest_tally(tally(fs, b), fs.len() as int),
    decreases fs.len(),
{
    if fs.len() > 0 {
        let head = fs.drop_last();
        lemma_tally_sized(head, b);
        let f = fs.last();
        assert(sized_frag(fs[fs.len() - 1]));
        let n = head.len() as int;
        lemma_modest_plus(tally(head, b), tally_one(f), f, n);
        lemma_modest_plus(tally(head, b), Tally::zero(), f, n);
    }
}

/// Plain fragments, as many as 64 bits can count, can be tallied.
pub proof fn lemma_plain_tallyable(fs: Seq<Fragment>)
    requires
        plain_frags(fs),
        fs.len() <= u64::MAX,
    ensures
        tallyable(fs),
{
    assert forall|i: int| 0 <= i < fs.len() implies countable(#[trigger] fs[i]) by {
        assert(plain_frag(fs[i]));
    }
    assert forall|k: int, b: int| 0 <= k <= fs.len() && 0 <= b < MAX_BUCKETS implies (
    #[trigger] tally(fs.take(k), b)).fits() by {
        let part = fs.take(k);
        assert forall|i: int| 0 <= i < part.len() implies sized_frag(#[trigger] part[i]) by {
            assert(plain_frag(fs[i]));
        }
        lemma_tally_sized(part, b);
    }
}

/// Ranges that follow each other add up: what was sold from `lo` to `mid` and
/// from the day after to `hi` is what was sold from `lo` to `hi`.
pub proof fn lemma_ranges_add_up(fs: Seq<Fragment>, lo: i32, mid: i32, hi: i32, b: int)
    requires
        lo <= mid < hi,
    ensures
        tally(counted(fs, Some((lo, hi))), b) == tally(counted(fs, Some((lo, mid))), b).plus(
            tally(counted(fs, Some(((mid + 1) as i32, hi))), b),
        ),
    decreases fs.len(),
{
    reveal(Seq::filter);
    if fs.len() > 0 {
        let head = fs.drop_last();
        let f = fs.last();
        lemma_ranges_add_up(head, lo, mid, hi, b);
        lemma_tally_push(counted(head, Some((lo, hi))), f, b);
        lemma_tally_push(counted(head, Some((lo, mid))), f, b);
        lemma_tally_push(counted(head, Some(((mid + 1) as i32, hi))), f, b);
    }
}

// ---------------------------------------------------------------------------
// Several folds, one after the other
// ---------------------------------------------------------------------------

/// The fragments of several folds, joined.
pub open spec fn joined(fss: Seq<Seq<Fragment>>) -> Seq<Fragment>
    decreases fss.len(),
{
    if fss.len() == 0 {
        Seq::empty()
    } else {
        joined(fss.drop_last()) + fss.last()
    }
}

/// Each fold can be tallied, and so can the sums over the first few.
pub open spec fn all_tallyable(fss: Seq<Seq<Fragment>>) -> bool {
    &&& forall|i: int| 0 <= i < fss.len() ==> tallyable(#[trigger] fss[i])
    &&& forall|k: int, b: int|
        0 <= k <= fss.len() && 0 <= b < MAX_BUCKETS ==> (#[trigger] tally(
            joined(fss.take(k)),
            b,
        )).fits()
}

/// One more fold.
pub proof fn lemma_joined_push(fss: Seq<Seq<Fragment>>, k: int)
    requires
        0 <= k < fss.len(),
    ensures
        joined(fss.take(k + 1)) == joined(fss.take(k)) + fss[k],
        joined(fss.take(k + 1)).is_prefix_of(joined(fss)),
    decreases fss.len() - k,
{
    assert(fss.take(k + 1).drop_last() =~= fss.take(k));
    if k + 1 == fss.len() {
        assert(fss.take(k + 1) =~= fss);
    } else {
        lemma_joined_push(fss, k + 1);
        let a = joined(fss.take(k + 1));
        let b = joined(fss.take(k + 2));
        assert(a.is_prefix_of(b));
        assert forall|i: int| 0 <= i < a.len() implies a[i] == joined(fss)[i] by {
            assert(a[i] == b[i]);
        }
        assert(a =~= joined(fss).take(a.len() as int));
    }
}

/// A sink that can take all folds can take the next one.
pub proof fn lemma_accepts_next<S: FragmentSink>(s: S, fss: Seq<Seq<Fragment>>, k: int, t: S)
    requires
        0 <= k < fss.len(),
        accepts(s, joined(fss)),
        took_all(s, joined(fss.take(k)), t),
    ensures
        accepts(t, fss[k]),
{
    lemma_joined_push(fss, k);
    let a = joined(fss.take(k));
    let all = joined(fss);
    assert(a.is_prefix_of(all)) by {
        let b = joined(fss.take(k + 1));
        assert forall|i: int| 0 <= i < a.len() implies a[i] == all[i] by {
            assert(a[i] == b[i]);
        }
        assert(a =~= all.take(a.len() as int));
    }
    lemma_accepts_rest(s, all, a, t);
    let rest = all.skip(a.len() as int);
    assert(fss[k].is_prefix_of(rest)) by {
        let b = joined(fss.take(k + 1));
        assert forall|i: int| 0 <= i < fss[k].len() implies fss[k][i] == rest[i] by {
            assert(b[a.len() + i] == all[a.len() + i]);
        }
        assert(fss[k] =~= rest.take(fss[k].len() as int));
    }
    lemma_accepts_prefix(t, rest, fss[k]);
}

/// A sink that can take all can take the first few.
pub proof fn lemma_accepts_prefix<S: FragmentSink>(s: S, all: Seq<Fragment>, fs: Seq<Fragment>)
    requires
        accepts(s, all),
        fs.is_prefix_of(all),
    ensures
        accepts(s, fs),
    decreases fs.len(),
{
    if fs.len() > 0 {
        assert(fs[0] == all[0]);
        assert forall|t: S| #[trigger] S::took(s, fs[0], t) implies accepts(
            t,
            fs.drop_first(),
        ) by {
            assert forall|i: int| 0 <= i < fs.len() - 1 implies fs.drop_first()[i]
                == all.drop_first()[i] by {
                assert(fs[i + 1] == all[i + 1]);
            }
            assert(fs.drop_first() =~= all.drop_first().take(fs.len() - 1));
            lemma_accepts_prefix(t, all.drop_first(), fs.drop_first());
        }
    }
}

/// Folds of plain fragments, as many in all as 64 bits can count, can be tallied.
pub proof fn lemma_all_plain(fss: Seq<Seq<Fragment>>)
    requires
        forall|i: int| 0 <= i < fss.len() ==> plain_frags(#[trigger] fss[i]),
        joined(fss).len() <= u64::MAX,
    ensures
        plain_frags(joined(fss)),
        all_tallyable(fss),
    decreases fss.len(),
{
    lemma_joined_plain(fss);
    assert forall|i: int| 0 <= i < fss.len() implies tallyable(#[trigger] fss[i]) by {
        lemma_joined_push(fss, i);
        lemma_plain_tallyable(fss[i]);
    }
    assert forall|k: int, b: int| 0 <= k <= fss.len() && 0 <= b < MAX_BUCKETS implies (
    #[trigger] tally(joined(fss.take(k)), b)).fits() by {
        let part = fss.take(k);
        assert forall|i: int| 0 <= i < part.len() implies plain_frags(#[trigger] part[i]) by {
            assert(part[i] == fss[i]);
        }
        lemma_joined_plain(part);
        assert forall|i: int| 0 <= i < joined(part).len() implies sized_frag(
            #[trigger] joined(part)[i],
        ) by {
            assert(plain_frag(joined(part)[i]));
        }
        lemma_tally_sized(joined(part), b);
        if k > 0 {
            lemma_joined_push(fss, k - 1);
        }
    }
}

proof fn lemma_joined_plain(fss: Seq<Seq<Fragment>>)
    requires
        forall|i: int| 0 <= i < fss.len() ==> plain_frags(#[trigger] fss[i]),
    ensures
        plain_frags(joined(fss)),
    decreases fss.len(),
{
    if fss.len() > 0 {
        let head = fss.drop_last();
        assert forall|i: int| 0 <= i < head.len() implies plain_frags(#[trigger] head[i]) by {
            assert(head[i] == fss[i]);
        }
        lemma_joined_plain(head);
        assert(plain_frags(fss[fss.len() - 1]));
    }
}

/// Every fragment falls into one of the first `n` buckets.
pub open spec fn within_buckets(fs: Seq<Fragment>, n: int) -> bool {
    forall|i: int| 0 <= i < fs.len() ==> (#[trigger] fs[i]).bucket < n
}

pub proof fn lemma_joined_within(fss: Seq<Seq<Fragment>>, n: int)
    requires
        forall|i: int| 0 <= i < fss.len() ==> within_buckets(#[trigger] fss[i], n),
    ensures
        within_buckets(joined(fss), n),
    decreases fss.len(),
{
    if fss.len() > 0 {
        let head = fss.drop_last();
        assert forall|i: int| 0 <= i < head.len() implies within_buckets(#[trigger] head[i], n) by {
            assert(head[i] == fss[i]);
        }
        lemma_joined_within(head, n);
        assert(within_buckets(fss[fss.len() - 1], n));
        let all = joined(fss);
        assert forall|i: int| 0 <= i < all.len() implies (#[trigger] all[i]).bucket < n by {
            if i < joined(head).len() {
                assert(all[i] == joined(head)[i]);
            } else {
                assert(all[i] == fss.last()[i - joined(head).len()]);
            }
        }
    }
}

pub proof fn lemma_joined_sized(fss: Seq<Seq<Fragment>>)
    requires
        forall|i: int| 0 <= i < fss.len() ==> sized_frags(#[trigger] fss[i]),
    ensures
        sized_frags(joined(fss)),
    decreases fss.len(),
{
    if fss.len() > 0 {
        let head = fss.drop_last();
        assert forall|i: int| 0 <= i < head.len() implies sized_frags(#[trigger] head[i]) by {
            assert(head[i] == fss[i]);
        }
        lemma_joined_sized(head);
        assert(sized_frags(fss[fss.len() - 1]));
    }
}

/// One more fragment that can be counted, in a bucket that can hold it.
pub proof fn lemma_tallyable_push(fs: Seq<Fragment>, f: Fragment)
    requires
        tallyable(fs),
        countable(f),
        tally(fs, f.bucket as int).plus(tally_one(f)).fits(),
    ensures
        tallyable(fs.push(f)),
{
    let all = fs.push(f);
    assert forall|i: int| 0 <= i < all.len() implies countable(#[trigger] all[i]) by {
        if i < fs.len() {
            assert(all[i] == fs[i]);
        }
    }
    assert(fs.take(fs.len() as int) =~= fs);
    assert forall|k: int, b: int| 0 <= k <= all.len() && 0 <= b < MAX_BUCKETS implies (
    #[trigger] tally(all.take(k), b)).fits() by {
        if k <= fs.len() {
            assert(all.take(k) =~= fs.take(k));
        } else {
            assert(all.take(k) =~= all);
            lemma_tally_push(fs, f, b);
            assert(tally(fs.take(fs.len() as int), b).fits());
        }
    }
}

} // verus!
