//! Laws of matching, share by share.
//!
//! A lot of ten shares is ten shares bought at one price on one day. Written out
//! this way, first-in-first-out needs no queue: the shares sold, in the order
//! they were sold, are the shares bought, in the order they were bought.

use vstd::prelude::*;
use crate::fifo::{
    anon, fold_frags, lots_wf, realized_upto, BucketRules, Fragment, Lot, MatchPolicy, MAX_BUCKETS,
};
use crate::matching::{
    bucket_of, counted, drain, fold, fragment, lemma_pick_in_range, lot_of, pick, step, tallies, tally, Desk,
    Tally,
};
use crate::packed::PackedTrade;

verus! {

/// One share, bought or sold.
pub struct Share {
    pub ticks: int,
    pub day: int,
}

/// `n` shares alike.
pub open spec fn alike(n: int, s: Share) -> Seq<Share> {
    Seq::new(
        if n > 0 {
            n as nat
        } else {
            0
        },
        |i: int| s,
    )
}

/// The shares of a lot.
pub open spec fn lot_share(lot: Lot) -> Share {
    Share { ticks: lot.price_ticks as int, day: lot.day as int }
}

/// The shares in open lots, oldest lot first.
pub open spec fn lot_shares(lots: Seq<Lot>) -> Seq<Share>
    decreases lots.len(),
{
    if lots.len() == 0 {
        Seq::empty()
    } else {
        lot_shares(lots.drop_last()) + alike(lots.last().qty as int, lot_share(lots.last()))
    }
}

/// The shares that the records buy, in order.
pub open spec fn bought(recs: Seq<PackedTrade>) -> Seq<Share>
    decreases recs.len(),
{
    if recs.len() == 0 {
        Seq::empty()
    } else {
        bought(recs.drop_last()) + alike(
            recs.last().signed_qty as int,
            Share { ticks: recs.last().price_ticks as int, day: recs.last().day as int },
        )
    }
}

/// The shares that the records sell, in order.
pub open spec fn sold(recs: Seq<PackedTrade>) -> Seq<Share>
    decreases recs.len(),
{
    if recs.len() == 0 {
        Seq::empty()
    } else {
        sold(recs.drop_last()) + alike(
            -(recs.last().signed_qty as int),
            Share { ticks: recs.last().price_ticks as int, day: recs.last().day as int },
        )
    }
}

/// The buy side of the shares matched, in order.
pub open spec fn buy_side(fs: Seq<Fragment>) -> Seq<Share>
    decreases fs.len(),
{
    if fs.len() == 0 {
        Seq::empty()
    } else {
        buy_side(fs.drop_last()) + alike(
            fs.last().matched_qty as int,
            Share { ticks: fs.last().buy_ticks as int, day: fs.last().buy_day as int },
        )
    }
}

/// The sell side of the shares matched, in order.
pub open spec fn sell_side(fs: Seq<Fragment>) -> Seq<Share>
    decreases fs.len(),
{
    if fs.len() == 0 {
        Seq::empty()
    } else {
        sell_side(fs.drop_last()) + alike(
            fs.last().matched_qty as int,
            Share { ticks: fs.last().sell_ticks as int, day: fs.last().sell_day as int },
        )
    }
}

// ---------------------------------------------------------------------------
// Splitting and joining
// ---------------------------------------------------------------------------

proof fn lemma_lot_shares_front(lots: Seq<Lot>)
    requires
        lots.len() > 0,
    ensures
        lot_shares(lots) == alike(lots[0].qty as int, lot_share(lots[0])) + lot_shares(
            lots.drop_first(),
        ),
    decreases lots.len(),
{
    let front = alike(lots[0].qty as int, lot_share(lots[0]));
    if lots.len() == 1 {
        assert(lots.drop_last() =~= Seq::empty());
        assert(lots.drop_first() =~= Seq::empty());
        assert(lot_shares(lots.drop_last()) =~= Seq::empty());
        assert(front + Seq::empty() =~= front);
        assert(Seq::<Share>::empty() + front =~= front);
    } else {
        lemma_lot_shares_front(lots.drop_last());
        assert(lots.drop_last().drop_first() =~= lots.drop_first().drop_last());
        let back = alike(lots.last().qty as int, lot_share(lots.last()));
        let mid = lot_shares(lots.drop_first().drop_last());
        assert(front + mid + back =~= front + (mid + back));
    }
}

pub proof fn lemma_sides_append(a: Seq<Fragment>, b: Seq<Fragment>)
    ensures
        buy_side(a + b) == buy_side(a) + buy_side(b),
        sell_side(a + b) == sell_side(a) + sell_side(b),
    decreases b.len(),
{
    if b.len() == 0 {
        assert(a + b =~= a);
        assert(buy_side(a) + Seq::empty() =~= buy_side(a));
        assert(sell_side(a) + Seq::empty() =~= sell_side(a));
    } else {
        lemma_sides_append(a, b.drop_last());
        assert((a + b).drop_last() =~= a + b.drop_last());
        let f = b.last();
        let x = alike(
            f.matched_qty as int,
            Share { ticks: f.buy_ticks as int, day: f.buy_day as int },
        );
        let y = alike(
            f.matched_qty as int,
            Share { ticks: f.sell_ticks as int, day: f.sell_day as int },
        );
        assert(buy_side(a) + buy_side(b.drop_last()) + x =~= buy_side(a) + (buy_side(b.drop_last())
            + x));
        assert(sell_side(a) + sell_side(b.drop_last()) + y =~= sell_side(a) + (sell_side(
            b.drop_last(),
        ) + y));
    }
}

pub proof fn lemma_sides_one(f: Fragment)
    ensures
        buy_side(seq![f]) == alike(
            f.matched_qty as int,
            Share { ticks: f.buy_ticks as int, day: f.buy_day as int },
        ),
        sell_side(seq![f]) == alike(
            f.matched_qty as int,
            Share { ticks: f.sell_ticks as int, day: f.sell_day as int },
        ),
{
    let s = seq![f];
    assert(s.drop_last() =~= Seq::empty());
    reveal_with_fuel(buy_side, 2);
    reveal_with_fuel(sell_side, 2);
    assert(buy_side(s) =~= alike(
        f.matched_qty as int,
        Share { ticks: f.buy_ticks as int, day: f.buy_day as int },
    ));
    assert(sell_side(s) =~= alike(
        f.matched_qty as int,
        Share { ticks: f.sell_ticks as int, day: f.sell_day as int },
    ));
}

// ---------------------------------------------------------------------------
// One sell
// ---------------------------------------------------------------------------

/// First in, first out: a sell takes the oldest shares and leaves the others.
proof fn lemma_drain_fifo(desk: Desk, lots: Seq<Lot>, remaining: int, sell: PackedTrade)
    requires
        desk.policy == MatchPolicy::Fifo,
        lots_wf(lots),
    ensures
        ({
            let d = drain(desk, lots, remaining, sell);
            buy_side(d.1) + lot_shares(d.0) == lot_shares(lots)
        }),
    decreases lots.len(),
{
    let d = drain(desk, lots, remaining, sell);
    if remaining > 0 && lots.len() > 0 {
        let lot = lots[0];
        assert(lot.qty >= 0);
        let share = lot_share(lot);
        lemma_lot_shares_front(lots);
        if lot.qty <= remaining {
            let rest = lots.remove(0);
            assert(rest =~= lots.drop_first());
            assert(lots_wf(rest)) by {
                assert forall|i: int| 0 <= i < rest.len() implies (#[trigger] rest[i]).qty >= 0 by {
                    assert(rest[i] == lots[i + 1]);
                }
            }
            lemma_drain_fifo(desk, rest, remaining - lot.qty, sell);
            let sub = drain(desk, rest, remaining - lot.qty, sell);
            let f = fragment(desk, lot, sell, lot.qty as int);
            lemma_sides_append(seq![f], sub.1);
            lemma_sides_one(f);
            let a = alike(lot.qty as int, share);
            assert(buy_side(d.1) == a + buy_side(sub.1));
            assert(a + buy_side(sub.1) + lot_shares(sub.0) =~= a + (buy_side(sub.1) + lot_shares(
                sub.0,
            )));
        } else {
            let f = fragment(desk, lot, sell, remaining);
            lemma_sides_one(f);
            lemma_lot_shares_front(d.0);
            assert(d.0.drop_first() =~= lots.drop_first());
            let a = alike(remaining, share);
            let b = alike(lot.qty - remaining, share);
            assert(alike(lot.qty as int, share) =~= a + b);
            assert(a + (b + lot_shares(lots.drop_first())) =~= a + b + lot_shares(
                lots.drop_first(),
            ));
        }
    } else {
        assert(buy_side(d.1) + lot_shares(d.0) =~= lot_shares(lots));
    }
}

/// How many shares the lots hold.
pub open spec fn open_qty(lots: Seq<Lot>) -> int
    decreases lots.len(),
{
    if lots.len() == 0 {
        0
    } else {
        open_qty(lots.drop_last()) + lots.last().qty
    }
}

/// How many shares were matched.
pub open spec fn matched_qty(fs: Seq<Fragment>) -> int
    decreases fs.len(),
{
    if fs.len() == 0 {
        0
    } else {
        matched_qty(fs.drop_last()) + fs.last().matched_qty
    }
}

proof fn lemma_open_remove(lots: Seq<Lot>, i: int)
    requires
        0 <= i < lots.len(),
    ensures
        open_qty(lots.remove(i)) == open_qty(lots) - lots[i].qty,
    decreases lots.len(),
{
    if i == lots.len() - 1 {
        assert(lots.remove(i) =~= lots.drop_last());
    } else {
        lemma_open_remove(lots.drop_last(), i);
        assert(lots.remove(i).drop_last() =~= lots.drop_last().remove(i));
        assert(lots.remove(i).last() == lots.last());
    }
}

proof fn lemma_open_update(lots: Seq<Lot>, i: int, lot: Lot)
    requires
        0 <= i < lots.len(),
    ensures
        open_qty(lots.update(i, lot)) == open_qty(lots) - lots[i].qty + lot.qty,
    decreases lots.len(),
{
    if i == lots.len() - 1 {
        assert(lots.update(i, lot).drop_last() =~= lots.drop_last());
    } else {
        lemma_open_update(lots.drop_last(), i, lot);
        assert(lots.update(i, lot).drop_last() =~= lots.drop_last().update(i, lot));
    }
}

proof fn lemma_open_bound(lots: Seq<Lot>, i: int)
    requires
        lots_wf(lots),
        0 <= i < lots.len(),
    ensures
        lots[i].qty <= open_qty(lots),
    decreases lots.len(),
{
    let head = lots.drop_last();
    assert(lots_wf(head)) by {
        assert forall|k: int| 0 <= k < head.len() implies (#[trigger] head[k]).qty >= 0 by {
            assert(head[k] == lots[k]);
        }
    }
    assert(lots[lots.len() - 1].qty >= 0);
    if i < head.len() {
        lemma_open_bound(head, i);
        assert(head[i] == lots[i]);
    } else {
        lemma_open_nonneg(head);
    }
}

proof fn lemma_open_nonneg(lots: Seq<Lot>)
    requires
        lots_wf(lots),
    ensures
        open_qty(lots) >= 0,
    decreases lots.len(),
{
    if lots.len() > 0 {
        let head = lots.drop_last();
        assert(lots_wf(head)) by {
            assert forall|k: int| 0 <= k < head.len() implies (#[trigger] head[k]).qty >= 0 by {
                assert(head[k] == lots[k]);
            }
        }
        lemma_open_nonneg(head);
        assert(lots[lots.len() - 1].qty >= 0);
    }
}

proof fn lemma_matched_append(a: Seq<Fragment>, b: Seq<Fragment>)
    ensures
        matched_qty(a + b) == matched_qty(a) + matched_qty(b),
    decreases b.len(),
{
    if b.len() == 0 {
        assert(a + b =~= a);
    } else {
        lemma_matched_append(a, b.drop_last());
        assert((a + b).drop_last() =~= a + b.drop_last());
    }
}

/// Whatever the policy, a sell takes as many shares as it asks for and are open.
proof fn lemma_drain_qty(desk: Desk, lots: Seq<Lot>, remaining: int, sell: PackedTrade)
    requires
        lots_wf(lots),
        remaining <= 0x8000_0000,
    ensures
        ({
            let d = drain(desk, lots, remaining, sell);
            let taken = if remaining <= 0 {
                0
            } else if remaining <= open_qty(lots) {
                remaining
            } else {
                open_qty(lots)
            };
            &&& lots_wf(d.0)
            &&& matched_qty(d.1) == taken
            &&& open_qty(d.0) == open_qty(lots) - taken
        }),
    decreases lots.len(),
{
    lemma_open_nonneg(lots);
    if remaining > 0 && lots.len() > 0 {
        lemma_pick_in_range(lots, desk.policy);
        let i = pick(lots, desk.policy);
        let lot = lots[i];
        assert(lot.qty >= 0);
        lemma_open_bound(lots, i);
        if lot.qty <= remaining {
            let rest = lots.remove(i);
            assert(lots_wf(rest)) by {
                assert forall|k: int| 0 <= k < rest.len() implies (#[trigger] rest[k]).qty >= 0 by {
                    assert(rest[k] == lots[if k < i {
                        k
                    } else {
                        k + 1
                    }]);
                }
            }
            lemma_open_remove(lots, i);
            lemma_drain_qty(desk, rest, remaining - lot.qty, sell);
            let sub = drain(desk, rest, remaining - lot.qty, sell);
            let f = fragment(desk, lot, sell, lot.qty as int);
            lemma_matched_append(seq![f], sub.1);
            reveal_with_fuel(matched_qty, 2);
            assert(seq![f].drop_last() =~= Seq::empty());
            lemma_open_nonneg(rest);
        } else {
            lemma_open_update(lots, i, Lot { qty: (lot.qty - remaining) as i64, ..lot });
            reveal_with_fuel(matched_qty, 2);
            let f = fragment(desk, lot, sell, remaining);
            assert(seq![f].drop_last() =~= Seq::empty());
        }
    }
}

/// A sell's fragments carry its price and day.
proof fn lemma_drain_sell_side(desk: Desk, lots: Seq<Lot>, remaining: int, sell: PackedTrade)
    requires
        lots_wf(lots),
        remaining <= 0x8000_0000,
    ensures
        sell_side(drain(desk, lots, remaining, sell).1) == alike(
            matched_qty(drain(desk, lots, remaining, sell).1),
            Share { ticks: sell.price_ticks as int, day: sell.day as int },
        ),
    decreases lots.len(),
{
    let share = Share { ticks: sell.price_ticks as int, day: sell.day as int };
    let d = drain(desk, lots, remaining, sell);
    lemma_drain_qty(desk, lots, remaining, sell);
    if remaining > 0 && lots.len() > 0 {
        lemma_pick_in_range(lots, desk.policy);
        let i = pick(lots, desk.policy);
        let lot = lots[i];
        assert(lot.qty >= 0);
        if lot.qty <= remaining {
            let rest = lots.remove(i);
            assert(lots_wf(rest)) by {
                assert forall|k: int| 0 <= k < rest.len() implies (#[trigger] rest[k]).qty >= 0 by {
                    assert(rest[k] == lots[if k < i {
                        k
                    } else {
                        k + 1
                    }]);
                }
            }
            lemma_drain_sell_side(desk, rest, remaining - lot.qty, sell);
            lemma_drain_qty(desk, rest, remaining - lot.qty, sell);
            lemma_open_nonneg(rest);
            let sub = drain(desk, rest, remaining - lot.qty, sell);
            let f = fragment(desk, lot, sell, lot.qty as int);
            lemma_sides_append(seq![f], sub.1);
            lemma_sides_one(f);
            lemma_matched_append(seq![f], sub.1);
            reveal_with_fuel(matched_qty, 2);
            assert(seq![f].drop_last() =~= Seq::empty());
            assert(alike(lot.qty as int, share) + alike(matched_qty(sub.1), share) =~= alike(
                matched_qty(d.1),
                share,
            ));
        } else {
            let f = fragment(desk, lot, sell, remaining);
            lemma_sides_one(f);
            reveal_with_fuel(matched_qty, 2);
            assert(seq![f].drop_last() =~= Seq::empty());
        }
    } else {
        assert(alike(0, share) =~= Seq::empty());
    }
}

// ---------------------------------------------------------------------------
// Laws of folds
// ---------------------------------------------------------------------------

/// A fold leaves well-formed lots.
pub proof fn lemma_fold_lots_wf(desk: Desk, lots: Seq<Lot>, recs: Seq<PackedTrade>)
    requires
        lots_wf(lots),
    ensures
        lots_wf(fold(desk, lots, recs).0),
    decreases recs.len(),
{
    if recs.len() > 0 {
        lemma_fold_lots_wf(desk, lots, recs.drop_last());
        let before = fold(desk, lots, recs.drop_last());
        let r = recs.last();
        if r.signed_qty <= 0 {
            lemma_drain_qty(desk, before.0, -(r.signed_qty as int), r);
        } else {
            let now = before.0.push(lot_of(r));
            assert forall|k: int| 0 <= k < now.len() implies (#[trigger] now[k]).qty >= 0 by {
                if k < before.0.len() {
                    assert(before.0[k].qty >= 0);
                }
            }
        }
    }
}

/// First in, first out, share by share: the shares matched, in the order they
/// were sold, and then those still open, are the shares that were open and then
/// those bought, in the order they were bought.
pub proof fn lemma_fifo_shares(desk: Desk, lots: Seq<Lot>, recs: Seq<PackedTrade>)
    requires
        desk.policy == MatchPolicy::Fifo,
        lots_wf(lots),
    ensures
        ({
            let f = fold(desk, lots, recs);
            buy_side(f.1) + lot_shares(f.0) == lot_shares(lots) + bought(recs)
        }),
    decreases recs.len(),
{
    if recs.len() == 0 {
        assert(buy_side(Seq::empty()) + lot_shares(lots) =~= lot_shares(lots) + bought(recs));
    } else {
        let head = recs.drop_last();
        let r = recs.last();
        let before = fold(desk, lots, head);
        let last = step(desk, before.0, r);
        lemma_fifo_shares(desk, lots, head);
        lemma_fold_lots_wf(desk, lots, head);
        lemma_sides_append(before.1, last.1);
        let add = alike(
            r.signed_qty as int,
            Share { ticks: r.price_ticks as int, day: r.day as int },
        );
        let start = lot_shares(lots) + bought(head);
        assert(lot_shares(lots) + (bought(head) + add) =~= start + add);
        if r.signed_qty > 0 {
            assert(before.0.push(lot_of(r)).drop_last() =~= before.0);
            assert(buy_side(before.1 + last.1) =~= buy_side(before.1));
            assert(buy_side(before.1) + (lot_shares(before.0) + add) =~= buy_side(before.1)
                + lot_shares(before.0) + add);
        } else {
            lemma_drain_fifo(desk, before.0, -(r.signed_qty as int), r);
            assert(add =~= Seq::empty());
            assert(start + add =~= start);
            assert(buy_side(before.1) + buy_side(last.1) + lot_shares(last.0) =~= buy_side(
                before.1,
            ) + (buy_side(last.1) + lot_shares(last.0)));
        }
    }
}

/// No sell asks for more than is open.
pub open spec fn never_short(desk: Desk, lots: Seq<Lot>, recs: Seq<PackedTrade>) -> bool {
    forall|i: int|
        0 <= i < recs.len() ==> -(#[trigger] recs[i]).signed_qty <= open_qty(
            fold(desk, lots, recs.take(i)).0,
        )
}

/// Where nothing is sold short, every share sold is matched, in the order sold.
pub proof fn lemma_sold_shares(desk: Desk, lots: Seq<Lot>, recs: Seq<PackedTrade>)
    requires
        lots_wf(lots),
        never_short(desk, lots, recs),
    ensures
        sell_side(fold(desk, lots, recs).1) == sold(recs),
    decreases recs.len(),
{
    if recs.len() > 0 {
        let head = recs.drop_last();
        let r = recs.last();
        let before = fold(desk, lots, head);
        let last = step(desk, before.0, r);
        assert(never_short(desk, lots, head)) by {
            assert forall|i: int| 0 <= i < head.len() implies -(#[trigger] head[i]).signed_qty
                <= open_qty(fold(desk, lots, head.take(i)).0) by {
                assert(head[i] == recs[i]);
                assert(head.take(i) =~= recs.take(i));
            }
        }
        lemma_sold_shares(desk, lots, head);
        lemma_fold_lots_wf(desk, lots, head);
        lemma_sides_append(before.1, last.1);
        assert(recs.take(recs.len() - 1) =~= head);
        assert(-recs[recs.len() - 1].signed_qty <= open_qty(before.0));
        let share = Share { ticks: r.price_ticks as int, day: r.day as int };
        if r.signed_qty > 0 {
            assert(alike(-(r.signed_qty as int), share) =~= Seq::empty());
        } else {
            lemma_drain_qty(desk, before.0, -(r.signed_qty as int), r);
            lemma_drain_sell_side(desk, before.0, -(r.signed_qty as int), r);
            lemma_open_nonneg(before.0);
        }
    }
}

/// The `k`-th share sold is the `k`-th share bought: matching first in, first
/// out is laying the shares sold alongside the shares bought. No queue is
/// needed to know it.
pub proof fn lemma_kth_sold_is_kth_bought(desk: Desk, recs: Seq<PackedTrade>, k: int)
    requires
        desk.policy == MatchPolicy::Fifo,
        never_short(desk, Seq::empty(), recs),
        0 <= k < sold(recs).len(),
    ensures
        ({
            let fs = fold(desk, Seq::empty(), recs).1;
            &&& buy_side(fs).len() == sold(recs).len() <= bought(recs).len()
            &&& sell_side(fs)[k] == sold(recs)[k]
            &&& buy_side(fs)[k] == bought(recs)[k]
        }),
{
    let f = fold(desk, Seq::empty(), recs);
    lemma_fifo_shares(desk, Seq::empty(), recs);
    lemma_sold_shares(desk, Seq::empty(), recs);
    lemma_sides_len(f.1);
    assert(lot_shares(Seq::empty()) + bought(recs) =~= bought(recs));
    assert((buy_side(f.1) + lot_shares(f.0))[k] == buy_side(f.1)[k]);
}

proof fn lemma_sides_len(fs: Seq<Fragment>)
    ensures
        buy_side(fs).len() == sell_side(fs).len(),
    decreases fs.len(),
{
    if fs.len() > 0 {
        lemma_sides_len(fs.drop_last());
    }
}

/// What the first `k` shares come to in bucket `b` when the shares sold are laid
/// alongside the shares bought.
pub open spec fn laid_out(
    rules: BucketRules,
    bs: Seq<Share>,
    ss: Seq<Share>,
    b: int,
    k: int,
) -> (int, int)
    decreases k,
{
    if k <= 0 {
        (0, 0)
    } else {
        let before = laid_out(rules, bs, ss, b, k - 1);
        if bucket_of(rules, bs[k - 1].day, ss[k - 1].day) == b {
            (before.0 + ss[k - 1].ticks - bs[k - 1].ticks, before.1 + 1)
        } else {
            before
        }
    }
}

/// Every fragment lies in the bucket that its own holding period falls into.
pub open spec fn ruled(rules: BucketRules, fs: Seq<Fragment>) -> bool {
    forall|i: int|
        0 <= i < fs.len() ==> (#[trigger] fs[i]).bucket == bucket_of(
            rules,
            fs[i].buy_day as int,
            fs[i].sell_day as int,
        ) && fs[i].matched_qty >= 0
}

proof fn lemma_ruled_append(rules: BucketRules, a: Seq<Fragment>, b: Seq<Fragment>)
    requires
        ruled(rules, a),
        ruled(rules, b),
    ensures
        ruled(rules, a + b),
{
    let c = a + b;
    assert forall|i: int| 0 <= i < c.len() implies (#[trigger] c[i]).bucket == bucket_of(
        rules,
        c[i].buy_day as int,
        c[i].sell_day as int,
    ) && c[i].matched_qty >= 0 by {
        if i < a.len() {
            assert(c[i] == a[i]);
        } else {
            assert(c[i] == b[i - a.len()]);
        }
    }
}

proof fn lemma_drain_ruled(desk: Desk, lots: Seq<Lot>, remaining: int, sell: PackedTrade)
    requires
        lots_wf(lots),
        remaining <= i64::MAX,
        desk.rules.buckets() <= usize::MAX,
    ensures
        ruled(desk.rules, drain(desk, lots, remaining, sell).1),
    decreases lots.len(),
{
    if remaining > 0 && lots.len() > 0 {
        lemma_pick_in_range(lots, desk.policy);
        let i = pick(lots, desk.policy);
        assert(lots[i].qty >= 0);
        crate::matching::lemma_bucket_range(desk.rules, lots[i].day as int, sell.day as int);
        if lots[i].qty <= remaining {
            let fewer = lots.remove(i);
            assert(lots_wf(fewer)) by {
                assert forall|j: int| 0 <= j < fewer.len() implies (#[trigger] fewer[j]).qty >= 0 by {
                    if j < i {
                        assert(fewer[j] == lots[j]);
                    } else {
                        assert(fewer[j] == lots[j + 1]);
                    }
                }
            }
            lemma_drain_ruled(desk, fewer, remaining - lots[i].qty, sell);
            let one = seq![fragment(desk, lots[i], sell, lots[i].qty as int)];
            assert(ruled(desk.rules, one));
            lemma_ruled_append(
                desk.rules,
                one,
                drain(desk, fewer, remaining - lots[i].qty, sell).1,
            );
        }
    }
}

/// A sell may fall into several buckets: each matched piece goes by its own
/// holding period.
pub proof fn lemma_fold_ruled(desk: Desk, lots: Seq<Lot>, recs: Seq<PackedTrade>)
    requires
        lots_wf(lots),
        desk.rules.buckets() <= usize::MAX,
    ensures
        ruled(desk.rules, fold(desk, lots, recs).1),
    decreases recs.len(),
{
    if recs.len() > 0 {
        let head = recs.drop_last();
        let r = recs.last();
        let before = fold(desk, lots, head);
        lemma_fold_ruled(desk, lots, head);
        lemma_fold_lots_wf(desk, lots, head);
        if r.signed_qty <= 0 {
            lemma_drain_ruled(desk, before.0, -(r.signed_qty as int), r);
        }
        lemma_ruled_append(desk.rules, before.1, step(desk, before.0, r).1);
    }
}

proof fn lemma_laid_out_same(
    rules: BucketRules,
    bs: Seq<Share>,
    ss: Seq<Share>,
    cs: Seq<Share>,
    ts: Seq<Share>,
    b: int,
    k: int,
)
    requires
        forall|i: int| 0 <= i < k ==> #[trigger] bs[i] == cs[i],
        forall|i: int| 0 <= i < k ==> #[trigger] ss[i] == ts[i],
    ensures
        laid_out(rules, bs, ss, b, k) == laid_out(rules, cs, ts, b, k),
    decreases k,
{
    if k > 0 {
        lemma_laid_out_same(rules, bs, ss, cs, ts, b, k - 1);
        assert(bs[k - 1] == cs[k - 1]);
        assert(ss[k - 1] == ts[k - 1]);
    }
}

/// `n` more shares alike on both sides.
proof fn lemma_laid_out_alike(
    rules: BucketRules,
    bs: Seq<Share>,
    ss: Seq<Share>,
    n: int,
    p: Share,
    q: Share,
    b: int,
)
    requires
        0 <= n,
        bs.len() == ss.len(),
    ensures
        ({
            let was = laid_out(rules, bs, ss, b, bs.len() as int);
            let now = laid_out(rules, bs + alike(n, p), ss + alike(n, q), b, bs.len() + n);
            if bucket_of(rules, p.day, q.day) == b {
                now == (was.0 + n * (q.ticks - p.ticks), was.1 + n)
            } else {
                now == was
            }
        }),
    decreases n,
{
    let x = bs + alike(n, p);
    let y = ss + alike(n, q);
    if n == 0 {
        lemma_laid_out_same(rules, x, y, bs, ss, b, bs.len() as int);
        assert(0 * (q.ticks - p.ticks) == 0);
    } else {
        lemma_laid_out_alike(rules, bs, ss, n - 1, p, q, b);
        let x1 = bs + alike(n - 1, p);
        let y1 = ss + alike(n - 1, q);
        let k = bs.len() + n;
        assert forall|i: int| 0 <= i < k - 1 implies #[trigger] x[i] == x1[i] by {}
        assert forall|i: int| 0 <= i < k - 1 implies #[trigger] y[i] == y1[i] by {}
        lemma_laid_out_same(rules, x, y, x1, y1, b, k - 1);
        assert(x[k - 1] == p);
        assert(y[k - 1] == q);
        let d = q.ticks - p.ticks;
        assert(n * d == (n - 1) * d + d) by (nonlinear_arith);
    }
}

proof fn lemma_laid_out_fragments(rules: BucketRules, fs: Seq<Fragment>, b: int)
    requires
        ruled(rules, fs),
    ensures
        laid_out(rules, buy_side(fs), sell_side(fs), b, buy_side(fs).len() as int) == (
            tally(fs, b).realized,
            tally(fs, b).qty,
        ),
    decreases fs.len(),
{
    if fs.len() > 0 {
        let head = fs.drop_last();
        let f = fs.last();
        assert(ruled(rules, head)) by {
            assert forall|i: int| 0 <= i < head.len() implies (#[trigger] head[i]).bucket
                == bucket_of(rules, head[i].buy_day as int, head[i].sell_day as int)
                && head[i].matched_qty >= 0 by {
                assert(head[i] == fs[i]);
            }
        }
        lemma_laid_out_fragments(rules, head, b);
        lemma_sides_len(head);
        assert(fs[fs.len() - 1] == f);
        let n = f.matched_qty as int;
        let p = Share { ticks: f.buy_ticks as int, day: f.buy_day as int };
        let q = Share { ticks: f.sell_ticks as int, day: f.sell_day as int };
        lemma_laid_out_alike(rules, buy_side(head), sell_side(head), n, p, q, b);
        assert(alike(n, p).len() == n);
        assert(f.realized() == n * (q.ticks - p.ticks)) by (nonlinear_arith)
            requires
                f.realized() == (q.ticks - p.ticks) * n,
        ;
    }
}

/// Laying the shares sold alongside the shares bought and sorting each pair into
/// the bucket of its holding period gives the fold's sums, bucket by bucket. So
/// the pairs may be searched and summed in any order, many at a time.
pub proof fn lemma_axes_give_buckets(desk: Desk, recs: Seq<PackedTrade>, b: int)
    requires
        desk.policy == MatchPolicy::Fifo,
        desk.rules.buckets() <= usize::MAX,
        never_short(desk, Seq::empty(), recs),
    ensures
        laid_out(desk.rules, bought(recs), sold(recs), b, sold(recs).len() as int) == (
            tally(fold(desk, Seq::empty(), recs).1, b).realized,
            tally(fold(desk, Seq::empty(), recs).1, b).qty,
        ),
{
    let fs = fold(desk, Seq::empty(), recs).1;
    lemma_fold_ruled(desk, Seq::empty(), recs);
    lemma_laid_out_fragments(desk.rules, fs, b);
    lemma_sold_shares(desk, Seq::empty(), recs);
    lemma_sides_len(fs);
    assert forall|k: int| 0 <= k < sold(recs).len() implies #[trigger] buy_side(fs)[k] == bought(
        recs,
    )[k] by {
        lemma_kth_sold_is_kth_bought(desk, recs, k);
    }
    lemma_laid_out_same(
        desk.rules,
        buy_side(fs),
        sell_side(fs),
        bought(recs),
        sold(recs),
        b,
        sold(recs).len() as int,
    );
}

/// How many shares the records buy.
pub open spec fn bought_qty(recs: Seq<PackedTrade>) -> int
    decreases recs.len(),
{
    if recs.len() == 0 {
        0
    } else {
        bought_qty(recs.drop_last()) + (if recs.last().signed_qty > 0 {
            recs.last().signed_qty as int
        } else {
            0
        })
    }
}

/// Shares are conserved under every policy: those matched and those still open
/// are those that were open and those bought.
pub proof fn lemma_conserved(desk: Desk, lots: Seq<Lot>, recs: Seq<PackedTrade>)
    requires
        lots_wf(lots),
    ensures
        ({
            let f = fold(desk, lots, recs);
            matched_qty(f.1) + open_qty(f.0) == open_qty(lots) + bought_qty(recs)
        }),
    decreases recs.len(),
{
    if recs.len() > 0 {
        let head = recs.drop_last();
        let r = recs.last();
        let before = fold(desk, lots, head);
        let last = step(desk, before.0, r);
        lemma_conserved(desk, lots, head);
        lemma_fold_lots_wf(desk, lots, head);
        lemma_matched_append(before.1, last.1);
        if r.signed_qty > 0 {
            assert(before.0.push(lot_of(r)).drop_last() =~= before.0);
        } else {
            lemma_drain_qty(desk, before.0, -(r.signed_qty as int), r);
        }
    }
}

/// The policy decides which shares are matched, never how many.
pub proof fn lemma_matched_any_policy(a: Desk, b: Desk, lots: Seq<Lot>, recs: Seq<PackedTrade>)
    requires
        lots_wf(lots),
    ensures
        open_qty(fold(a, lots, recs).0) == open_qty(fold(b, lots, recs).0),
        matched_qty(fold(a, lots, recs).1) == matched_qty(fold(b, lots, recs).1),
    decreases recs.len(),
{
    lemma_conserved(a, lots, recs);
    lemma_conserved(b, lots, recs);
    if recs.len() > 0 {
        let head = recs.drop_last();
        let r = recs.last();
        lemma_matched_any_policy(a, b, lots, head);
        lemma_fold_lots_wf(a, lots, head);
        lemma_fold_lots_wf(b, lots, head);
        let la = fold(a, lots, head).0;
        let lb = fold(b, lots, head).0;
        if r.signed_qty > 0 {
            assert(la.push(lot_of(r)).drop_last() =~= la);
            assert(lb.push(lot_of(r)).drop_last() =~= lb);
        } else {
            lemma_drain_qty(a, la, -(r.signed_qty as int), r);
            lemma_drain_qty(b, lb, -(r.signed_qty as int), r);
        }
    }
}

/// What the fragments realize, all together.
pub open spec fn realized_sum(fs: Seq<Fragment>) -> int
    decreases fs.len(),
{
    if fs.len() == 0 {
        0
    } else {
        realized_sum(fs.drop_last()) + fs.last().realized()
    }
}

/// What a share of the lot realizes when it is sold.
pub open spec fn share_gain(lot: Lot, sell: PackedTrade) -> int {
    sell.price_ticks - lot.price_ticks
}

/// A choice of how many shares of each lot to sell.
pub open spec fn is_choice(lots: Seq<Lot>, take: Seq<int>) -> bool {
    &&& take.len() == lots.len()
    &&& forall|i: int| 0 <= i < take.len() ==> 0 <= #[trigger] take[i] <= lots[i].qty
}

/// How many shares a choice sells.
pub open spec fn choice_qty(take: Seq<int>) -> int
    decreases take.len(),
{
    if take.len() == 0 {
        0
    } else {
        choice_qty(take.drop_last()) + take.last()
    }
}

/// What a choice realizes.
pub open spec fn choice_gain(lots: Seq<Lot>, take: Seq<int>, sell: PackedTrade) -> int
    decreases take.len(),
{
    if take.len() == 0 {
        0
    } else {
        choice_gain(lots.drop_last(), take.drop_last(), sell) + take.last() * share_gain(
            lots.last(),
            sell,
        )
    }
}

proof fn lemma_choice_remove(lots: Seq<Lot>, take: Seq<int>, sell: PackedTrade, i: int)
    requires
        is_choice(lots, take),
        0 <= i < lots.len(),
    ensures
        is_choice(lots.remove(i), take.remove(i)),
        choice_qty(take.remove(i)) == choice_qty(take) - take[i],
        choice_gain(lots.remove(i), take.remove(i), sell) == choice_gain(lots, take, sell)
            - take[i] * share_gain(lots[i], sell),
    decreases lots.len(),
{
    assert forall|k: int| 0 <= k < take.remove(i).len() implies 0 <= #[trigger] take.remove(i)[k]
        <= lots.remove(i)[k].qty by {
        let j = if k < i {
            k
        } else {
            k + 1
        };
        assert(take.remove(i)[k] == take[j] && lots.remove(i)[k] == lots[j]);
    }
    if i == lots.len() - 1 {
        assert(lots.remove(i) =~= lots.drop_last());
        assert(take.remove(i) =~= take.drop_last());
    } else {
        assert forall|k: int| 0 <= k < take.len() - 1 implies 0 <= #[trigger] take.drop_last()[k]
            <= lots.drop_last()[k].qty by {
            assert(take[k] == take.drop_last()[k]);
        }
        lemma_choice_remove(lots.drop_last(), take.drop_last(), sell, i);
        assert(lots.remove(i).drop_last() =~= lots.drop_last().remove(i));
        assert(take.remove(i).drop_last() =~= take.drop_last().remove(i));
        assert(lots.remove(i).last() == lots.last());
        assert(take.remove(i).last() == take.last());
    }
}

/// Where no share realizes less than `least`, a choice realizes at least that much a
/// share.
proof fn lemma_choice_floor(lots: Seq<Lot>, take: Seq<int>, sell: PackedTrade, least: int)
    requires
        is_choice(lots, take),
        forall|i: int| 0 <= i < lots.len() ==> least <= share_gain(#[trigger] lots[i], sell),
    ensures
        choice_gain(lots, take, sell) >= choice_qty(take) * least,
        choice_qty(take) >= 0,
    decreases lots.len(),
{
    if take.len() > 0 {
        let n = take.len() - 1;
        assert forall|k: int| 0 <= k < n implies 0 <= #[trigger] take.drop_last()[k]
            <= lots.drop_last()[k].qty by {
            assert(take[k] == take.drop_last()[k]);
        }
        assert forall|k: int| 0 <= k < n implies least <= share_gain(
            #[trigger] lots.drop_last()[k],
            sell,
        ) by {
            assert(lots[k] == lots.drop_last()[k]);
        }
        lemma_choice_floor(lots.drop_last(), take.drop_last(), sell, least);
        let q = choice_qty(take.drop_last());
        let t = take[n];
        let g = share_gain(lots[n], sell);
        assert((q + t) * least == q * least + t * least) by (nonlinear_arith);
        assert(t * g >= t * least) by (nonlinear_arith)
            requires
                t >= 0,
                g >= least,
        ;
    } else {
        assert(choice_qty(take) * least == 0) by (nonlinear_arith)
            requires
                choice_qty(take) == 0,
        ;
    }
}

/// A choice that sells more than dearest-first realizes, beyond it, at least `least`
/// on each share more.
proof fn lemma_dearest_first(
    desk: Desk,
    lots: Seq<Lot>,
    take: Seq<int>,
    remaining: int,
    sell: PackedTrade,
    least: int,
)
    requires
        desk.policy == MatchPolicy::Hifo,
        lots_wf(lots),
        remaining <= 0x8000_0000,
        is_choice(lots, take),
        forall|i: int| 0 <= i < lots.len() ==> least <= share_gain(#[trigger] lots[i], sell),
        choice_qty(take) >= matched_qty(drain(desk, lots, remaining, sell).1),
    ensures
        ({
            let fs = drain(desk, lots, remaining, sell).1;
            choice_gain(lots, take, sell) >= realized_sum(fs) + (choice_qty(take) - matched_qty(fs))
                * least
        }),
    decreases lots.len(),
{
    let fs = drain(desk, lots, remaining, sell).1;
    let s = choice_qty(take);
    lemma_choice_floor(lots, take, sell, least);
    if remaining > 0 && lots.len() > 0 {
        lemma_pick_in_range(lots, desk.policy);
        let i = pick(lots, desk.policy);
        let lot = lots[i];
        let g = share_gain(lot, sell);
        let q = lot.qty as int;
        let t = take[i];
        assert forall|j: int| 0 <= j < lots.len() implies g <= share_gain(
            #[trigger] lots[j],
            sell,
        ) by {
            assert(lots[j].price_ticks <= lots[i].price_ticks);
        }
        lemma_drain_qty(desk, lots, remaining, sell);
        let all = matched_qty(fs);
        assert((s - all) * g >= (s - all) * least) by (nonlinear_arith)
            requires
                s >= all,
                g >= least,
        ;
        if q <= remaining {
            let rest = lots.remove(i);
            let kept = take.remove(i);
            assert forall|k: int| 0 <= k < rest.len() implies (#[trigger] rest[k]).qty >= 0
                && g <= share_gain(rest[k], sell) by {
                assert(rest[k] == lots[if k < i {
                    k
                } else {
                    k + 1
                }]);
            }
            assert(lots_wf(rest));
            lemma_choice_remove(lots, take, sell, i);
            let sub = drain(desk, rest, remaining - q, sell).1;
            let f = fragment(desk, lot, sell, q);
            assert(fs == seq![f] + sub);
            lemma_matched_append(seq![f], sub);
            lemma_realized_append(seq![f], sub);
            reveal_with_fuel(matched_qty, 2);
            reveal_with_fuel(realized_sum, 2);
            assert(seq![f].drop_last() =~= Seq::empty());
            assert(f.realized() == q * g);
            lemma_dearest_first(desk, rest, kept, remaining - q, sell, g);
            let s1 = choice_qty(kept);
            let all1 = matched_qty(sub);
            assert(t * g + (s1 - all1) * g == q * g + (s - all) * g) by (nonlinear_arith)
                requires
                    s == s1 + t,
                    all == all1 + q,
            ;
        } else {
            let f = fragment(desk, lot, sell, remaining);
            assert(fs == seq![f]);
            reveal_with_fuel(matched_qty, 2);
            reveal_with_fuel(realized_sum, 2);
            assert(seq![f].drop_last() =~= Seq::empty());
            assert(f.realized() == remaining * g);
            lemma_choice_floor(lots, take, sell, g);
            assert(s * g == remaining * g + (s - remaining) * g) by (nonlinear_arith);
        }
    } else {
        assert(fs =~= Seq::empty());
    }
}

/// Dearest-first realizes least: no other choice of as many shares out of the open
/// lots gives that sell a smaller gain.
pub proof fn lemma_dearest_first_is_least(
    desk: Desk,
    lots: Seq<Lot>,
    sell: PackedTrade,
    take: Seq<int>,
)
    requires
        desk.policy == MatchPolicy::Hifo,
        lots_wf(lots),
        sell.signed_qty <= 0,
        is_choice(lots, take),
        choice_qty(take) == matched_qty(step(desk, lots, sell).1),
    ensures
        realized_sum(step(desk, lots, sell).1) <= choice_gain(lots, take, sell),
{
    let least = if lots.len() > 0 {
        lemma_pick_in_range(lots, desk.policy);
        share_gain(lots[pick(lots, desk.policy)], sell)
    } else {
        0
    };
    assert forall|i: int| 0 <= i < lots.len() implies least <= share_gain(
        #[trigger] lots[i],
        sell,
    ) by {
        assert(lots[i].price_ticks <= lots[pick(lots, desk.policy)].price_ticks);
    }
    let fs = step(desk, lots, sell).1;
    lemma_dearest_first(desk, lots, take, -(sell.signed_qty as int), sell, least);
    assert((choice_qty(take) - matched_qty(fs)) * least == 0) by (nonlinear_arith)
        requires
            choice_qty(take) == matched_qty(fs),
    ;
}

proof fn lemma_realized_append(a: Seq<Fragment>, b: Seq<Fragment>)
    ensures
        realized_sum(a + b) == realized_sum(a) + realized_sum(b),
    decreases b.len(),
{
    if b.len() == 0 {
        assert(a + b =~= a);
    } else {
        lemma_realized_append(a, b.drop_last());
        assert((a + b).drop_last() =~= a + b.drop_last());
    }
}

/// The buckets together hold what the fragments, seen one by one, add up to: a
/// sink that sums what it is handed arrives at the fold's own total.
pub proof fn lemma_buckets_hold_all(fs: Seq<Fragment>)
    requires
        forall|i: int| 0 <= i < fs.len() ==> (#[trigger] fs[i]).bucket < MAX_BUCKETS,
    ensures
        realized_upto(tallies(fs), MAX_BUCKETS as int) == realized_sum(fs),
    decreases fs.len(),
{
    reveal_with_fuel(realized_upto, 9);
    if fs.len() == 0 {
        assert forall|b: int| 0 <= b < MAX_BUCKETS implies (#[trigger] tallies(fs)[b])
            == Tally::zero() by {}
    } else {
        let head = fs.drop_last();
        let f = fs.last();
        assert(fs[fs.len() - 1].bucket < MAX_BUCKETS);
        assert forall|i: int| 0 <= i < head.len() implies (#[trigger] head[i]).bucket
            < MAX_BUCKETS by {
            assert(head[i] == fs[i]);
        }
        lemma_buckets_hold_all(head);
        assert forall|b: int| 0 <= b < MAX_BUCKETS implies (#[trigger] tallies(fs)[b]).realized
            == tallies(head)[b].realized + (if f.bucket == b {
            f.realized()
        } else {
            0
        }) by {}
    }
}

/// Two fragments alike in all but whose they are.
pub open spec fn same_but_owner(f: Fragment, g: Fragment) -> bool {
    f == (Fragment { client: f.client, symbol: f.symbol, ..g })
}

pub open spec fn all_same_but_owner(fs: Seq<Fragment>, gs: Seq<Fragment>) -> bool {
    &&& fs.len() == gs.len()
    &&& forall|i: int| 0 <= i < fs.len() ==> same_but_owner(#[trigger] fs[i], gs[i])
}

proof fn lemma_drain_owner(a: Desk, b: Desk, lots: Seq<Lot>, remaining: int, sell: PackedTrade)
    requires
        a.rules == b.rules,
        a.policy == b.policy,
    ensures
        drain(a, lots, remaining, sell).0 == drain(b, lots, remaining, sell).0,
        all_same_but_owner(drain(a, lots, remaining, sell).1, drain(b, lots, remaining, sell).1),
    decreases lots.len(),
{
    if remaining > 0 && lots.len() > 0 {
        lemma_pick_in_range(lots, a.policy);
        let i = pick(lots, a.policy);
        let lot = lots[i];
        if lot.qty <= remaining {
            lemma_drain_owner(a, b, lots.remove(i), remaining - lot.qty, sell);
            let fa = drain(a, lots, remaining, sell).1;
            let fb = drain(b, lots, remaining, sell).1;
            let sa = drain(a, lots.remove(i), remaining - lot.qty, sell).1;
            let sb = drain(b, lots.remove(i), remaining - lot.qty, sell).1;
            assert forall|k: int| 0 <= k < fa.len() implies same_but_owner(
                #[trigger] fa[k],
                fb[k],
            ) by {
                if k > 0 {
                    assert(fa[k] == sa[k - 1] && fb[k] == sb[k - 1]);
                }
            }
        }
    }
}

/// Whose trades they are changes neither the lots nor the sums.
pub proof fn lemma_owner_irrelevant(a: Desk, b: Desk, lots: Seq<Lot>, recs: Seq<PackedTrade>)
    requires
        a.rules == b.rules,
        a.policy == b.policy,
    ensures
        fold(a, lots, recs).0 == fold(b, lots, recs).0,
        all_same_but_owner(fold(a, lots, recs).1, fold(b, lots, recs).1),
    decreases recs.len(),
{
    if recs.len() > 0 {
        let head = recs.drop_last();
        let r = recs.last();
        lemma_owner_irrelevant(a, b, lots, head);
        let before = fold(a, lots, head).0;
        if r.signed_qty <= 0 {
            lemma_drain_owner(a, b, before, -(r.signed_qty as int), r);
        }
    }
}

proof fn lemma_tallies_owner(fs: Seq<Fragment>, gs: Seq<Fragment>, count: Option<(i32, i32)>)
    requires
        all_same_but_owner(fs, gs),
    ensures
        all_same_but_owner(counted(fs, count), counted(gs, count)),
    decreases fs.len(),
{
    reveal(Seq::filter);
    if fs.len() > 0 {
        assert(same_but_owner(fs[fs.len() - 1], gs[gs.len() - 1]));
        assert(all_same_but_owner(fs.drop_last(), gs.drop_last())) by {
            assert forall|i: int| 0 <= i < fs.len() - 1 implies same_but_owner(
                #[trigger] fs.drop_last()[i],
                gs.drop_last()[i],
            ) by {
                assert(same_but_owner(fs[i], gs[i]));
            }
        }
        lemma_tallies_owner(fs.drop_last(), gs.drop_last(), count);
    }
}

proof fn lemma_tally_owner(fs: Seq<Fragment>, gs: Seq<Fragment>, b: int)
    requires
        all_same_but_owner(fs, gs),
    ensures
        tally(fs, b) == tally(gs, b),
    decreases fs.len(),
{
    if fs.len() > 0 {
        assert(same_but_owner(fs[fs.len() - 1], gs[gs.len() - 1]));
        assert(all_same_but_owner(fs.drop_last(), gs.drop_last())) by {
            assert forall|i: int| 0 <= i < fs.len() - 1 implies same_but_owner(
                #[trigger] fs.drop_last()[i],
                gs.drop_last()[i],
            ) by {
                assert(same_but_owner(fs[i], gs[i]));
            }
        }
        lemma_tally_owner(fs.drop_last(), gs.drop_last(), b);
    }
}

/// The fold without a sink agrees with the fold with one: same open lots, same
/// sums.
pub proof fn lemma_nosink_agrees(
    client: u64,
    symbol: u32,
    lots: Seq<Lot>,
    recs: Seq<PackedTrade>,
    count: Option<(i32, i32)>,
    rules: BucketRules,
    policy: MatchPolicy,
)
    ensures
        ({
            let desk = Desk { client, symbol, rules, policy };
            &&& fold(anon(rules, policy), lots, recs).0 == fold(desk, lots, recs).0
            &&& tallies(fold_frags(anon(rules, policy), lots, recs, count)) == tallies(
                fold_frags(desk, lots, recs, count),
            )
        }),
{
    let desk = Desk { client, symbol, rules, policy };
    let anyone = anon(rules, policy);
    lemma_owner_irrelevant(anyone, desk, lots, recs);
    lemma_tallies_owner(fold(anyone, lots, recs).1, fold(desk, lots, recs).1, count);
    let fa = fold_frags(anyone, lots, recs, count);
    let fb = fold_frags(desk, lots, recs, count);
    assert forall|b: int| 0 <= b < MAX_BUCKETS implies (#[trigger] tally(fa, b)) == tally(
        fb,
        b,
    ) by {
        lemma_tally_owner(fa, fb, b);
    }
    assert(tallies(fa) =~= tallies(fb));
}

/// A fold can be cut at any record: folding the first part, and then the second from
/// the lots that the first left, leaves the same lots, counts the same fragments in the
/// same order, and adds up to the same in every bucket.
pub proof fn lemma_fold_splits(
    desk: Desk,
    lots: Seq<Lot>,
    a: Seq<PackedTrade>,
    b: Seq<PackedTrade>,
    count: Option<(i32, i32)>,
    bucket: int,
)
    ensures
        ({
            let carry = fold(desk, lots, a).0;
            let first = fold_frags(desk, lots, a, count);
            let second = fold_frags(desk, carry, b, count);
            let whole = fold_frags(desk, lots, a + b, count);
            &&& fold(desk, lots, a + b).0 == fold(desk, carry, b).0
            &&& whole == first + second
            &&& tally(whole, bucket) == tally(first, bucket).plus(tally(second, bucket))
        }),
{
    let carry = fold(desk, lots, a).0;
    crate::matching::lemma_fold_append(desk, lots, a, b);
    crate::matching::lemma_counted_append(fold(desk, lots, a).1, fold(desk, carry, b).1, count);
    crate::matching::lemma_tally_append(
        fold_frags(desk, lots, a, count),
        fold_frags(desk, carry, b, count),
        bucket,
    );
}

/// A window decides what is counted and nothing else: out of the fragments of the same
/// fold without one, in the same order, those whose sell lies within it.
pub proof fn lemma_window_only_counts(
    desk: Desk,
    lots: Seq<Lot>,
    recs: Seq<PackedTrade>,
    lo: i32,
    hi: i32,
)
    ensures
        fold_frags(desk, lots, recs, None) == fold(desk, lots, recs).1,
        fold_frags(desk, lots, recs, Some((lo, hi))) == fold_frags(desk, lots, recs, None).filter(
            |f: Fragment| lo <= f.sell_day <= hi,
        ),
{
    let fs = fold(desk, lots, recs).1;
    lemma_all_counted(fs);
    assert((|f: Fragment| crate::matching::in_window(Some((lo, hi)), f.sell_day)) =~= (
    |f: Fragment| lo <= f.sell_day <= hi));
}

proof fn lemma_all_counted(fs: Seq<Fragment>)
    ensures
        counted(fs, None) == fs,
    decreases fs.len(),
{
    reveal(Seq::filter);
    if fs.len() > 0 {
        lemma_all_counted(fs.drop_last());
        assert(fs.drop_last().push(fs.last()) =~= fs);
    } else {
        assert(fs =~= Seq::empty());
    }
}

/// What the lots cost.
pub open spec fn lots_cost(lots: Seq<Lot>) -> int
    decreases lots.len(),
{
    if lots.len() == 0 {
        0
    } else {
        lots_cost(lots.drop_last()) + lots.last().qty * lots.last().price_ticks
    }
}

/// What the records bought cost.
pub open spec fn bought_cost(recs: Seq<PackedTrade>) -> int
    decreases recs.len(),
{
    if recs.len() == 0 {
        0
    } else {
        bought_cost(recs.drop_last()) + (if recs.last().signed_qty > 0 {
            recs.last().signed_qty * recs.last().price_ticks
        } else {
            0
        })
    }
}

/// What the shares matched were sold for.
pub open spec fn proceeds(fs: Seq<Fragment>) -> int
    decreases fs.len(),
{
    if fs.len() == 0 {
        0
    } else {
        proceeds(fs.drop_last()) + fs.last().matched_qty * fs.last().sell_ticks
    }
}

proof fn lemma_proceeds_append(a: Seq<Fragment>, b: Seq<Fragment>)
    ensures
        proceeds(a + b) == proceeds(a) + proceeds(b),
    decreases b.len(),
{
    if b.len() == 0 {
        assert(a + b =~= a);
    } else {
        lemma_proceeds_append(a, b.drop_last());
        assert((a + b).drop_last() =~= a + b.drop_last());
    }
}

proof fn lemma_cost_remove(lots: Seq<Lot>, i: int)
    requires
        0 <= i < lots.len(),
    ensures
        lots_cost(lots.remove(i)) == lots_cost(lots) - lots[i].qty * lots[i].price_ticks,
    decreases lots.len(),
{
    if i == lots.len() - 1 {
        assert(lots.remove(i) =~= lots.drop_last());
    } else {
        lemma_cost_remove(lots.drop_last(), i);
        assert(lots.remove(i).drop_last() =~= lots.drop_last().remove(i));
        assert(lots.remove(i).last() == lots.last());
    }
}

proof fn lemma_cost_update(lots: Seq<Lot>, i: int, lot: Lot)
    requires
        0 <= i < lots.len(),
    ensures
        lots_cost(lots.update(i, lot)) == lots_cost(lots) - lots[i].qty * lots[i].price_ticks
            + lot.qty * lot.price_ticks,
    decreases lots.len(),
{
    if i == lots.len() - 1 {
        assert(lots.update(i, lot).drop_last() =~= lots.drop_last());
    } else {
        lemma_cost_update(lots.drop_last(), i, lot);
        assert(lots.update(i, lot).drop_last() =~= lots.drop_last().update(i, lot));
    }
}

proof fn lemma_one_realized(f: Fragment)
    ensures
        realized_sum(seq![f]) == f.matched_qty * f.sell_ticks - f.matched_qty * f.buy_ticks,
        proceeds(seq![f]) == f.matched_qty * f.sell_ticks,
{
    reveal_with_fuel(realized_sum, 2);
    reveal_with_fuel(proceeds, 2);
    assert(seq![f].drop_last() =~= Seq::empty());
    let q = f.matched_qty as int;
    let a = f.sell_ticks as int;
    let b = f.buy_ticks as int;
    assert(q * (a - b) == q * a - q * b) by (nonlinear_arith);
}

proof fn lemma_drain_cost(desk: Desk, lots: Seq<Lot>, remaining: int, sell: PackedTrade)
    requires
        lots_wf(lots),
    ensures
        ({
            let d = drain(desk, lots, remaining, sell);
            realized_sum(d.1) == proceeds(d.1) - (lots_cost(lots) - lots_cost(d.0))
        }),
    decreases lots.len(),
{
    if remaining > 0 && lots.len() > 0 {
        lemma_pick_in_range(lots, desk.policy);
        let i = pick(lots, desk.policy);
        let lot = lots[i];
        assert(lot.qty >= 0);
        if lot.qty <= remaining {
            let rest = lots.remove(i);
            assert(lots_wf(rest)) by {
                assert forall|k: int| 0 <= k < rest.len() implies (#[trigger] rest[k]).qty >= 0 by {
                    assert(rest[k] == lots[if k < i {
                        k
                    } else {
                        k + 1
                    }]);
                }
            }
            let f = fragment(desk, lot, sell, lot.qty as int);
            let sub = drain(desk, rest, remaining - lot.qty, sell);
            lemma_drain_cost(desk, rest, remaining - lot.qty, sell);
            lemma_cost_remove(lots, i);
            lemma_one_realized(f);
            lemma_realized_append(seq![f], sub.1);
            lemma_proceeds_append(seq![f], sub.1);
        } else {
            let f = fragment(desk, lot, sell, remaining);
            let left = Lot { qty: (lot.qty - remaining) as i64, ..lot };
            lemma_cost_update(lots, i, left);
            lemma_one_realized(f);
            let q = lot.qty as int;
            let x = lot.price_ticks as int;
            assert((q - remaining) * x == q * x - remaining * x) by (nonlinear_arith);
        }
    }
}

/// Realized profit is what the shares matched were sold for, less the cost of what left
/// the open lots: of the lots there were and those bought since, less those still open.
pub proof fn lemma_realized_is_proceeds_less_cost(
    desk: Desk,
    lots: Seq<Lot>,
    recs: Seq<PackedTrade>,
)
    requires
        lots_wf(lots),
    ensures
        ({
            let d = fold(desk, lots, recs);
            realized_sum(d.1) == proceeds(d.1) - (lots_cost(lots) + bought_cost(recs) - lots_cost(
                d.0,
            ))
        }),
    decreases recs.len(),
{
    if recs.len() > 0 {
        let head = recs.drop_last();
        let r = recs.last();
        lemma_realized_is_proceeds_less_cost(desk, lots, head);
        lemma_fold_lots_wf(desk, lots, head);
        let before = fold(desk, lots, head);
        let last = step(desk, before.0, r);
        lemma_realized_append(before.1, last.1);
        lemma_proceeds_append(before.1, last.1);
        if r.signed_qty > 0 {
            assert(before.0.push(lot_of(r)).drop_last() =~= before.0);
        } else {
            lemma_drain_cost(desk, before.0, -(r.signed_qty as int), r);
        }
    }
}

/// The shares in the first `n` buckets.
pub open spec fn qty_upto(ts: Seq<Tally>, n: int) -> int
    decreases n,
{
    if n <= 0 {
        0
    } else {
        qty_upto(ts, n - 1) + ts[n - 1].qty
    }
}

/// The buckets together hold as many shares as were matched.
pub proof fn lemma_buckets_hold_all_shares(fs: Seq<Fragment>)
    requires
        forall|i: int| 0 <= i < fs.len() ==> (#[trigger] fs[i]).bucket < MAX_BUCKETS,
    ensures
        qty_upto(tallies(fs), MAX_BUCKETS as int) == matched_qty(fs),
    decreases fs.len(),
{
    reveal_with_fuel(qty_upto, 9);
    if fs.len() == 0 {
        assert forall|b: int| 0 <= b < MAX_BUCKETS implies (#[trigger] tallies(fs)[b])
            == Tally::zero() by {}
    } else {
        let head = fs.drop_last();
        let f = fs.last();
        assert(fs[fs.len() - 1].bucket < MAX_BUCKETS);
        assert forall|i: int| 0 <= i < head.len() implies (#[trigger] head[i]).bucket
            < MAX_BUCKETS by {
            assert(head[i] == fs[i]);
        }
        lemma_buckets_hold_all_shares(head);
        assert forall|b: int| 0 <= b < MAX_BUCKETS implies (#[trigger] tallies(fs)[b]).qty
            == tallies(head)[b].qty + (if f.bucket == b {
            f.matched_qty as int
        } else {
            0
        }) by {}
    }
}

} // verus!
