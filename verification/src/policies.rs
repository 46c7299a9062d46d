//! Laws of the matching policies: which of the open shares a sell takes.

use vstd::prelude::*;
use crate::fifo::{lots_wf, Fragment, FragmentSink, Lot, MatchPolicy};
use crate::matching::{drain, fold, fragment, lemma_pick_in_range, pick, step, took_all, Desk};
use crate::packed::PackedTrade;
use crate::shares::{
    alike, buy_side, lemma_sides_append, lemma_sides_one, lot_share, lot_shares, Share,
};

verus! {

/// The shares of one price, in their order.
pub open spec fn priced(s: Seq<Share>, ticks: int) -> Seq<Share> {
    s.filter(|x: Share| x.ticks == ticks)
}

/// How many shares a sell of `asked` takes where `there` are open.
pub open spec fn taken(asked: int, there: int) -> int {
    if asked <= 0 {
        0
    } else if asked <= there {
        asked
    } else {
        there
    }
}

// ---------------------------------------------------------------------------
// Joining and splitting
// ---------------------------------------------------------------------------

proof fn lemma_lot_shares_append(a: Seq<Lot>, b: Seq<Lot>)
    ensures
        lot_shares(a + b) == lot_shares(a) + lot_shares(b),
    decreases b.len(),
{
    if b.len() == 0 {
        assert(a + b =~= a);
        assert(lot_shares(a) + lot_shares(b) =~= lot_shares(a));
    } else {
        lemma_lot_shares_append(a, b.drop_last());
        assert((a + b).drop_last() =~= a + b.drop_last());
        assert((a + b).last() == b.last());
        let x = alike(b.last().qty as int, lot_share(b.last()));
        assert(lot_shares(a) + lot_shares(b.drop_last()) + x =~= lot_shares(a) + (lot_shares(
            b.drop_last(),
        ) + x));
    }
}

proof fn lemma_lot_shares_one(lot: Lot)
    ensures
        lot_shares(seq![lot]) == alike(lot.qty as int, lot_share(lot)),
{
    let s = seq![lot];
    assert(s.drop_last() =~= Seq::empty());
    reveal_with_fuel(lot_shares, 2);
    assert(lot_shares(s) =~= alike(lot.qty as int, lot_share(lot)));
}

/// The shares of the lots before lot `i`, of lot `i`, and of those after it.
proof fn lemma_lot_shares_split(lots: Seq<Lot>, i: int)
    requires
        0 <= i < lots.len(),
    ensures
        lot_shares(lots) == lot_shares(lots.take(i)) + alike(
            lots[i].qty as int,
            lot_share(lots[i]),
        ) + lot_shares(lots.skip(i + 1)),
        lot_shares(lots.remove(i)) == lot_shares(lots.take(i)) + lot_shares(lots.skip(i + 1)),
{
    let a = lots.take(i);
    let b = seq![lots[i]];
    let c = lots.skip(i + 1);
    assert(lots =~= a + b + c);
    assert(lots.remove(i) =~= a + c);
    lemma_lot_shares_append(a + b, c);
    lemma_lot_shares_append(a, b);
    lemma_lot_shares_append(a, c);
    lemma_lot_shares_one(lots[i]);
}

proof fn lemma_wf_remove(lots: Seq<Lot>, i: int)
    requires
        lots_wf(lots),
        0 <= i < lots.len(),
    ensures
        lots_wf(lots.remove(i)),
{
    let rest = lots.remove(i);
    assert forall|k: int| 0 <= k < rest.len() implies (#[trigger] rest[k]).qty >= 0 by {
        assert(rest[k] == lots[if k < i {
            k
        } else {
            k + 1
        }]);
    }
}

proof fn lemma_first_fragment(desk: Desk, lot: Lot, sell: PackedTrade, qty: int, more: Seq<Fragment>)
    requires
        0 <= qty <= lot.qty,
    ensures
        buy_side(seq![fragment(desk, lot, sell, qty)] + more) == alike(qty, lot_share(lot))
            + buy_side(more),
{
    let f = fragment(desk, lot, sell, qty);
    lemma_sides_append(seq![f], more);
    lemma_sides_one(f);
}

proof fn lemma_only_fragment(desk: Desk, lot: Lot, sell: PackedTrade, qty: int)
    requires
        0 <= qty <= lot.qty,
    ensures
        buy_side(seq![fragment(desk, lot, sell, qty)]) == alike(qty, lot_share(lot)),
{
    lemma_sides_one(fragment(desk, lot, sell, qty));
}

// ---------------------------------------------------------------------------
// First in, first out
// ---------------------------------------------------------------------------

proof fn lemma_drain_oldest(desk: Desk, lots: Seq<Lot>, remaining: int, sell: PackedTrade)
    requires
        desk.policy == MatchPolicy::Fifo,
        lots_wf(lots),
    ensures
        ({
            let d = drain(desk, lots, remaining, sell);
            let open = lot_shares(lots);
            let n = taken(remaining, open.len() as int);
            &&& buy_side(d.1) == open.take(n)
            &&& lot_shares(d.0) == open.skip(n)
        }),
    decreases lots.len(),
{
    let d = drain(desk, lots, remaining, sell);
    let open = lot_shares(lots);
    let n = taken(remaining, open.len() as int);
    if remaining > 0 && lots.len() > 0 {
        let lot = lots[0];
        assert(lot.qty >= 0);
        let all = alike(lot.qty as int, lot_share(lot));
        let later = lot_shares(lots.skip(1));
        lemma_lot_shares_split(lots, 0);
        assert(lot_shares(lots.take(0)) =~= Seq::empty());
        assert(open =~= all + later);
        assert(lot_shares(lots.remove(0)) =~= later);
        if lot.qty <= remaining {
            lemma_wf_remove(lots, 0);
            lemma_drain_oldest(desk, lots.remove(0), remaining - lot.qty, sell);
            let sub = drain(desk, lots.remove(0), remaining - lot.qty, sell);
            lemma_first_fragment(desk, lot, sell, lot.qty as int, sub.1);
            let m = taken(remaining - lot.qty, later.len() as int);
            assert(n == lot.qty + m);
            assert(buy_side(d.1) =~= open.take(n));
            assert(lot_shares(d.0) =~= open.skip(n));
        } else {
            lemma_only_fragment(desk, lot, sell, remaining);
            lemma_lot_shares_split(d.0, 0);
            assert(lot_shares(d.0.take(0)) =~= Seq::empty());
            assert(d.0.skip(1) =~= lots.skip(1));
            assert(n == remaining);
            assert(buy_side(d.1) =~= open.take(n));
            assert(lot_shares(d.0) =~= open.skip(n));
        }
    } else {
        if lots.len() == 0 {
            assert(open.len() == 0);
        }
        assert(n == 0);
        assert(buy_side(d.1) =~= open.take(n));
        assert(lot_shares(d.0) =~= open.skip(n));
    }
}

/// First in, first out: of the shares open before it, a sell takes the oldest,
/// in the order in which they were bought, and leaves the others as they were.
pub proof fn lemma_sell_takes_oldest(desk: Desk, lots: Seq<Lot>, sell: PackedTrade)
    requires
        desk.policy == MatchPolicy::Fifo,
        lots_wf(lots),
        sell.signed_qty <= 0,
    ensures
        ({
            let left = lot_shares(step(desk, lots, sell).0);
            let gone = buy_side(step(desk, lots, sell).1);
            let open = lot_shares(lots);
            &&& gone.len() == (if -sell.signed_qty <= open.len() {
                -sell.signed_qty
            } else {
                open.len() as int
            })
            &&& left.len() == open.len() - gone.len()
            &&& forall|k: int| 0 <= k < gone.len() ==> #[trigger] gone[k] == open[k]
            &&& forall|k: int| 0 <= k < left.len() ==> #[trigger] left[k] == open[gone.len() + k]
        }),
{
    lemma_drain_oldest(desk, lots, -(sell.signed_qty as int), sell);
}

// ---------------------------------------------------------------------------
// Last in, first out
// ---------------------------------------------------------------------------

proof fn lemma_drain_newest(desk: Desk, lots: Seq<Lot>, remaining: int, sell: PackedTrade)
    requires
        desk.policy == MatchPolicy::Lifo,
        lots_wf(lots),
    ensures
        ({
            let d = drain(desk, lots, remaining, sell);
            let open = lot_shares(lots);
            let n = taken(remaining, open.len() as int);
            &&& buy_side(d.1).len() == n
            &&& forall|k: int|
                0 <= k < n ==> #[trigger] buy_side(d.1)[k] == open[open.len() - 1 - k]
            &&& lot_shares(d.0) == open.take(open.len() - n)
            &&& d.0.len() <= lots.len()
            &&& forall|i: int| 0 <= i < d.0.len() - 1 ==> #[trigger] d.0[i] == lots[i]
            &&& d.0.len() > 0 ==> {
                let k = d.0.len() - 1;
                &&& d.0[k].price_ticks == lots[k].price_ticks
                &&& d.0[k].day == lots[k].day
                &&& 0 <= d.0[k].qty <= lots[k].qty
            }
        }),
    decreases lots.len(),
{
    let d = drain(desk, lots, remaining, sell);
    let open = lot_shares(lots);
    let n = taken(remaining, open.len() as int);
    let out = buy_side(d.1);
    if remaining > 0 && lots.len() > 0 {
        let last = lots.len() - 1;
        let lot = lots[last];
        assert(lot.qty >= 0);
        let all = alike(lot.qty as int, lot_share(lot));
        let earlier = lot_shares(lots.drop_last());
        assert(open == earlier + all);
        if lot.qty <= remaining {
            assert(lots.remove(last) =~= lots.drop_last());
            lemma_wf_remove(lots, last);
            lemma_drain_newest(desk, lots.drop_last(), remaining - lot.qty, sell);
            let sub = drain(desk, lots.drop_last(), remaining - lot.qty, sell);
            lemma_first_fragment(desk, lot, sell, lot.qty as int, sub.1);
            let m = taken(remaining - lot.qty, earlier.len() as int);
            assert(n == lot.qty + m);
            assert forall|k: int| 0 <= k < n implies #[trigger] out[k] == open[open.len() - 1
                - k] by {
                if k >= lot.qty {
                    assert(out[k] == buy_side(sub.1)[k - lot.qty]);
                }
            }
            assert(lot_shares(d.0) =~= open.take(open.len() - n));
        } else {
            lemma_only_fragment(desk, lot, sell, remaining);
            assert(d.0.drop_last() =~= lots.drop_last());
            assert(n == remaining);
            assert(lot_shares(d.0) =~= open.take(open.len() - n));
        }
    } else {
        if lots.len() == 0 {
            assert(open.len() == 0);
        }
        assert(n == 0);
        assert(lot_shares(d.0) =~= open.take(open.len() - n));
        if lots.len() > 0 {
            assert(lots[lots.len() - 1].qty >= 0);
        }
    }
}

/// Last in, first out: the k-th share that a sell takes is the k-th from the end
/// of the shares open before it, and the others are left as they were.
pub proof fn lemma_sell_takes_newest(desk: Desk, lots: Seq<Lot>, sell: PackedTrade)
    requires
        desk.policy == MatchPolicy::Lifo,
        lots_wf(lots),
        sell.signed_qty <= 0,
    ensures
        ({
            let left = lot_shares(step(desk, lots, sell).0);
            let gone = buy_side(step(desk, lots, sell).1);
            let open = lot_shares(lots);
            &&& gone.len() == (if -sell.signed_qty <= open.len() {
                -sell.signed_qty
            } else {
                open.len() as int
            })
            &&& left.len() == open.len() - gone.len()
            &&& forall|k: int|
                0 <= k < gone.len() ==> #[trigger] gone[k] == open[open.len() - 1 - k]
            &&& forall|k: int| 0 <= k < left.len() ==> #[trigger] left[k] == open[k]
        }),
{
    lemma_drain_newest(desk, lots, -(sell.signed_qty as int), sell);
}

/// Last in, first out: the lots that a sell leaves open are the first of the lots
/// before it, and only the last of them may have lost shares.
pub proof fn lemma_newest_first_leaves_prefix(desk: Desk, lots: Seq<Lot>, sell: PackedTrade)
    requires
        desk.policy == MatchPolicy::Lifo,
        lots_wf(lots),
        sell.signed_qty <= 0,
    ensures
        ({
            let left = step(desk, lots, sell).0;
            let k = left.len() - 1;
            &&& left.len() <= lots.len()
            &&& forall|i: int| 0 <= i < k ==> #[trigger] left[i] == lots[i]
            &&& left.len() > 0 ==> {
                &&& left[k].price_ticks == lots[k].price_ticks
                &&& left[k].day == lots[k].day
                &&& 0 <= left[k].qty <= lots[k].qty
            }
        }),
{
    lemma_drain_newest(desk, lots, -(sell.signed_qty as int), sell);
}

// ---------------------------------------------------------------------------
// Dearest first
// ---------------------------------------------------------------------------

proof fn lemma_priced_append(a: Seq<Share>, b: Seq<Share>, p: int)
    ensures
        priced(a + b, p) == priced(a, p) + priced(b, p),
{
    Seq::filter_distributes_over_add(a, b, |x: Share| x.ticks == p);
}

proof fn lemma_priced_all(s: Seq<Share>, p: int)
    requires
        forall|k: int| 0 <= k < s.len() ==> (#[trigger] s[k]).ticks == p,
    ensures
        priced(s, p) == s,
    decreases s.len(),
{
    reveal(Seq::filter);
    if s.len() > 0 {
        assert(s.last().ticks == p);
        lemma_priced_all(s.drop_last(), p);
        assert(s.drop_last().push(s.last()) =~= s);
    }
}

proof fn lemma_priced_none(s: Seq<Share>, p: int)
    requires
        forall|k: int| 0 <= k < s.len() ==> (#[trigger] s[k]).ticks != p,
    ensures
        priced(s, p) == Seq::<Share>::empty(),
    decreases s.len(),
{
    reveal(Seq::filter);
    if s.len() > 0 {
        assert(s.last().ticks != p);
        lemma_priced_none(s.drop_last(), p);
    }
}

/// No share is dearer than the dearest lot.
proof fn lemma_lot_shares_upto(lots: Seq<Lot>, top: int)
    requires
        forall|j: int| 0 <= j < lots.len() ==> (#[trigger] lots[j]).price_ticks <= top,
    ensures
        forall|k: int| 0 <= k < lot_shares(lots).len() ==> (#[trigger] lot_shares(lots)[k]).ticks
            <= top,
    decreases lots.len(),
{
    if lots.len() > 0 {
        let head = lots.drop_last();
        assert forall|j: int| 0 <= j < head.len() implies (#[trigger] head[j]).price_ticks
            <= top by {
            assert(head[j] == lots[j]);
        }
        lemma_lot_shares_upto(head, top);
        assert(lots[lots.len() - 1].price_ticks <= top);
        let n = lot_shares(head).len();
        assert forall|k: int| 0 <= k < lot_shares(lots).len() implies (#[trigger] lot_shares(
            lots,
        )[k]).ticks <= top by {
            if k < n {
                assert(lot_shares(lots)[k] == lot_shares(head)[k]);
            }
        }
    }
}

#[verifier::spinoff_prover]
proof fn lemma_drain_dearest(
    desk: Desk,
    lots: Seq<Lot>,
    remaining: int,
    sell: PackedTrade,
    top: int,
    p: int,
)
    requires
        desk.policy == MatchPolicy::Hifo,
        lots_wf(lots),
        forall|j: int| 0 <= j < lots.len() ==> (#[trigger] lots[j]).price_ticks <= top,
    ensures
        ({
            let d = drain(desk, lots, remaining, sell);
            let open = lot_shares(lots);
            let out = buy_side(d.1);
            let left = lot_shares(d.0);
            &&& out.len() == taken(remaining, open.len() as int)
            &&& left.len() == open.len() - out.len()
            &&& priced(open, p) == priced(out, p) + priced(left, p)
            &&& forall|k: int| 0 <= k < out.len() ==> (#[trigger] out[k]).ticks <= top
            &&& forall|k: int| 0 <= k < left.len() ==> (#[trigger] left[k]).ticks <= top
            &&& forall|j: int, k: int|
                0 <= j <= k < out.len() ==> (#[trigger] out[k]).ticks <= (#[trigger] out[j]).ticks
            &&& forall|j: int, k: int|
                0 <= j < out.len() && 0 <= k < left.len() ==> (#[trigger] left[k]).ticks <= (
                #[trigger] out[j]).ticks
        }),
    decreases lots.len(),
{
    let d = drain(desk, lots, remaining, sell);
    let open = lot_shares(lots);
    let out = buy_side(d.1);
    let left = lot_shares(d.0);
    lemma_lot_shares_upto(lots, top);
    if remaining > 0 && lots.len() > 0 {
        lemma_pick_in_range(lots, desk.policy);
        let i = pick(lots, desk.policy);
        let lot = lots[i];
        assert(lot.qty >= 0);
        assert(lot.price_ticks <= top);
        let price = lot.price_ticks as int;
        let all = alike(lot.qty as int, lot_share(lot));
        let a = lot_shares(lots.take(i));
        let c = lot_shares(lots.skip(i + 1));
        lemma_lot_shares_split(lots, i);
        // What comes before the lot is cheaper, so that nothing before it has its price.
        assert(priced(a, price) == Seq::<Share>::empty()) by {
            let before = lots.take(i);
            assert forall|j: int| 0 <= j < before.len() implies (#[trigger] before[j]).price_ticks
                <= price - 1 by {
                assert(before[j] == lots[j]);
                assert(lots[j].price_ticks < lots[i].price_ticks);
            }
            lemma_lot_shares_upto(before, price - 1);
            lemma_priced_none(a, price);
        }
        lemma_priced_append(a + all, c, p);
        lemma_priced_append(a, all, p);
        if lot.qty <= remaining {
            let rest = lots.remove(i);
            let sub = drain(desk, rest, remaining - lot.qty, sell);
            lemma_wf_remove(lots, i);
            assert forall|j: int| 0 <= j < rest.len() implies (#[trigger] rest[j]).price_ticks
                <= price by {
                let at = if j < i {
                    j
                } else {
                    j + 1
                };
                assert(rest[j] == lots[at]);
                assert(lots[at].price_ticks <= lots[i].price_ticks);
            }
            lemma_drain_dearest(desk, rest, remaining - lot.qty, sell, price, p);
            lemma_first_fragment(desk, lot, sell, lot.qty as int, sub.1);
            let more = buy_side(sub.1);
            assert(out == all + more);
            assert(left == lot_shares(sub.0));
            lemma_priced_append(a, c, p);
            lemma_priced_append(all, more, p);
            if p == price {
                assert(priced(a, p) + priced(all, p) + priced(c, p) =~= priced(all, p) + (priced(
                    a,
                    p,
                ) + priced(c, p)));
            } else {
                lemma_priced_none(all, p);
                assert(priced(a, p) + priced(all, p) + priced(c, p) =~= priced(all, p) + (priced(
                    a,
                    p,
                ) + priced(c, p)));
            }
            assert(priced(all, p) + priced(more, p) + priced(left, p) =~= priced(all, p) + (priced(
                more,
                p,
            ) + priced(left, p)));
            assert(priced(open, p) == priced(out, p) + priced(left, p));
            assert forall|k: int| 0 <= k < out.len() implies (#[trigger] out[k]).ticks <= price by {
                if k >= lot.qty {
                    assert(out[k] == more[k - lot.qty]);
                }
            }
            assert forall|j: int, k: int| 0 <= j <= k < out.len() implies (#[trigger] out[k]).ticks
                <= (#[trigger] out[j]).ticks by {
                if j >= lot.qty {
                    assert(out[k] == more[k - lot.qty]);
                    assert(out[j] == more[j - lot.qty]);
                }
            }
            assert forall|j: int, k: int|
                0 <= j < out.len() && 0 <= k < left.len() implies (#[trigger] left[k]).ticks <= (
            #[trigger] out[j]).ticks by {
                if j >= lot.qty {
                    assert(out[j] == more[j - lot.qty]);
                }
            }
        } else {
            lemma_only_fragment(desk, lot, sell, remaining);
            let kept = Lot { qty: (lot.qty - remaining) as i64, ..lot };
            assert(d.0 == lots.update(i, kept));
            lemma_lot_shares_split(d.0, i);
            assert(d.0.take(i) =~= lots.take(i));
            assert(d.0.skip(i + 1) =~= lots.skip(i + 1));
            let sold = alike(remaining, lot_share(lot));
            let stay = alike(lot.qty - remaining, lot_share(lot));
            assert(all =~= sold + stay);
            assert(out == sold);
            assert(left == a + stay + c);
            lemma_priced_append(sold, stay, p);
            lemma_priced_append(a + stay, c, p);
            lemma_priced_append(a, stay, p);
            if p == price {
                assert(priced(a, p) + (priced(sold, p) + priced(stay, p)) + priced(c, p)
                    =~= priced(sold, p) + (priced(a, p) + priced(stay, p) + priced(c, p)));
            } else {
                lemma_priced_none(sold, p);
                assert(priced(a, p) + (priced(sold, p) + priced(stay, p)) + priced(c, p)
                    =~= priced(sold, p) + (priced(a, p) + priced(stay, p) + priced(c, p)));
            }
            assert(priced(open, p) == priced(out, p) + priced(left, p));
            assert forall|j: int| 0 <= j < d.0.len() implies (#[trigger] d.0[j]).price_ticks
                <= price by {
                assert(lots[j].price_ticks <= lots[i].price_ticks);
            }
            lemma_lot_shares_upto(d.0, price);
        }
    } else {
        if lots.len() == 0 {
            assert(open.len() == 0);
        }
        assert(out =~= Seq::empty());
        lemma_priced_none(out, p);
        assert(Seq::<Share>::empty() + priced(left, p) =~= priced(left, p));
    }
}

/// Dearest first: the shares that a sell takes never get dearer, and none that it
/// leaves is dearer than one that it takes.
pub proof fn lemma_sell_takes_dearest(desk: Desk, lots: Seq<Lot>, sell: PackedTrade)
    requires
        desk.policy == MatchPolicy::Hifo,
        lots_wf(lots),
        sell.signed_qty <= 0,
    ensures
        ({
            let left = lot_shares(step(desk, lots, sell).0);
            let gone = buy_side(step(desk, lots, sell).1);
            let open = lot_shares(lots);
            &&& gone.len() == (if -sell.signed_qty <= open.len() {
                -sell.signed_qty
            } else {
                open.len() as int
            })
            &&& left.len() == open.len() - gone.len()
            &&& forall|j: int, k: int|
                0 <= j <= k < gone.len() ==> (#[trigger] gone[k]).ticks <= (
                #[trigger] gone[j]).ticks
            &&& forall|j: int, k: int|
                0 <= j < gone.len() && 0 <= k < left.len() ==> (#[trigger] left[k]).ticks <= (
                #[trigger] gone[j]).ticks
        }),
{
    lemma_drain_dearest(desk, lots, -(sell.signed_qty as int), sell, i64::MAX as int, 0);
}

/// Dearest first is first in, first out among shares of one price: those of them
/// that a sell takes, and then those that it leaves, are those that were open, in
/// the order in which they were bought.
pub proof fn lemma_equal_prices_oldest_first(desk: Desk, lots: Seq<Lot>, sell: PackedTrade, p: int)
    requires
        desk.policy == MatchPolicy::Hifo,
        lots_wf(lots),
        sell.signed_qty <= 0,
    ensures
        lot_shares(lots).filter(|x: Share| x.ticks == p) == buy_side(
            step(desk, lots, sell).1,
        ).filter(|x: Share| x.ticks == p) + lot_shares(step(desk, lots, sell).0).filter(
            |x: Share| x.ticks == p,
        ),
{
    lemma_drain_dearest(desk, lots, -(sell.signed_qty as int), sell, i64::MAX as int, p);
    let d = drain(desk, lots, -(sell.signed_qty as int), sell);
    assert(priced(lot_shares(lots), p) == priced(buy_side(d.1), p) + priced(lot_shares(d.0), p));
}

// ---------------------------------------------------------------------------
// Whatever the policy
// ---------------------------------------------------------------------------

/// A buy matches nothing and opens its shares behind those that are open.
pub proof fn lemma_buy_opens_shares(desk: Desk, lots: Seq<Lot>, buy: PackedTrade)
    requires
        buy.signed_qty > 0,
    ensures
        step(desk, lots, buy).1.len() == 0,
        step(desk, lots, buy).0.drop_last() == lots,
        step(desk, lots, buy).0.last().qty == buy.signed_qty,
        step(desk, lots, buy).0.last().price_ticks == buy.price_ticks,
        step(desk, lots, buy).0.last().day == buy.day,
{
    assert(step(desk, lots, buy).0.drop_last() =~= lots);
}

proof fn lemma_drain_owned(desk: Desk, lots: Seq<Lot>, remaining: int, sell: PackedTrade, k: int)
    requires
        lots_wf(lots),
        0 <= k < drain(desk, lots, remaining, sell).1.len(),
    ensures
        ({
            let f = drain(desk, lots, remaining, sell).1[k];
            &&& f.client == desk.client
            &&& f.symbol == desk.symbol
            &&& f.sell_day == sell.day
            &&& f.sell_ticks == sell.price_ticks
            &&& 0 <= f.matched_qty <= remaining
            &&& exists|i: int|
                0 <= i < lots.len() && f.buy_day == (#[trigger] lots[i]).day && f.buy_ticks
                    == lots[i].price_ticks && f.matched_qty <= lots[i].qty
        }),
    decreases lots.len(),
{
    lemma_pick_in_range(lots, desk.policy);
    let i = pick(lots, desk.policy);
    let lot = lots[i];
    assert(lot.qty >= 0);
    let d = drain(desk, lots, remaining, sell);
    if lot.qty <= remaining && k > 0 {
        let rest = lots.remove(i);
        let sub = drain(desk, rest, remaining - lot.qty, sell);
        assert(d.1[k] == sub.1[k - 1]);
        lemma_wf_remove(lots, i);
        lemma_drain_owned(desk, rest, remaining - lot.qty, sell, k - 1);
        let f = sub.1[k - 1];
        let j = choose|j: int|
            0 <= j < rest.len() && f.buy_day == (#[trigger] rest[j]).day && f.buy_ticks
                == rest[j].price_ticks && f.matched_qty <= rest[j].qty;
        assert(rest[j] == lots[if j < i {
            j
        } else {
            j + 1
        }]);
    }
}

/// Whatever the policy, every fragment of a sell carries the client and symbol of
/// the fold, the day and price of the sell, and the day and price of a lot that
/// was open with no fewer shares than the fragment matches.
pub proof fn lemma_fragment_joins_lot_and_sell(
    desk: Desk,
    lots: Seq<Lot>,
    sell: PackedTrade,
    k: int,
)
    requires
        lots_wf(lots),
        sell.signed_qty <= 0,
        0 <= k < step(desk, lots, sell).1.len(),
    ensures
        ({
            let f = step(desk, lots, sell).1[k];
            &&& f.client == desk.client
            &&& f.symbol == desk.symbol
            &&& f.sell_day == sell.day
            &&& f.sell_ticks == sell.price_ticks
            &&& 0 <= f.matched_qty <= -sell.signed_qty
            &&& exists|i: int|
                0 <= i < lots.len() && f.buy_day == (#[trigger] lots[i]).day && f.buy_ticks
                    == lots[i].price_ticks && f.matched_qty <= lots[i].qty
        }),
{
    lemma_drain_owned(desk, lots, -(sell.signed_qty as int), sell, k);
}

proof fn lemma_drain_owner(desk: Desk, lots: Seq<Lot>, remaining: int, sell: PackedTrade)
    ensures
        forall|k: int|
            0 <= k < drain(desk, lots, remaining, sell).1.len() ==> (#[trigger] drain(
                desk,
                lots,
                remaining,
                sell,
            ).1[k]).client == desk.client && drain(desk, lots, remaining, sell).1[k].symbol
                == desk.symbol,
    decreases lots.len(),
{
    let d = drain(desk, lots, remaining, sell);
    if remaining > 0 && lots.len() > 0 {
        lemma_pick_in_range(lots, desk.policy);
        let i = pick(lots, desk.policy);
        if lots[i].qty <= remaining {
            let sub = drain(desk, lots.remove(i), remaining - lots[i].qty, sell);
            lemma_drain_owner(desk, lots.remove(i), remaining - lots[i].qty, sell);
            assert forall|k: int| 0 <= k < d.1.len() implies (#[trigger] d.1[k]).client
                == desk.client && d.1[k].symbol == desk.symbol by {
                if k > 0 {
                    assert(d.1[k] == sub.1[k - 1]);
                }
            }
        }
    }
}

/// Every fragment of a fold belongs to the client and symbol that it is about.
pub proof fn lemma_fold_owner(desk: Desk, lots: Seq<Lot>, recs: Seq<PackedTrade>)
    ensures
        forall|k: int|
            0 <= k < fold(desk, lots, recs).1.len() ==> (#[trigger] fold(
                desk,
                lots,
                recs,
            ).1[k]).client == desk.client && fold(desk, lots, recs).1[k].symbol == desk.symbol,
    decreases recs.len(),
{
    if recs.len() > 0 {
        let before = fold(desk, lots, recs.drop_last());
        let last = step(desk, before.0, recs.last());
        let all = fold(desk, lots, recs);
        lemma_fold_owner(desk, lots, recs.drop_last());
        if recs.last().signed_qty <= 0 {
            lemma_drain_owner(desk, before.0, -(recs.last().signed_qty as int), recs.last());
        }
        assert forall|k: int| 0 <= k < all.1.len() implies (#[trigger] all.1[k]).client
            == desk.client && all.1[k].symbol == desk.symbol by {
            if k < before.1.len() {
                assert(all.1[k] == before.1[k]);
            } else {
                assert(all.1[k] == last.1[k - before.1.len()]);
            }
        }
    }
}

/// A fold takes its records one after the other, each from the lots that those before
/// it left open, and hands out what each matches in turn.
pub proof fn lemma_fold_takes_each_record(
    desk: Desk,
    lots: Seq<Lot>,
    recs: Seq<PackedTrade>,
    r: PackedTrade,
)
    ensures
        fold(desk, lots, Seq::empty()).0 == lots,
        fold(desk, lots, Seq::empty()).1.len() == 0,
        fold(desk, lots, recs.push(r)).0 == step(desk, fold(desk, lots, recs).0, r).0,
        fold(desk, lots, recs.push(r)).1 == fold(desk, lots, recs).1 + step(
            desk,
            fold(desk, lots, recs).0,
            r,
        ).1,
{
    assert(recs.push(r).drop_last() =~= recs);
}

proof fn lemma_drain_lot_by_lot(desk: Desk, lots: Seq<Lot>, remaining: int, sell: PackedTrade)
    requires
        lots_wf(lots),
    ensures
        ({
            let d = drain(desk, lots, remaining, sell);
            let closed = lots.len() - d.0.len();
            &&& 0 <= closed
            &&& d.1.len() == closed || d.1.len() == closed + 1
            &&& d.1.len() == closed + 1 ==> d.0.len() > 0 && d.1.last().matched_qty > 0
            &&& remaining <= 0 ==> d.1.len() == 0
        }),
    decreases lots.len(),
{
    let d = drain(desk, lots, remaining, sell);
    if remaining > 0 && lots.len() > 0 {
        lemma_pick_in_range(lots, desk.policy);
        let i = pick(lots, desk.policy);
        let lot = lots[i];
        assert(lot.qty >= 0);
        if lot.qty <= remaining {
            lemma_wf_remove(lots, i);
            lemma_drain_lot_by_lot(desk, lots.remove(i), remaining - lot.qty, sell);
            let sub = drain(desk, lots.remove(i), remaining - lot.qty, sell);
            if sub.1.len() > 0 {
                assert(d.1.last() == sub.1.last());
            }
        }
    }
}

/// A sell makes one fragment for each lot that it takes shares of: one for every lot
/// that it closes, and one more where it leaves the last of them open in part.
pub proof fn lemma_one_fragment_per_lot(desk: Desk, lots: Seq<Lot>, sell: PackedTrade)
    requires
        lots_wf(lots),
        sell.signed_qty <= 0,
    ensures
        ({
            let left = step(desk, lots, sell).0;
            let fs = step(desk, lots, sell).1;
            let closed = lots.len() - left.len();
            &&& 0 <= closed
            &&& fs.len() == closed || fs.len() == closed + 1
            &&& fs.len() == closed + 1 ==> left.len() > 0 && fs.last().matched_qty > 0
            &&& sell.signed_qty == 0 ==> fs.len() == 0
        }),
{
    lemma_drain_lot_by_lot(desk, lots, -(sell.signed_qty as int), sell);
}

/// A sink that takes fragments takes every one, in order, and nothing else.
pub proof fn lemma_sink_takes_each<S: FragmentSink>(pre: S, fs: Seq<Fragment>, f: Fragment, post: S)
    ensures
        took_all(pre, Seq::empty(), post) <==> pre == post,
        took_all(pre, fs.push(f), post) <==> exists|mid: S|
            #![trigger S::took(mid, f, post)]
            took_all(pre, fs, mid) && S::took(mid, f, post),
{
    assert(fs.push(f).drop_last() =~= fs);
    assert(fs.push(f).last() == f);
}

} // verus!
