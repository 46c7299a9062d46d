//! Laws of queries: what a query asks for, what it counts, and what it costs.

use vstd::prelude::*;
use crate::baseline::{asked_rows, scan_frags, scan_rows};
use crate::checkpoint::{residual, Checkpoint};
use crate::fifo::{partition_frags, BucketRules, Fragment, MatchPolicy};
use crate::holding::lemma_all_counted;
use crate::matching::{counted, fold, Desk};
use crate::packed::{days_ascend, PackedTrade, TableModel};
use crate::policies::lemma_fold_owner;
use crate::query::{
    deref_ckpt, lemma_wanted, loaded_upto, most_upto, part_frags, query_frags, replayed, rows_upto,
    start_lots, wanted, ClientSel, Query, Span,
};
use crate::rows::{Row, Run};
use crate::shares::{bought, lot_shares};

verus! {

/// Counting a range keeps the fragments that were sold within it, in their order.
proof fn lemma_counted_range(fs: Seq<Fragment>, lo: i32, hi: i32)
    ensures
        counted(fs, Some((lo, hi))) == fs.filter(|f: Fragment| lo <= f.sell_day <= hi),
    decreases fs.len(),
{
    reveal(Seq::filter);
    if fs.len() > 0 {
        lemma_counted_range(fs.drop_last(), lo, hi);
    }
}

proof fn lemma_filter_keeps(fs: Seq<Fragment>, p: spec_fn(Fragment) -> bool)
    ensures
        forall|k: int|
            0 <= k < fs.filter(p).len() ==> p(#[trigger] fs.filter(p)[k]) && fs.contains(
                fs.filter(p)[k],
            ),
    decreases fs.len(),
{
    reveal(Seq::filter);
    if fs.len() > 0 {
        let head = fs.drop_last();
        lemma_filter_keeps(head, p);
        assert forall|k: int| 0 <= k < fs.filter(p).len() implies p(#[trigger] fs.filter(p)[k])
            && fs.contains(fs.filter(p)[k]) by {
            if k < head.filter(p).len() {
                let x = head.filter(p)[k];
                assert(fs.filter(p)[k] == x);
                let i = choose|i: int| 0 <= i < head.len() && head[i] == x;
                assert(fs[i] == x);
            } else {
                assert(fs[fs.len() - 1] == fs.last());
            }
        }
    }
}

// ---------------------------------------------------------------------------
// What a query asks for
// ---------------------------------------------------------------------------

/// A query selects the partitions of the client that it names, of any client where
/// it names none, and among them those in the symbol that it names, in any symbol
/// where it names none. It selects no others, and each once, in order.
pub proof fn lemma_query_selects(m: TableModel, q: Query, p: int)
    requires
        0 <= p < m.n_parts <= usize::MAX,
    ensures
        wanted(m, q, m.n_parts).contains(p as usize) <==> (match q.clients {
            ClientSel::One(c) => m.clients[p] == c,
            ClientSel::All => true,
        }) && (match q.symbol {
            Some(s) => m.symbols[p] == s,
            None => true,
        }),
        forall|i: int|
            0 <= i < wanted(m, q, m.n_parts).len() ==> (#[trigger] wanted(m, q, m.n_parts)[i])
                < m.n_parts,
        forall|i: int, j: int|
            0 <= i < j < wanted(m, q, m.n_parts).len() ==> wanted(m, q, m.n_parts)[i] < wanted(
                m,
                q,
                m.n_parts,
            )[j],
{
    lemma_wanted(m, q, m.n_parts);
    if q.wants(m.clients[p], m.symbols[p]) {
        assert(wanted(m, q, m.n_parts).contains(p as usize));
    }
}

/// A query for a client and a symbol asks for what a query for the client and one
/// for the symbol both ask for.
pub proof fn lemma_queries_narrow(m: TableModel, c: u64, s: u32, span: Span, p: int)
    requires
        0 <= p < m.n_parts <= usize::MAX,
    ensures
        wanted(
            m,
            Query { clients: ClientSel::One(c), symbol: Some(s), span },
            m.n_parts,
        ).contains(p as usize) <==> wanted(
            m,
            Query { clients: ClientSel::One(c), symbol: None, span },
            m.n_parts,
        ).contains(p as usize) && wanted(
            m,
            Query { clients: ClientSel::All, symbol: Some(s), span },
            m.n_parts,
        ).contains(p as usize),
        wanted(
            m,
            Query { clients: ClientSel::All, symbol: None, span },
            m.n_parts,
        ).contains(p as usize),
{
    lemma_query_selects(m, Query { clients: ClientSel::One(c), symbol: Some(s), span }, p);
    lemma_query_selects(m, Query { clients: ClientSel::One(c), symbol: None, span }, p);
    lemma_query_selects(m, Query { clients: ClientSel::All, symbol: Some(s), span }, p);
    lemma_query_selects(m, Query { clients: ClientSel::All, symbol: None, span }, p);
}

/// Every fragment that a query counts carries the client that the query names and
/// the symbol that it names, and was sold on a day within its range.
pub proof fn lemma_query_counts_what_it_names(
    m: TableModel,
    ckpt: Option<Checkpoint>,
    q: Query,
    rules: BucketRules,
    policy: MatchPolicy,
    i: int,
    k: int,
)
    requires
        0 <= m.n_parts <= usize::MAX,
        0 <= i < query_frags(m, ckpt, q, rules, policy).len(),
        0 <= k < query_frags(m, ckpt, q, rules, policy)[i].len(),
    ensures
        ({
            let f = query_frags(m, ckpt, q, rules, policy)[i][k];
            &&& q.clients matches ClientSel::One(c) ==> f.client == c
            &&& q.symbol matches Some(s) ==> f.symbol == s
            &&& q.span matches Span::Range(lo, hi) ==> lo <= f.sell_day <= hi
        }),
{
    lemma_wanted(m, q, m.n_parts);
    let p = wanted(m, q, m.n_parts)[i] as int;
    let desk = Desk { client: m.clients[p], symbol: m.symbols[p], rules, policy };
    let lots = start_lots(m, ckpt, q, p);
    let recs = replayed(m, ckpt, q, p);
    let all = fold(desk, lots, recs).1;
    lemma_fold_owner(desk, lots, recs);
    let fs = query_frags(m, ckpt, q, rules, policy)[i];
    assert(fs == part_frags(m, ckpt, q, rules, policy, p));
    match q.span {
        Span::Full => {
            assert(fs == counted(all, None));
            lemma_all_counted(all);
        },
        Span::Range(lo, hi) => {
            assert(fs == counted(all, Some((lo, hi))));
            lemma_counted_range(all, lo, hi);
            let w = |f: Fragment| lo <= f.sell_day <= hi;
            lemma_filter_keeps(all, w);
            assert(w(fs[k]));
            let j = choose|j: int| 0 <= j < all.len() && all[j] == fs[k];
            assert(all[j].client == desk.client);
        },
    }
}

/// A query over the whole history folds each partition that it asks for on its own,
/// from no open lots, all of its records, under the rules and the policy given,
/// with a checkpoint or without, and counts all that it matches.
pub proof fn lemma_full_query_folds_partitions(
    m: TableModel,
    ckpt: Option<Checkpoint>,
    q: Query,
    rules: BucketRules,
    policy: MatchPolicy,
    i: int,
)
    requires
        q.span is Full,
        0 <= i < wanted(m, q, m.n_parts).len(),
    ensures
        query_frags(m, ckpt, q, rules, policy).len() == wanted(m, q, m.n_parts).len(),
        query_frags(m, ckpt, q, rules, policy)[i] == ({
            let p = wanted(m, q, m.n_parts)[i] as int;
            fold(
                Desk { client: m.clients[p], symbol: m.symbols[p], rules, policy },
                Seq::empty(),
                m.records.subrange(m.offsets[p] as int, m.offsets[p + 1] as int),
            ).1
        }),
{
    let p = wanted(m, q, m.n_parts)[i] as int;
    let desk = Desk { client: m.clients[p], symbol: m.symbols[p], rules, policy };
    let all = fold(desk, Seq::empty(), m.part(p)).1;
    lemma_all_counted(all);
}

/// A query for a range counts, partition by partition, what the same query over the
/// whole history counts, less what was sold outside the range.
pub proof fn lemma_range_is_part_of_history(
    m: TableModel,
    clients: ClientSel,
    symbol: Option<u32>,
    lo: i32,
    hi: i32,
    rules: BucketRules,
    policy: MatchPolicy,
    i: int,
)
    requires
        ({
            let q = Query { clients, symbol, span: Span::Range(lo, hi) };
            &&& 0 <= i < query_frags(m, None, q, rules, policy).len()
            &&& days_ascend(m.part(wanted(m, q, m.n_parts)[i] as int))
        }),
    ensures
        ({
            let part = query_frags(
                m,
                None,
                Query { clients, symbol, span: Span::Range(lo, hi) },
                rules,
                policy,
            );
            let all = query_frags(
                m,
                None,
                Query { clients, symbol, span: Span::Full },
                rules,
                policy,
            );
            &&& part.len() == all.len()
            &&& part[i] == all[i].filter(|f: Fragment| lo <= f.sell_day <= hi)
        }),
{
    let q = Query { clients, symbol, span: Span::Range(lo, hi) };
    let full = Query { clients, symbol, span: Span::Full };
    lemma_wanted_by_name(m, q, full, m.n_parts);
    let p = wanted(m, q, m.n_parts)[i] as int;
    let desk = Desk { client: m.clients[p], symbol: m.symbols[p], rules, policy };
    crate::query::lemma_no_checkpoint_is_truth(m, q, rules, policy, p, lo, hi);
    lemma_full_query_folds_partitions(m, None, full, rules, policy, i);
    lemma_counted_range(fold(desk, Seq::empty(), m.part(p)).1, lo, hi);
}

/// Which partitions a query asks for does not depend on its days.
proof fn lemma_wanted_by_name(m: TableModel, a: Query, b: Query, n: int)
    requires
        a.clients == b.clients,
        a.symbol == b.symbol,
    ensures
        wanted(m, a, n) == wanted(m, b, n),
    decreases n,
{
    if n > 0 {
        lemma_wanted_by_name(m, a, b, n - 1);
    }
}

// ---------------------------------------------------------------------------
// What a query costs
// ---------------------------------------------------------------------------

/// How many records of a partition a query reads: all of them for the whole history,
/// and for a range those that are not past it, from the day after the checkpoint on
/// where there is one.
pub proof fn lemma_records_read(m: TableModel, ckpt: Option<Checkpoint>, q: Query, p: int)
    requires
        days_ascend(m.part(p)),
        q.span matches Span::Range(lo, hi) && ckpt matches Some(c) ==> c.cutoff_day <= hi,
        ckpt matches Some(c) ==> c.cutoff_day < i32::MAX,
    ensures
        q.span is Full ==> replayed(m, ckpt, q, p) == m.records.subrange(
            m.offsets[p] as int,
            m.offsets[p + 1] as int,
        ),
        q.span matches Span::Range(lo, hi) ==> replayed(m, ckpt, q, p) == m.part(p).filter(
            |r: PackedTrade|
                r.day <= hi && (ckpt matches Some(c) ==> r.day > c.cutoff_day),
        ),
{
    match q.span {
        Span::Full => {},
        Span::Range(lo, hi) => {
            let from = crate::query::first_day(ckpt);
            crate::packed::lemma_days_between(m.part(p), from, hi as int);
            lemma_same_filter(
                m.part(p),
                |r: PackedTrade| from <= r.day <= hi,
                |r: PackedTrade|
                    r.day <= hi && (ckpt matches Some(c) ==> r.day > c.cutoff_day),
            );
            lemma_same_filter(
                m.part(p),
                |r: PackedTrade| from <= r.day <= hi,
                |r: PackedTrade| from <= r.day <= hi as int,
            );
        },
    }
}

proof fn lemma_same_filter(
    s: Seq<PackedTrade>,
    a: spec_fn(PackedTrade) -> bool,
    b: spec_fn(PackedTrade) -> bool,
)
    requires
        forall|r: PackedTrade| #[trigger] a(r) == b(r),
    ensures
        s.filter(a) == s.filter(b),
    decreases s.len(),
{
    reveal(Seq::filter);
    if s.len() > 0 {
        lemma_same_filter(s.drop_last(), a, b);
        assert(a(s.last()) == b(s.last()));
    }
}

/// What a query costs adds up over its partitions: the records read, the most of
/// them in one partition, and how many partitions start with lots from a checkpoint.
pub proof fn lemma_cost_adds_up(m: TableModel, ckpt: Option<Checkpoint>, q: Query, k: int)
    requires
        0 <= k < wanted(m, q, m.n_parts).len(),
    ensures
        rows_upto(m, ckpt, q, 0) == 0,
        most_upto(m, ckpt, q, 0) == 0,
        loaded_upto(m, ckpt, q, 0) == 0,
        ({
            let p = wanted(m, q, m.n_parts)[k] as int;
            let n = replayed(m, ckpt, q, p).len();
            let most = most_upto(m, ckpt, q, k);
            &&& rows_upto(m, ckpt, q, k + 1) == rows_upto(m, ckpt, q, k) + n
            &&& most_upto(m, ckpt, q, k + 1) >= n
            &&& most_upto(m, ckpt, q, k + 1) >= most
            &&& most_upto(m, ckpt, q, k + 1) == n || most_upto(m, ckpt, q, k + 1) == most
            &&& loaded_upto(m, ckpt, q, k + 1) == loaded_upto(m, ckpt, q, k) + (if q.span is Range
                && (ckpt matches Some(c) && c@.dom().contains(
                (m.clients[p] * 0x1_0000_0000 + m.symbols[p]) as u128,
            ) && c@[(m.clients[p] * 0x1_0000_0000 + m.symbols[p]) as u128].len() > 0) {
                1int
            } else {
                0int
            })
        }),
{
}

/// A query starts from the lots that its checkpoint holds for the partition, by
/// client and symbol, and only for a range; else from none.
pub proof fn lemma_start_by_partition(m: TableModel, ckpt: Option<Checkpoint>, q: Query, p: int)
    ensures
        q.span is Full || ckpt is None ==> start_lots(m, ckpt, q, p).len() == 0,
        q.span is Range && ckpt is Some ==> {
            let key = (m.clients[p] * 0x1_0000_0000 + m.symbols[p]) as u128;
            let c = ckpt->0;
            &&& c@.dom().contains(key) ==> start_lots(m, ckpt, q, p) == c@[key]
            &&& !c@.dom().contains(key) ==> start_lots(m, ckpt, q, p).len() == 0
        },
{
}

// ---------------------------------------------------------------------------
// The baseline
// ---------------------------------------------------------------------------

/// Scanning one more run counts, where the run's client and symbol are those that
/// the query names, what folding the run from no open lots matches, less what was
/// sold outside the query's range, and else nothing.
pub proof fn lemma_scan_adds_run(rs: Seq<Run>, q: Query, k: int)
    requires
        0 <= k < rs.len(),
    ensures
        ({
            let r = rs[k];
            let asked = (match q.clients {
                ClientSel::One(c) => r.client == c,
                ClientSel::All => true,
            }) && (match q.symbol {
                Some(s) => r.symbol == s,
                None => true,
            });
            let all = partition_frags(r.client, r.symbol, r.recs);
            let counts = match q.span {
                Span::Full => all,
                Span::Range(lo, hi) => all.filter(|f: Fragment| lo <= f.sell_day <= hi),
            };
            &&& scan_frags(rs, q, 0).len() == 0
            &&& scan_rows(rs, q, 0) == 0
            &&& asked ==> scan_frags(rs, q, k + 1) == scan_frags(rs, q, k).push(counts)
            &&& !asked ==> scan_frags(rs, q, k + 1) == scan_frags(rs, q, k)
            &&& asked ==> scan_rows(rs, q, k + 1) == scan_rows(rs, q, k) + r.recs.len()
            &&& !asked ==> scan_rows(rs, q, k + 1) == scan_rows(rs, q, k)
        }),
{
    let r = rs[k];
    let desk = crate::fifo::default_desk(r.client, r.symbol);
    let every = fold(desk, Seq::empty(), r.recs).1;
    lemma_all_counted(every);
    match q.span {
        Span::Full => {},
        Span::Range(lo, hi) => {
            lemma_counted_range(every, lo, hi);
        },
    }
}

/// Every fragment that a scan counts carries the client and the symbol that the query
/// names, and was sold on a day within its range.
pub proof fn lemma_scan_counts_what_it_names(rs: Seq<Run>, q: Query, k: int, i: int, j: int)
    requires
        0 <= k <= rs.len(),
        0 <= i < scan_frags(rs, q, k).len(),
        0 <= j < scan_frags(rs, q, k)[i].len(),
    ensures
        ({
            let f = scan_frags(rs, q, k)[i][j];
            &&& q.clients matches ClientSel::One(c) ==> f.client == c
            &&& q.symbol matches Some(s) ==> f.symbol == s
            &&& q.span matches Span::Range(lo, hi) ==> lo <= f.sell_day <= hi
        }),
    decreases k,
{
    if k > 0 {
        let was = scan_frags(rs, q, k - 1);
        let r = rs[k - 1];
        lemma_scan_adds_run(rs, q, k - 1);
        if i < was.len() {
            lemma_scan_counts_what_it_names(rs, q, k - 1, i, j);
        } else {
            let all = partition_frags(r.client, r.symbol, r.recs);
            crate::holding::lemma_partition_is_fifo(r.client, r.symbol, r.recs);
            match q.span {
                Span::Full => {
                    assert(scan_frags(rs, q, k)[i] == all);
                    assert(all[j].client == r.client);
                },
                Span::Range(lo, hi) => {
                    let w = |f: Fragment| lo <= f.sell_day <= hi;
                    assert(scan_frags(rs, q, k)[i] == all.filter(w));
                    lemma_filter_keeps(all, w);
                    let f = all.filter(w)[j];
                    assert(w(f));
                    let n = choose|n: int| 0 <= n < all.len() && all[n] == f;
                    assert(all[n].client == r.client);
                },
            }
        }
    }
}

/// A scan reports the rows whose client and symbol the query names, whatever their
/// days.
pub proof fn lemma_asked_rows_by_name(rows: Seq<Row>, q: Query)
    ensures
        asked_rows(rows, q) == rows.filter(
            |r: Row|
                {
                    &&& q.clients matches ClientSel::One(c) ==> r.client == c
                    &&& q.symbol matches Some(s) ==> r.symbol == s
                },
        ).len(),
    decreases rows.len(),
{
    reveal(Seq::filter);
    if rows.len() > 0 {
        lemma_asked_rows_by_name(rows.drop_last(), q);
    }
}

// ---------------------------------------------------------------------------
// Checkpoints
// ---------------------------------------------------------------------------

/// What a checkpoint holds of a partition is what folding the records up to the
/// cutoff day, that day included, leaves open, first in, first out: the last of the
/// shares bought by then, in the order in which they were bought.
pub proof fn lemma_residual_is_open_at_cutoff(m: TableModel, p: int, cutoff: i32)
    requires
        days_ascend(m.part(p)),
    ensures
        ({
            let upto = m.part(p).filter(|r: PackedTrade| r.day <= cutoff);
            let desk = Desk {
                client: m.clients[p],
                symbol: m.symbols[p],
                rules: BucketRules::equity_rules(365),
                policy: MatchPolicy::Fifo,
            };
            &&& residual(m, p, cutoff) == fold(desk, Seq::empty(), upto).0
            &&& lot_shares(residual(m, p, cutoff)).is_suffix_of(bought(upto))
        }),
{
    let upto = m.part(p).filter(|r: PackedTrade| r.day <= cutoff);
    let from = i32::MIN as int;
    crate::packed::lemma_days_between(m.part(p), from, cutoff as int);
    lemma_same_filter(
        m.part(p),
        |r: PackedTrade| from <= r.day <= cutoff as int,
        |r: PackedTrade| r.day <= cutoff,
    );
    let desk = crate::fifo::default_desk(m.clients[p], m.symbols[p]);
    crate::shares::lemma_fifo_shares(desk, Seq::empty(), upto);
    let f = fold(desk, Seq::empty(), upto);
    let whole = bought(upto);
    assert(lot_shares(Seq::empty()) + whole =~= whole);
    let open = lot_shares(f.0);
    assert(whole.subrange(whole.len() - open.len(), whole.len() as int) =~= open);
}

// ---------------------------------------------------------------------------
// Ranges from a checkpoint
// ---------------------------------------------------------------------------

/// A checkpoint that is handed in is the one that is used.
pub proof fn lemma_checkpoint_handed_in(c: Checkpoint)
    ensures
        deref_ckpt(Some(&c)) == Some(c),
        deref_ckpt(None) is None,
{
}

/// A query for a range folds, in each partition that it asks for, the records that it
/// reads onto the lots that it starts from, under the rules and the policy given, and
/// counts what was sold within the range.
pub proof fn lemma_range_query_folds_replay(
    m: TableModel,
    ckpt: Option<Checkpoint>,
    q: Query,
    rules: BucketRules,
    policy: MatchPolicy,
    lo: i32,
    hi: i32,
    i: int,
)
    requires
        q.span == Span::Range(lo, hi),
        0 <= i < wanted(m, q, m.n_parts).len(),
    ensures
        query_frags(m, ckpt, q, rules, policy).len() == wanted(m, q, m.n_parts).len(),
        query_frags(m, ckpt, q, rules, policy)[i] == ({
            let p = wanted(m, q, m.n_parts)[i] as int;
            fold(
                Desk { client: m.clients[p], symbol: m.symbols[p], rules, policy },
                start_lots(m, ckpt, q, p),
                replayed(m, ckpt, q, p),
            ).1.filter(|f: Fragment| lo <= f.sell_day <= hi)
        }),
{
    let p = wanted(m, q, m.n_parts)[i] as int;
    let desk = Desk { client: m.clients[p], symbol: m.symbols[p], rules, policy };
    let lots = start_lots(m, ckpt, q, p);
    lemma_counted_range(fold(desk, lots, replayed(m, ckpt, q, p)).1, lo, hi);
}

} // verus!
