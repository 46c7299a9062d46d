//! The baseline: a query answered by scanning every row, without a packed
//! table, an index or checkpoints. For a range of days it folds the whole
//! history and counts the sells in the range.

use std::collections::VecDeque;
use vstd::prelude::*;
use crate::checkpoint::Checkpoint;
use crate::fifo::{
    default_desk, fold_core, fold_frags, BucketRules, Fragment, Lot, MatchPolicy, NoopSink,
    PartitionPnl, LONG_TERM_DAYS,
};
use crate::matching::{all_tallyable, joined, tallies};
use crate::packed::{cut, days_ascend, PackedTrade, TableModel};
use crate::query::{first_day, part_frags, query_frags, wanted, ClientSel, Query, Span};
use crate::rows::{book_ordered, next_run, runs, starts_run, table_runs, Row, Run};

verus! {

/// Whether the query asks for this client and symbol.
pub fn matches(q: &Query, client: u64, symbol: u32) -> (r: bool)
    ensures
        r == q.wants(client, symbol),
        r <==> {
            &&& q.clients matches ClientSel::One(c) ==> client == c
            &&& q.symbol matches Some(s) ==> symbol == s
        },
{
    let c_ok = match q.clients {
        ClientSel::One(c) => client == c,
        ClientSel::All => true,
    };
    let s_ok = match q.symbol {
        Some(s) => symbol == s,
        None => true,
    };
    c_ok && s_ok
}

/// The fragments that a query counts in one run.
pub open spec fn run_frags(r: Run, count: Option<(i32, i32)>) -> Seq<Fragment> {
    fold_frags(default_desk(r.client, r.symbol), Seq::empty(), r.recs, count)
}

/// The fragments that a query counts in the first `k` runs, run by run.
pub open spec fn scan_frags(rs: Seq<Run>, q: Query, k: int) -> Seq<Seq<Fragment>>
    decreases k,
{
    if k <= 0 {
        Seq::empty()
    } else {
        let before = scan_frags(rs, q, k - 1);
        if q.wants(rs[k - 1].client, rs[k - 1].symbol) {
            before.push(run_frags(rs[k - 1], q.window()))
        } else {
            before
        }
    }
}

/// The rows of those of the first `k` runs that a query asks for.
pub open spec fn scan_rows(rs: Seq<Run>, q: Query, k: int) -> int
    decreases k,
{
    if k <= 0 {
        0
    } else {
        scan_rows(rs, q, k - 1) + (if q.wants(rs[k - 1].client, rs[k - 1].symbol) {
            rs[k - 1].recs.len() as int
        } else {
            0
        })
    }
}

/// The runs of the first rows, up to where a run starts, are the first of all
/// runs.
pub proof fn lemma_scan_grows(rows: Seq<Row>, n: int)
    requires
        starts_run(rows, n),
    ensures
        ({
            let part = runs(rows.take(n));
            let all = runs(rows);
            &&& part.len() <= all.len()
            &&& forall|i: int| 0 <= i < part.len() ==> #[trigger] part[i] == all[i]
        }),
    decreases rows.len() - n,
{
    if n == rows.len() {
        assert(rows.take(n) =~= rows);
    } else {
        lemma_runs_stable(rows, n, n + 1);
        lemma_runs_stable(rows, n, rows.len() as int);
        assert(rows.take(rows.len() as int) =~= rows);
    }
}

/// Complete runs do not change as rows follow.
proof fn lemma_runs_stable(rows: Seq<Row>, n: int, m: int)
    requires
        starts_run(rows, n),
        n <= m <= rows.len(),
    ensures
        ({
            let part = runs(rows.take(n));
            let now = runs(rows.take(m));
            &&& part.len() <= now.len()
            &&& n < m ==> part.len() < now.len()
            &&& forall|i: int| 0 <= i < part.len() ==> #[trigger] part[i] == now[i]
        }),
    decreases m,
{
    if n < m {
        lemma_runs_stable(rows, n, m - 1);
        assert(rows.take(m).drop_last() =~= rows.take(m - 1));
        let part = runs(rows.take(n));
        let was = runs(rows.take(m - 1));
        let now = runs(rows.take(m));
        if m - 1 == n && n > 0 {
            crate::rows::lemma_last_key(rows.take(n));
            assert(rows.take(n).last() == rows[n - 1]);
            assert(rows.take(m).last() == rows[n]);
        }
        assert forall|i: int| 0 <= i < part.len() implies #[trigger] part[i] == now[i] by {
            assert(part[i] == was[i]);
        }
    }
}

/// Answer a query by scanning all rows: the sums, and how many rows belong to
/// what was asked for, whatever the span.
pub fn baseline_query(rows: &[Row], q: &Query) -> (r: (PartitionPnl, u64))
    requires
        all_tallyable(scan_frags(runs(rows@), *q, runs(rows@).len() as int)),
    ensures
        r.0@ == tallies(joined(scan_frags(runs(rows@), *q, runs(rows@).len() as int))),
        r.1 == asked_rows(rows@, *q),
{
    let count: Option<(i32, i32)> = match q.span {
        Span::Full => None,
        Span::Range(lo, hi) => Some((lo, hi)),
    };
    let ghost all = runs(rows@);
    let ghost fss = scan_frags(all, *q, all.len() as int);
    let mut pnl = PartitionPnl::default();
    let mut rows_touched: u64 = 0;
    let mut from: usize = 0;
    let ghost mut k: int = 0;
    let n: usize = rows.len();
    proof {
        assert(rows@.take(0) =~= Seq::empty());
        assert(joined(scan_frags(all, *q, 0)) =~= Seq::empty());
    }
    while from < n
        invariant
            n == rows@.len(),
            from <= n,
            starts_run(rows@, from as int),
            all == runs(rows@),
            fss == scan_frags(all, *q, all.len() as int),
            all_tallyable(fss),
            count == q.window(),
            k == runs(rows@.take(from as int)).len(),
            0 <= k <= all.len(),
            pnl@ == tallies(joined(scan_frags(all, *q, k))),
            rows_touched == scan_rows(all, *q, k),
            rows_touched <= from,
        decreases n - from,
    {
        let (recs, to): (Vec<PackedTrade>, usize) = next_run(rows, from);
        let client: u64 = rows[from].client;
        let symbol: u32 = rows[from].symbol;
        proof {
            lemma_scan_grows(rows@, to as int);
            let upto = runs(rows@.take(to as int));
            assert(upto[k] == all[k]);
            assert(all[k] == Run { client, symbol, recs: recs@ });
        }
        if matches(q, client, symbol) {
            rows_touched = rows_touched + recs.len() as u64;
            let mut carry: VecDeque<Lot> = VecDeque::new();
            let mut sink = NoopSink;
            let ghost before = scan_frags(all, *q, k);
            proof {
                lemma_scan_is_prefix(all, *q, k + 1);
                let j = before.len() as int;
                assert(scan_frags(all, *q, k + 1) =~= before.push(run_frags(all[k], q.window())));
                assert(fss.take(j + 1) =~= before.push(run_frags(all[k], q.window())));
                assert(fss[j] == fss.take(j + 1)[j]);
                assert(fss.take(j) =~= before);
                crate::fifo::lemma_noop_accepts(sink, fss[j]);
                crate::fifo::lemma_merge_next(fss, j);
            }
            let part = fold_core(
                client,
                symbol,
                &mut carry,
                recs.as_slice(),
                &mut sink,
                count,
                &BucketRules::default(),
                MatchPolicy::Fifo,
            );
            pnl.merge(&part);
        }
        from = to;
        proof {
            k = k + 1;
        }
    }
    assert(rows@.take(n as int) =~= rows@);
    proof {
        lemma_scan_counts_rows(rows@, *q);
    }
    (pnl, rows_touched)
}

/// The fragments of the first runs are the first of all.
pub proof fn lemma_scan_is_prefix(rs: Seq<Run>, q: Query, k: int)
    requires
        0 <= k <= rs.len(),
    ensures
        scan_frags(rs, q, k).is_prefix_of(scan_frags(rs, q, rs.len() as int)),
    decreases rs.len() - k,
{
    if k < rs.len() {
        lemma_scan_is_prefix(rs, q, k + 1);
        let a = scan_frags(rs, q, k);
        let b = scan_frags(rs, q, k + 1);
        let c = scan_frags(rs, q, rs.len() as int);
        assert forall|i: int| 0 <= i < a.len() implies a[i] == c[i] by {
            assert(a[i] == b[i]);
            assert(b[i] == c[i]);
        }
        assert(a =~= c.take(a.len() as int));
    }
}

// ---------------------------------------------------------------------------
// Laws
// ---------------------------------------------------------------------------

/// How many rows belong to a client and a symbol that the query asks for.
pub open spec fn asked_rows(rows: Seq<Row>, q: Query) -> int
    decreases rows.len(),
{
    if rows.len() == 0 {
        0
    } else {
        asked_rows(rows.drop_last(), q) + (if q.wants(rows.last().client, rows.last().symbol) {
            1int
        } else {
            0int
        })
    }
}

/// A query asks for no more rows than there are.
pub proof fn lemma_asked_rows(rows: Seq<Row>, q: Query)
    ensures
        0 <= asked_rows(rows, q) <= rows.len(),
    decreases rows.len(),
{
    if rows.len() > 0 {
        lemma_asked_rows(rows.drop_last(), q);
    }
}

/// The first runs, where they are the same, hold the same rows.
proof fn lemma_scan_rows_same(a: Seq<Run>, b: Seq<Run>, q: Query, k: int)
    requires
        0 <= k <= a.len(),
        k <= b.len(),
        forall|i: int| 0 <= i < k ==> #[trigger] a[i] == b[i],
    ensures
        scan_rows(a, q, k) == scan_rows(b, q, k),
    decreases k,
{
    if k > 0 {
        lemma_scan_rows_same(a, b, q, k - 1);
        assert(a[k - 1] == b[k - 1]);
    }
}

/// A scan's row count is the number of rows whose client and symbol the query asks
/// for, whatever the span.
pub proof fn lemma_scan_counts_rows(rows: Seq<Row>, q: Query)
    ensures
        scan_rows(runs(rows), q, runs(rows).len() as int) == asked_rows(rows, q),
    decreases rows.len(),
{
    if rows.len() > 0 {
        let head = rows.drop_last();
        let r = rows.last();
        lemma_scan_counts_rows(head, q);
        let was = runs(head);
        let now = runs(rows);
        if was.len() > 0 && was.last().client == r.client && was.last().symbol == r.symbol {
            lemma_scan_rows_same(was, now, q, was.len() - 1);
        } else {
            lemma_scan_rows_same(was, now, q, was.len() as int);
        }
    }
}

/// What a query over a table needs so that it can be held against a scan of the
/// rows: for a range, days in order, and a checkpoint, if any, that the table gives at
/// a cutoff before the range and from which the replay does not run backwards.
pub open spec fn comparable(m: TableModel, ckpt: Option<Checkpoint>, q: Query) -> bool {
    q.span matches Span::Range(lo, hi) ==> {
        &&& forall|p: int| 0 <= p < m.n_parts ==> days_ascend(#[trigger] m.part(p))
        &&& ckpt matches Some(c) ==> {
            &&& c.cutoff_day < lo
            &&& c@ == crate::checkpoint::snapshot(m, c.cutoff_day, m.n_parts)
            &&& lo <= hi || forall|p: int|
                0 <= p < m.n_parts ==> cut(#[trigger] m.part(p), first_day(ckpt)) <= cut(
                    m.part(p),
                    hi + 1,
                )
        }
    }
}

proof fn lemma_part_is_run(m: TableModel, ckpt: Option<Checkpoint>, q: Query, p: int)
    requires
        m.wf(),
        m.distinct(),
        0 <= p < m.n_parts,
        comparable(m, ckpt, q),
    ensures
        part_frags(
            m,
            ckpt,
            q,
            BucketRules::equity_rules(LONG_TERM_DAYS),
            MatchPolicy::Fifo,
            p,
        ) == run_frags(table_runs(m)[p], q.window()),
{
    let rules = BucketRules::equity_rules(LONG_TERM_DAYS);
    match q.span {
        Span::Full => {},
        Span::Range(lo, hi) => {
            assert(days_ascend(m.part(p)));
            match ckpt {
                Some(c) => {
                    crate::query::lemma_checkpoint_is_truth(m, c, q, rules, p, lo, hi);
                },
                None => {
                    crate::query::lemma_no_checkpoint_is_truth(
                        m,
                        q,
                        rules,
                        MatchPolicy::Fifo,
                        p,
                        lo,
                        hi,
                    );
                },
            }
        },
    }
}

proof fn lemma_wanted_runs(m: TableModel, ckpt: Option<Checkpoint>, q: Query, n: int)
    requires
        m.wf(),
        m.distinct(),
        0 <= n <= m.n_parts,
        m.n_parts <= usize::MAX,
        comparable(m, ckpt, q),
    ensures
        Seq::new(
            wanted(m, q, n).len(),
            |i: int|
                part_frags(
                    m,
                    ckpt,
                    q,
                    BucketRules::equity_rules(LONG_TERM_DAYS),
                    MatchPolicy::Fifo,
                    wanted(m, q, n)[i] as int,
                ),
        ) == scan_frags(table_runs(m), q, n),
    decreases n,
{
    let rules = BucketRules::equity_rules(LONG_TERM_DAYS);
    let now = Seq::new(
        wanted(m, q, n).len(),
        |i: int| part_frags(m, ckpt, q, rules, MatchPolicy::Fifo, wanted(m, q, n)[i] as int),
    );
    if n > 0 {
        lemma_wanted_runs(m, ckpt, q, n - 1);
        lemma_part_is_run(m, ckpt, q, n - 1);
        let was = Seq::new(
            wanted(m, q, n - 1).len(),
            |i: int|
                part_frags(m, ckpt, q, rules, MatchPolicy::Fifo, wanted(m, q, n - 1)[i] as int),
        );
        assert forall|i: int| 0 <= i < was.len() implies now[i] == was[i] by {
            assert(wanted(m, q, n)[i] == wanted(m, q, n - 1)[i]);
        }
        if q.wants(m.clients[n - 1], m.symbols[n - 1]) {
            assert(now =~= was.push(run_frags(table_runs(m)[n - 1], q.window())));
        } else {
            assert(now =~= was);
        }
    } else {
        assert(now =~= scan_frags(table_runs(m), q, n));
    }
}

/// A query over a packed table counts what a scan of its partitions counts.
pub proof fn lemma_query_is_scan(m: TableModel, ckpt: Option<Checkpoint>, q: Query)
    requires
        m.wf(),
        m.distinct(),
        m.n_parts <= usize::MAX,
        comparable(m, ckpt, q),
    ensures
        query_frags(
            m,
            ckpt,
            q,
            BucketRules::equity_rules(LONG_TERM_DAYS),
            MatchPolicy::Fifo,
        ) == scan_frags(table_runs(m), q, m.n_parts),
{
    lemma_wanted_runs(m, ckpt, q, m.n_parts);
}

/// A query over a packed table, with or without a checkpoint, counts fragment by
/// fragment what a scan of all the rows counts.
pub proof fn lemma_query_is_baseline(
    m: TableModel,
    rows: Seq<Row>,
    ckpt: Option<Checkpoint>,
    q: Query,
)
    requires
        m.wf(),
        m.distinct(),
        m.n_parts <= usize::MAX,
        table_runs(m) == runs(rows),
        comparable(m, ckpt, q),
    ensures
        query_frags(
            m,
            ckpt,
            q,
            BucketRules::equity_rules(LONG_TERM_DAYS),
            MatchPolicy::Fifo,
        ) == scan_frags(runs(rows), q, runs(rows).len() as int),
{
    lemma_query_is_scan(m, ckpt, q);
    assert(table_runs(m).len() == m.n_parts);
}

/// Every query agrees with the baseline: over a table packed from a tradebook in
/// order, a query counts fragment by fragment what a scan of the tradebook counts, from
/// any checkpoint that the table gives at a cutoff before the range, and from none. An
/// empty range counts nothing either way; from a checkpoint it can be asked where the
/// replay does not run backwards.
pub proof fn lemma_packed_book_agrees(
    m: TableModel,
    rows: Seq<Row>,
    ckpt: Option<Checkpoint>,
    q: Query,
)
    requires
        m.wf(),
        m.n_parts <= usize::MAX,
        table_runs(m) == runs(rows),
        book_ordered(rows),
        q.span matches Span::Range(lo, hi) ==> (ckpt matches Some(c) ==> {
            &&& c.cutoff_day < lo
            &&& c@ == crate::checkpoint::snapshot(m, c.cutoff_day, m.n_parts)
            &&& lo <= hi || forall|p: int|
                0 <= p < m.n_parts ==> cut(#[trigger] m.part(p), first_day(ckpt)) <= cut(
                    m.part(p),
                    hi + 1,
                )
        }),
    ensures
        query_frags(
            m,
            ckpt,
            q,
            BucketRules::equity_rules(LONG_TERM_DAYS),
            MatchPolicy::Fifo,
        ) == scan_frags(runs(rows), q, runs(rows).len() as int),
{
    crate::rows::lemma_cluster_sorted(m, rows);
    crate::packed::lemma_sorted_distinct(m);
    crate::rows::lemma_runs_in_time(rows);
    assert(table_runs(m).len() == m.n_parts);
    assert forall|p: int| 0 <= p < m.n_parts implies days_ascend(#[trigger] m.part(p)) by {
        assert(table_runs(m)[p].recs == m.part(p));
        assert(runs(rows)[p].recs == m.part(p));
    }
    lemma_query_is_baseline(m, rows, ckpt, q);
}

} // verus!
