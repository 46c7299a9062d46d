//! Corrections: a client's trades, drawn anew, folded on their own, and the
//! checkpoints that a back-dated trade invalidates.

use vstd::prelude::*;
use crate::baseline::{run_frags, scan_frags};
use crate::checkpoint::{listed, residual, snapshot, CheckpointStore};
use crate::fifo::{
    fold_partition, partition_frags, BucketRules, Fragment, MatchPolicy, NoopSink, PartitionPnl,
    LONG_TERM_DAYS,
};
use crate::matching::{all_tallyable, joined, tallies};
use crate::order::ascending_i32;
use crate::packed::{
    cut, days_ascend, days_between, packable, packed_of, PackedTable, PackedTrade, TableModel,
};
use crate::query::{query_frags, run_cpu, ClientSel, Query, Span};
use crate::rows::{next_run, row_of, runs, starts_run, table_runs, Row, Run};
use crate::schema::Trade;

verus! {

/// What a correction comes to.
#[derive(Debug)]
pub struct CorrectionReport {
    pub client: u64,
    pub n_trades: usize,
    pub n_partitions: usize,
    pub pnl: PartitionPnl,
    pub invalidated_checkpoints: Vec<i32>,
}

/// A client's trades as rows.
pub open spec fn trade_rows(client: u64, trades: Seq<Trade>) -> Seq<Row> {
    trades.map_values(|t: Trade| Row { client, symbol: t.symbol_id, rec: packed_of(t) })
}

/// The query for everything that a client ever traded.
pub open spec fn client_query(client: u64) -> Query {
    Query { clients: ClientSel::One(client), symbol: None, span: Span::Full }
}

/// The fragments of a client's trades, run by run of a symbol.
pub open spec fn client_frags(client: u64, trades: Seq<Trade>) -> Seq<Seq<Fragment>> {
    Seq::new(
        runs(trade_rows(client, trades)).len(),
        |i: int| run_frags(runs(trade_rows(client, trades))[i], None),
    )
}

fn to_rows(client: u64, trades: &[Trade]) -> (rows: Vec<Row>)
    requires
        forall|i: int| 0 <= i < trades@.len() ==> packable(#[trigger] trades@[i]),
    ensures
        rows@ == trade_rows(client, trades@),
        rows@.len() == trades@.len(),
        forall|i: int|
            0 <= i < rows@.len() ==> (#[trigger] rows@[i]).client == client && rows@[i].symbol
                == trades@[i].symbol_id && rows@[i].rec.price_ticks == trades@[i].price_ticks,
{
    let mut rows: Vec<Row> = Vec::new();
    let mut i: usize = 0;
    while i < trades.len()
        invariant
            i <= trades@.len(),
            forall|i: int| 0 <= i < trades@.len() ==> packable(#[trigger] trades@[i]),
            rows@ == trade_rows(client, trades@.take(i as int)),
        decreases trades@.len() - i,
    {
        let t: Trade = trades[i];
        assert(packable(trades@[i as int]));
        rows.push(Row { client, symbol: t.symbol_id, rec: PackedTrade::from_trade(&t) });
        i = i + 1;
        assert(rows@ =~= trade_rows(client, trades@.take(i as int)));
    }
    assert(trades@.take(trades@.len() as int) =~= trades@);
    rows
}

/// Fold one client's trades, which stand symbol by symbol and in time order:
/// the sums, how many trades, and how many partitions.
pub fn recompute_client(client_id: u64, trades: &[Trade]) -> (r: (PartitionPnl, usize, usize))
    requires
        forall|i: int| 0 <= i < trades@.len() ==> packable(#[trigger] trades@[i]),
        all_tallyable(client_frags(client_id, trades@)),
    ensures
        r.0@ == tallies(joined(client_frags(client_id, trades@))),
        r.1 == trades@.len(),
        r.2 == runs(trade_rows(client_id, trades@)).len(),
        r.2 == client_frags(client_id, trades@).len(),
{
    let rows: Vec<Row> = to_rows(client_id, trades);
    let ghost all = runs(rows@);
    let ghost fss = client_frags(client_id, trades@);
    let mut pnl = PartitionPnl::default();
    let mut n_parts: usize = 0;
    let mut from: usize = 0;
    let n: usize = rows.len();
    proof {
        assert(rows@.take(0) =~= Seq::empty());
        assert(fss.take(0) =~= Seq::empty());
    }
    while from < n
        invariant
            n == rows@.len(),
            from <= n,
            starts_run(rows@, from as int),
            rows@ == trade_rows(client_id, trades@),
            all == runs(rows@),
            fss == client_frags(client_id, trades@),
            all_tallyable(fss),
            n_parts == runs(rows@.take(from as int)).len(),
            n_parts <= from,
            n_parts <= all.len(),
            pnl@ == tallies(joined(fss.take(n_parts as int))),
        decreases n - from,
    {
        let (recs, to): (Vec<PackedTrade>, usize) = next_run(rows.as_slice(), from);
        let symbol: u32 = rows[from].symbol;
        let mut sink = NoopSink;
        proof {
            crate::baseline::lemma_scan_grows(rows@, to as int);
            let k = n_parts as int;
            let upto = runs(rows@.take(to as int));
            assert(upto[k] == all[k]);
            assert(rows@[from as int].client == client_id);
            assert(all[k] == Run { client: client_id, symbol, recs: recs@ });
            assert(fss[k] == partition_frags(client_id, symbol, recs@));
            crate::fifo::lemma_noop_accepts(sink, fss[k]);
            crate::fifo::lemma_merge_next(fss, k);
        }
        let part = fold_partition(client_id, symbol, recs.as_slice(), &mut sink);
        pnl.merge(&part);
        n_parts = n_parts + 1;
        from = to;
    }
    assert(rows@.take(n as int) =~= rows@);
    assert(fss.take(fss.len() as int) =~= fss);
    (pnl, trades.len(), n_parts)
}

/// A correction for a client on `correction_day`: the client's trades folded
/// anew, and the checkpoints, among the names of the store's directory, that no
/// longer hold.
pub fn correct(
    ckpt: &CheckpointStore,
    names: &Vec<String>,
    client_id: u64,
    correction_day: i32,
    trades: &[Trade],
) -> (r: CorrectionReport)
    requires
        forall|i: int| 0 <= i < trades@.len() ==> packable(#[trigger] trades@[i]),
        all_tallyable(client_frags(client_id, trades@)),
    ensures
        r.client == client_id,
        r.n_trades == trades@.len(),
        r.n_partitions == runs(trade_rows(client_id, trades@)).len(),
        r.n_partitions == client_frags(client_id, trades@).len(),
        r.pnl@ == tallies(joined(client_frags(client_id, trades@))),
        ascending_i32(r.invalidated_checkpoints@),
        r.invalidated_checkpoints@.to_multiset() == listed(names@).to_multiset().filter(
            |c: i32| c >= correction_day,
        ),
{
    let (pnl, n_trades, n_partitions): (PartitionPnl, usize, usize) = recompute_client(
        client_id,
        trades,
    );
    let invalidated_checkpoints = ckpt.invalidated_by(names, correction_day);
    CorrectionReport { client: client_id, n_trades, n_partitions, pnl, invalidated_checkpoints }
}

/// The sums of a client's trades drawn anew, and those of the client's
/// partitions in the packed table.
pub fn verify_against_packed(table: &PackedTable, client_id: u64, trades: &[Trade]) -> (r: (
    PartitionPnl,
    PartitionPnl,
))
    requires
        forall|i: int| 0 <= i < trades@.len() ==> packable(#[trigger] trades@[i]),
        all_tallyable(client_frags(client_id, trades@)),
        table@.wf(),
        table@.sorted(),
        all_tallyable(
            query_frags(
                table@,
                None,
                client_query(client_id),
                BucketRules::equity_rules(LONG_TERM_DAYS),
                MatchPolicy::Fifo,
            ),
        ),
    ensures
        r.0@ == tallies(joined(client_frags(client_id, trades@))),
        r.1@ == tallies(
            joined(
                query_frags(
                    table@,
                    None,
                    client_query(client_id),
                    BucketRules::equity_rules(LONG_TERM_DAYS),
                    MatchPolicy::Fifo,
                ),
            ),
        ),
{
    let (regen, _, _): (PartitionPnl, usize, usize) = recompute_client(client_id, trades);
    let q = Query { clients: ClientSel::One(client_id), symbol: None, span: Span::Full };
    let mut sink = NoopSink;
    let rules = BucketRules::default();
    proof {
        crate::fifo::lemma_noop_accepts(
            sink,
            joined(query_frags(table@, None, q, rules, MatchPolicy::Fifo)),
        );
    }
    let packed = run_cpu(table, None, &q, &mut sink, &rules, MatchPolicy::Fifo);
    (regen, packed.pnl)
}

// ---------------------------------------------------------------------------
// Laws
// ---------------------------------------------------------------------------

proof fn lemma_all_wanted(rs: Seq<Run>, client: u64, k: int)
    requires
        0 <= k <= rs.len(),
        forall|i: int| 0 <= i < rs.len() ==> (#[trigger] rs[i]).client == client,
    ensures
        scan_frags(rs, client_query(client), k) == Seq::new(
            k as nat,
            |i: int| run_frags(rs[i], None),
        ),
    decreases k,
{
    if k > 0 {
        lemma_all_wanted(rs, client, k - 1);
        assert(rs[k - 1].client == client);
    }
    assert(scan_frags(rs, client_query(client), k) =~= Seq::new(
        k as nat,
        |i: int| run_frags(rs[i], None),
    ));
}

proof fn lemma_runs_client(rows: Seq<Row>, client: u64)
    requires
        forall|i: int| 0 <= i < rows.len() ==> (#[trigger] rows[i]).client == client,
    ensures
        forall|i: int| 0 <= i < runs(rows).len() ==> (#[trigger] runs(rows)[i]).client == client,
    decreases rows.len(),
{
    if rows.len() > 0 {
        let head = rows.drop_last();
        assert forall|i: int| 0 <= i < head.len() implies (#[trigger] head[i]).client == client by {
            assert(head[i] == rows[i]);
        }
        lemma_runs_client(head, client);
        assert(rows[rows.len() - 1].client == client);
        let was = runs(head);
        let now = runs(rows);
        assert forall|i: int| 0 <= i < now.len() implies (#[trigger] now[i]).client == client by {
            if i < was.len() {
                assert(was[i].client == client);
            }
        }
    }
}

/// The runs of other clients change nothing for this one.
proof fn lemma_scan_skips(before: Seq<Run>, own: Seq<Run>, after: Seq<Run>, client: u64, k: int)
    requires
        forall|i: int| 0 <= i < before.len() ==> (#[trigger] before[i]).client != client,
        forall|i: int| 0 <= i < after.len() ==> (#[trigger] after[i]).client != client,
        0 <= k <= (before + own + after).len(),
    ensures
        scan_frags(before + own + after, client_query(client), k) == scan_frags(
            own,
            client_query(client),
            if k <= before.len() {
                0
            } else if k <= before.len() + own.len() {
                k - before.len()
            } else {
                own.len() as int
            },
        ),
    decreases k,
{
    let all = before + own + after;
    if k > 0 {
        lemma_scan_skips(before, own, after, client, k - 1);
        if k - 1 < before.len() {
            assert(all[k - 1] == before[k - 1]);
        } else if k - 1 < before.len() + own.len() {
            assert(all[k - 1] == own[k - 1 - before.len()]);
        } else {
            assert(all[k - 1] == after[k - 1 - before.len() - own.len()]);
        }
    }
}

/// The folds of a client's trades are those of a scan of them for the client.
pub proof fn lemma_client_is_scan(client: u64, trades: Seq<Trade>)
    ensures
        client_frags(client, trades) == scan_frags(
            runs(trade_rows(client, trades)),
            client_query(client),
            runs(trade_rows(client, trades)).len() as int,
        ),
{
    let rows = trade_rows(client, trades);
    lemma_runs_client(rows, client);
    lemma_all_wanted(runs(rows), client, runs(rows).len() as int);
    assert(client_frags(client, trades) =~= scan_frags(
        runs(rows),
        client_query(client),
        runs(rows).len() as int,
    ));
}

/// A client folded in isolation comes to what the packed table gives for the
/// client, when the table holds that client's trades and, before and after them,
/// whatever other clients traded.
pub proof fn lemma_isolated_is_packed(
    m: TableModel,
    client: u64,
    trades: Seq<Trade>,
    before: Seq<Run>,
    after: Seq<Run>,
)
    requires
        m.wf(),
        m.distinct(),
        m.n_parts <= usize::MAX,
        forall|i: int| 0 <= i < before.len() ==> (#[trigger] before[i]).client != client,
        forall|i: int| 0 <= i < after.len() ==> (#[trigger] after[i]).client != client,
        table_runs(m) == before + runs(trade_rows(client, trades)) + after,
    ensures
        query_frags(
            m,
            None,
            client_query(client),
            BucketRules::equity_rules(LONG_TERM_DAYS),
            MatchPolicy::Fifo,
        ) == client_frags(client, trades),
{
    let q = client_query(client);
    let rows = trade_rows(client, trades);
    let own = runs(rows);
    lemma_runs_client(rows, client);
    crate::baseline::lemma_query_is_scan(m, None, q);
    assert(table_runs(m).len() == m.n_parts);
    lemma_scan_skips(before, own, after, client, m.n_parts);
    lemma_client_is_scan(client, trades);
    if after.len() == 0 && own.len() == 0 {
        assert(scan_frags(own, q, 0) =~= Seq::empty());
    }
    assert(scan_frags(table_runs(m), q, m.n_parts) == scan_frags(own, q, own.len() as int));
}

/// The rows folded for a client are those that packing the client's trades makes:
/// each has the client, the trade's symbol, its price, its shares and its day.
pub proof fn lemma_rows_are_packed_rows(client: u64, trades: Seq<Trade>)
    requires
        forall|i: int| 0 <= i < trades.len() ==> (#[trigger] trades[i]).client_id == client,
    ensures
        trade_rows(client, trades) == trades.map_values(|t: Trade| row_of(t)),
        forall|i: int|
            0 <= i < trades.len() ==> {
                let r = #[trigger] trade_rows(client, trades)[i];
                &&& r.client == trades[i].client_id
                &&& r.symbol == trades[i].symbol_id
                &&& r.rec.price_ticks == trades[i].price_ticks
            },
{
    let rows = trade_rows(client, trades);
    let packed = trades.map_values(|t: Trade| row_of(t));
    assert forall|i: int| 0 <= i < trades.len() implies rows[i] == packed[i] by {
        assert(trades[i].client_id == client);
    }
    assert(rows =~= packed);
}

/// Each fold of a client's trades is that of the trades from some place up to
/// another that are in one symbol, with no trade in it before them or behind. So no
/// fragment pairs a buy of one symbol with a sell of another.
pub proof fn lemma_client_fold_is_one_symbol(client: u64, trades: Seq<Trade>, k: int) -> (place: (
    int,
    int,
))
    requires
        0 <= k < client_frags(client, trades).len(),
    ensures
        0 <= place.0 < place.1 <= trades.len(),
        forall|i: int|
            place.0 <= i < place.1 ==> (#[trigger] trades[i]).symbol_id
                == trades[place.0].symbol_id,
        place.0 > 0 ==> trades[place.0 - 1].symbol_id != trades[place.0].symbol_id,
        place.1 < trades.len() ==> trades[place.1].symbol_id != trades[place.0].symbol_id,
        k == 0 ==> place.0 == 0,
        k == client_frags(client, trades).len() - 1 ==> place.1 == trades.len(),
        client_frags(client, trades)[k] == partition_frags(
            client,
            trades[place.0].symbol_id,
            trades.subrange(place.0, place.1).map_values(|t: Trade| packed_of(t)),
        ),
        forall|j: int|
            0 <= j < client_frags(client, trades)[k].len() ==> (#[trigger] client_frags(
                client,
                trades,
            )[k][j]).client == client && client_frags(client, trades)[k][j].symbol
                == trades[place.0].symbol_id,
{
    let rows = trade_rows(client, trades);
    let rs = runs(rows);
    let place = crate::rows::lemma_run_is_block(rows, k);
    let (a, b) = place;
    assert forall|i: int| 0 <= i < rows.len() implies (#[trigger] rows[i]).client == client
        && rows[i].symbol == trades[i].symbol_id && rows[i].rec == packed_of(trades[i]) by {}
    assert(rows[a].symbol == rs[k].symbol && rows[a].client == rs[k].client);
    assert forall|i: int| a <= i < b implies (#[trigger] trades[i]).symbol_id
        == trades[a].symbol_id by {
        assert(rows[i].symbol == rs[k].symbol);
    }
    if a > 0 {
        assert(rows[a - 1].client == client);
    }
    if b < trades.len() {
        assert(rows[b].client == client);
    }
    let recs = trades.subrange(a, b).map_values(|t: Trade| packed_of(t));
    assert forall|i: int| 0 <= i < recs.len() implies recs[i] == rs[k].recs[i] by {
        assert(rows[a + i].rec == rs[k].recs[a + i - a]);
    }
    assert(recs =~= rs[k].recs);
    crate::holding::lemma_partition_is_fifo(client, trades[a].symbol_id, recs);
    place
}

/// A client's trades are folded in as many parts as there are trades whose symbol is
/// not that of the trade before: one more such trade makes one more part, any other
/// trade none.
pub proof fn lemma_client_fold_count(client: u64, trades: Seq<Trade>, t: Trade)
    ensures
        client_frags(client, Seq::empty()).len() == 0,
        trades.len() == 0 ==> client_frags(client, trades.push(t)).len() == 1,
        trades.len() > 0 && trades.last().symbol_id == t.symbol_id ==> client_frags(
            client,
            trades.push(t),
        ).len() == client_frags(client, trades).len(),
        trades.len() > 0 && trades.last().symbol_id != t.symbol_id ==> client_frags(
            client,
            trades.push(t),
        ).len() == client_frags(client, trades).len() + 1,
{
    let rows = trade_rows(client, trades);
    let r = Row { client, symbol: t.symbol_id, rec: packed_of(t) };
    assert(trade_rows(client, Seq::empty()) =~= Seq::empty());
    assert(trade_rows(client, trades.push(t)) =~= rows.push(r));
    if trades.len() > 0 {
        assert(rows.last().symbol == trades.last().symbol_id && rows.last().client == client);
    }
    crate::rows::lemma_run_count(rows, r);
}

/// Recomputing a client gives what a query for the client gives on the table packed
/// from the whole book: the book's rows are its trades' own, and those of other
/// clients, before and behind, change nothing.
pub proof fn lemma_recompute_is_query_on_book(
    m: TableModel,
    client: u64,
    before: Seq<Trade>,
    own: Seq<Trade>,
    after: Seq<Trade>,
)
    requires
        m.wf(),
        m.distinct(),
        m.n_parts <= usize::MAX,
        forall|i: int| 0 <= i < before.len() ==> (#[trigger] before[i]).client_id != client,
        forall|i: int| 0 <= i < own.len() ==> (#[trigger] own[i]).client_id == client,
        forall|i: int| 0 <= i < after.len() ==> (#[trigger] after[i]).client_id != client,
        own.len() > 0,
        table_runs(m) == runs((before + own + after).map_values(|t: Trade| row_of(t))),
    ensures
        query_frags(
            m,
            None,
            client_query(client),
            BucketRules::equity_rules(LONG_TERM_DAYS),
            MatchPolicy::Fifo,
        ) == client_frags(client, own),
{
    let f = |t: Trade| row_of(t);
    let a = before.map_values(f);
    let b = own.map_values(f);
    let c = after.map_values(f);
    lemma_rows_are_packed_rows(client, own);
    assert(b == trade_rows(client, own));
    assert((before + own + after).map_values(f) =~= a + b + c);
    assert(own[0].client_id == client && own[own.len() - 1].client_id == client);
    if before.len() > 0 {
        assert(before[before.len() - 1].client_id != client);
    }
    if after.len() > 0 {
        assert(after[0].client_id != client);
    }
    assert((a + b).last() == b.last());
    crate::rows::lemma_runs_append(a + b, c);
    crate::rows::lemma_runs_append(a, b);
    lemma_runs_not_client(a, client);
    lemma_runs_not_client(c, client);
    lemma_isolated_is_packed(m, client, own, runs(a), runs(c));
}

proof fn lemma_runs_not_client(rows: Seq<Row>, client: u64)
    requires
        forall|i: int| 0 <= i < rows.len() ==> (#[trigger] rows[i]).client != client,
    ensures
        forall|i: int| 0 <= i < runs(rows).len() ==> (#[trigger] runs(rows)[i]).client != client,
{
    assert forall|k: int| 0 <= k < runs(rows).len() implies (#[trigger] runs(rows)[k]).client
        != client by {
        let place = crate::rows::lemma_run_is_block(rows, k);
        assert(rows[place.0].client == runs(rows)[k].client);
    }
}

/// A correction changes nothing before its day.
pub open spec fn same_before(a: TableModel, b: TableModel, day: int) -> bool {
    &&& a.n_parts == b.n_parts
    &&& a.clients == b.clients
    &&& a.symbols == b.symbols
    &&& forall|p: int|
        0 <= p < a.n_parts ==> {
            &&& days_ascend(#[trigger] a.part(p))
            &&& days_ascend(b.part(p))
            &&& days_between(a.part(p), i32::MIN as int, day - 1) == days_between(
                b.part(p),
                i32::MIN as int,
                day - 1,
            )
        }
}

/// The records up to a day are told by those up to any later one.
proof fn lemma_earlier_days(recs: Seq<PackedTrade>, early: int, late: int)
    requires
        days_ascend(recs),
        i32::MIN <= early <= late,
    ensures
        days_between(recs, i32::MIN as int, early) == days_between(
            days_between(recs, i32::MIN as int, late),
            i32::MIN as int,
            early,
        ),
{
    let cutat = days_between(recs, i32::MIN as int, late);
    crate::packed::lemma_cut(recs, i32::MIN as int);
    crate::packed::lemma_cut(recs, early + 1);
    crate::packed::lemma_cut(recs, late + 1);
    crate::packed::lemma_cut_mono(recs, i32::MIN as int, early + 1);
    crate::packed::lemma_cut_mono(recs, early + 1, late + 1);
    let none = cut(recs, i32::MIN as int);
    assert(none == 0) by {
        if none > 0 {
            assert(recs[0].day < i32::MIN);
        }
    }
    assert(cutat =~= recs.take(cut(recs, late + 1)));
    assert(days_ascend(cutat)) by {
        assert forall|i: int, j: int| 0 <= i <= j < cutat.len() implies cutat[i].day
            <= cutat[j].day by {
            assert(cutat[i] == recs[i] && cutat[j] == recs[j]);
        }
    }
    crate::packed::lemma_cut(cutat, i32::MIN as int);
    crate::packed::lemma_cut(cutat, early + 1);
    let a = cut(cutat, early + 1);
    let b = cut(recs, early + 1);
    assert(cut(cutat, i32::MIN as int) == 0) by {
        if cut(cutat, i32::MIN as int) > 0 {
            assert(cutat[0].day < i32::MIN);
        }
    }
    assert(a == b) by {
        if a < b {
            assert(recs[a].day < early + 1);
            assert(cutat[a] == recs[a]);
        } else if b < a {
            assert(cutat[b].day < early + 1);
            assert(cutat[b] == recs[b]);
        }
    }
    assert(days_between(recs, i32::MIN as int, early) =~= days_between(
        cutat,
        i32::MIN as int,
        early,
    ));
}

/// A checkpoint whose cutoff lies before a correction's day still holds: only
/// those from that day on need to be built anew.
pub proof fn lemma_earlier_checkpoints_hold(
    a: TableModel,
    b: TableModel,
    day: i32,
    cutoff: i32,
    n: int,
)
    requires
        same_before(a, b, day as int),
        cutoff < day,
        0 <= n <= a.n_parts,
    ensures
        snapshot(a, cutoff, n) == snapshot(b, cutoff, n),
    decreases n,
{
    if n > 0 {
        lemma_earlier_checkpoints_hold(a, b, day, cutoff, n - 1);
        let p = n - 1;
        assert(days_ascend(a.part(p)));
        lemma_earlier_days(a.part(p), cutoff as int, day - 1);
        lemma_earlier_days(b.part(p), cutoff as int, day - 1);
        assert(residual(a, p, cutoff) == residual(b, p, cutoff));
    }
}

} // verus!
