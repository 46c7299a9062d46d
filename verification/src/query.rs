//! Queries over a packed table.
//!
//! A query names partitions: one, those of a client, or all. Each is folded on
//! its own and the results are summed. A query over a range of days starts from
//! the lots that a checkpoint carries in, where there is one.

use std::collections::VecDeque;
use vstd::prelude::*;
use crate::checkpoint::{residual, snapshot, Checkpoint};
use crate::fifo::{
    default_desk, fold_core, fold_frags, lots_wf, BucketRules, Fragment, FragmentSink, Lot,
    MatchPolicy, PartitionPnl,
};
use crate::matching::{
    accepts, all_tallyable, counted, drain, fold, in_window, joined, pick, step, tallies, took_all,
    Desk,
};
use crate::packed::{cut, days_ascend, days_between, PackedTable, PackedTrade, TableModel};

verus! {

/// Whose partitions a query is about.
#[derive(Clone, Copy, Debug)]
pub enum ClientSel {
    One(u64),
    All,
}

/// Which days a query counts.
#[derive(Clone, Copy, Debug)]
pub enum Span {
    /// The whole history.
    Full,
    /// Sells from the first day to the second, both included.
    Range(i32, i32),
}

#[derive(Clone, Copy, Debug)]
pub struct Query {
    pub clients: ClientSel,
    pub symbol: Option<u32>,
    pub span: Span,
}

/// What a query found, and what it cost.
#[derive(Clone, Copy, Debug)]
pub struct QueryResult {
    pub pnl: PartitionPnl,
    /// Records folded.
    pub rows_touched: u64,
    /// Partitions folded.
    pub partition_fanout: u64,
    /// Most records folded in one partition.
    pub max_partition_rows: u64,
    /// Partitions that a checkpoint carried lots into.
    pub checkpoints_loaded: u64,
}

impl Default for QueryResult {
    fn default() -> (r: Self)
        ensures
            r.pnl@ == tallies(Seq::empty()),
            r.rows_touched == 0,
            r.partition_fanout == 0,
            r.max_partition_rows == 0,
            r.checkpoints_loaded == 0,
    {
        QueryResult {
            pnl: PartitionPnl::default(),
            rows_touched: 0,
            partition_fanout: 0,
            max_partition_rows: 0,
            checkpoints_loaded: 0,
        }
    }
}

impl Query {
    /// Whether the query asks for this client and symbol.
    pub open spec fn wants(self, client: u64, symbol: u32) -> bool {
        &&& match self.clients {
            ClientSel::One(c) => client == c,
            ClientSel::All => true,
        }
        &&& match self.symbol {
            Some(s) => symbol == s,
            None => true,
        }
    }

    /// The fragments that the query counts.
    pub open spec fn window(self) -> Option<(i32, i32)> {
        match self.span {
            Span::Full => None,
            Span::Range(lo, hi) => Some((lo, hi)),
        }
    }
}

/// Those of the first `n` partitions that the query asks for.
pub open spec fn wanted(m: TableModel, q: Query, n: int) -> Seq<usize>
    decreases n,
{
    if n <= 0 {
        Seq::empty()
    } else {
        let before = wanted(m, q, n - 1);
        if q.wants(m.clients[n - 1], m.symbols[n - 1]) {
            before.push((n - 1) as usize)
        } else {
            before
        }
    }
}

/// What [`wanted`] holds: partitions that the query asks for, all of them, in
/// order.
pub proof fn lemma_wanted(m: TableModel, q: Query, n: int)
    requires
        0 <= n <= usize::MAX,
    ensures
        forall|i: int|
            0 <= i < wanted(m, q, n).len() ==> {
                &&& (#[trigger] wanted(m, q, n)[i]) < n
                &&& q.wants(m.clients[wanted(m, q, n)[i] as int], m.symbols[wanted(m, q, n)[i] as int])
            },
        forall|i: int, j: int|
            0 <= i < j < wanted(m, q, n).len() ==> wanted(m, q, n)[i] < wanted(m, q, n)[j],
        forall|p: int|
            0 <= p < n && q.wants(m.clients[p], #[trigger] m.symbols[p]) ==> wanted(
                m,
                q,
                n,
            ).contains(p as usize),
    decreases n,
{
    if n > 0 {
        lemma_wanted(m, q, n - 1);
        let before = wanted(m, q, n - 1);
        let now = wanted(m, q, n);
        assert forall|p: int|
            0 <= p < n && q.wants(m.clients[p], #[trigger] m.symbols[p]) implies now.contains(
            p as usize,
        ) by {
            if p < n - 1 {
                assert(before.contains(p as usize));
                let k = choose|k: int| 0 <= k < before.len() && before[k] == p as usize;
                assert(now[k] == p as usize);
            } else {
                assert(now[now.len() - 1] == p as usize);
            }
        }
    }
}

/// An ascending list of partitions that the query asks for, and of all of them,
/// is the list of those wanted.
proof fn lemma_wanted_unique(m: TableModel, q: Query, n: int, v: Seq<usize>)
    requires
        0 <= n <= usize::MAX,
        forall|i: int|
            0 <= i < v.len() ==> (#[trigger] v[i]) < n && q.wants(
                m.clients[v[i] as int],
                m.symbols[v[i] as int],
            ),
        forall|i: int, j: int| 0 <= i < j < v.len() ==> v[i] < v[j],
        forall|p: int|
            0 <= p < n && q.wants(m.clients[p], #[trigger] m.symbols[p]) ==> v.contains(
                p as usize,
            ),
    ensures
        v == wanted(m, q, n),
    decreases n,
{
    if n <= 0 {
        if v.len() > 0 {
            assert(v[0] < n);
        }
        assert(v =~= wanted(m, q, n));
    } else {
        let last = n - 1;
        if q.wants(m.clients[last], m.symbols[last]) {
            assert(v.contains(last as usize));
            let k = choose|k: int| 0 <= k < v.len() && v[k] == last as usize;
            if k < v.len() - 1 {
                assert(v[k] < v[v.len() - 1]);
            }
            let head = v.drop_last();
            assert forall|p: int|
                0 <= p < last && q.wants(m.clients[p], #[trigger] m.symbols[p]) implies head.contains(
                p as usize,
            ) by {
                assert(v.contains(p as usize));
                let j = choose|j: int| 0 <= j < v.len() && v[j] == p as usize;
                assert(head[j] == p as usize);
            }
            assert forall|i: int| 0 <= i < head.len() implies (#[trigger] head[i]) < last
                && q.wants(m.clients[head[i] as int], m.symbols[head[i] as int]) by {
                assert(v[i] < v[v.len() - 1]);
            }
            lemma_wanted_unique(m, q, last, head);
            assert(v =~= wanted(m, q, n));
        } else {
            assert forall|i: int| 0 <= i < v.len() implies (#[trigger] v[i]) < last && q.wants(
                m.clients[v[i] as int],
                m.symbols[v[i] as int],
            ) by {
                assert(v[i] < n);
            }
            lemma_wanted_unique(m, q, last, v);
        }
    }
}

/// The table is in the order that lookups rely on.
pub open spec fn searchable(m: TableModel, q: Query) -> bool {
    m.sorted() || q.clients is All
}

/// The partitions that a query asks for, in order.
pub fn select_partitions(table: &PackedTable, q: &Query) -> (r: Vec<usize>)
    requires
        table@.wf(),
        searchable(table@, *q),
    ensures
        r@ == wanted(table@, *q, table@.n_parts),
        forall|i: int, j: int| 0 <= i < j < r@.len() ==> r@[i] < r@[j],
        forall|i: int| 0 <= i < r@.len() ==> (#[trigger] r@[i]) < table@.n_parts,
        forall|p: int|
            0 <= p < table@.n_parts ==> (#[trigger] r@.contains(p as usize) <==> {
                &&& q.clients matches ClientSel::One(c) ==> table@.clients[p] == c
                &&& q.symbol matches Some(s) ==> table@.symbols[p] == s
            }),
{
    let ghost m = table@;
    let n_parts: usize = table.part_client().len();
    let mut r: Vec<usize> = Vec::new();
    match (q.clients, q.symbol) {
        (ClientSel::One(c), Some(s)) => {
            match table.find_partition(c, s) {
                Some(p) => {
                    r.push(p);
                    proof {
                        assert forall|k: int|
                            0 <= k < m.n_parts && q.wants(
                                m.clients[k],
                                #[trigger] m.symbols[k],
                            ) implies r@.contains(k as usize) by {
                            if k < p {
                                assert(m.key_before(k, p as int));
                            } else if k > p {
                                assert(m.key_before(p as int, k));
                            }
                            assert(r@[0] == k as usize);
                        }
                    }
                },
                None => {
                    proof {
                        assert forall|k: int|
                            0 <= k < m.n_parts && q.wants(
                                m.clients[k],
                                #[trigger] m.symbols[k],
                            ) implies r@.contains(k as usize) by {
                            assert(m.is_part(k, c, s));
                        }
                    }
                },
            }
            proof {
                lemma_wanted_unique(m, *q, m.n_parts, r@);
            }
        },
        (ClientSel::One(c), None) => {
            let range = table.partitions_for_client(c);
            proof {
                crate::packed::lemma_sorted_clients(m);
            }
            let mut p: usize = range.start;
            while p < range.end
                invariant
                    range.start <= p <= range.end <= m.n_parts,
                    r@.len() == p - range.start,
                    forall|i: int| 0 <= i < r@.len() ==> #[trigger] r@[i] == range.start + i,
                decreases range.end - p,
            {
                r.push(p);
                p = p + 1;
            }
            proof {
                assert forall|i: int| 0 <= i < r@.len() implies (#[trigger] r@[i]) < m.n_parts
                    && q.wants(m.clients[r@[i] as int], m.symbols[r@[i] as int]) by {
                    let k = range.start + i;
                    assert(m.clients[k] <= c && !(m.clients[k] < c));
                }
                assert forall|k: int|
                    0 <= k < m.n_parts && q.wants(
                        m.clients[k],
                        #[trigger] m.symbols[k],
                    ) implies r@.contains(k as usize) by {
                    assert(m.clients[k] == c);
                    assert(range.start <= k < range.end);
                    assert(r@[k - range.start] == k as usize);
                }
                lemma_wanted_unique(m, *q, m.n_parts, r@);
            }
        },
        (ClientSel::All, sym) => {
            let ps = table.part_symbol();
            let mut p: usize = 0;
            while p < n_parts
                invariant
                    p <= n_parts,
                    m == table@,
                    m.wf(),
                    n_parts == m.n_parts,
                    ps@ == m.symbols,
                    q.clients is All,
                    q.symbol == sym,
                    r@ == wanted(m, *q, p as int),
                decreases n_parts - p,
            {
                let take = match sym {
                    Some(s) => ps[p] == s,
                    None => true,
                };
                if take {
                    r.push(p);
                }
                p = p + 1;
            }
        },
    }
    proof {
        lemma_wanted(m, *q, m.n_parts);
        assert forall|p: int| 0 <= p < m.n_parts implies (#[trigger] r@.contains(p as usize) <==> {
            &&& q.clients matches ClientSel::One(c) ==> m.clients[p] == c
            &&& q.symbol matches Some(s) ==> m.symbols[p] == s
        }) by {
            if q.wants(m.clients[p], m.symbols[p]) {
                assert(r@.contains(p as usize));
            }
        }
    }
    r
}

/// The lots that a fold of partition `p` starts from.
pub open spec fn start_lots(m: TableModel, ckpt: Option<Checkpoint>, q: Query, p: int) -> Seq<Lot> {
    match (q.span, ckpt) {
        (Span::Range(_, _), Some(c)) => c.carried(m.clients[p], m.symbols[p]),
        _ => Seq::empty(),
    }
}

/// The first day after the checkpoint's cutoff, or the first of all where there is
/// no checkpoint.
pub open spec fn first_day(ckpt: Option<Checkpoint>) -> int {
    match ckpt {
        Some(c) => if c.cutoff_day < i32::MAX {
            c.cutoff_day + 1
        } else {
            i32::MAX as int
        },
        None => i32::MIN as int,
    }
}

/// The records of partition `p` that a query folds.
pub open spec fn replayed(m: TableModel, ckpt: Option<Checkpoint>, q: Query, p: int) -> Seq<
    PackedTrade,
> {
    match q.span {
        Span::Full => m.part(p),
        Span::Range(lo, hi) => days_between(m.part(p), first_day(ckpt), hi as int),
    }
}

/// The desk at which partition `p` is folded.
pub open spec fn desk_of(m: TableModel, rules: BucketRules, policy: MatchPolicy, p: int) -> Desk {
    Desk { client: m.clients[p], symbol: m.symbols[p], rules, policy }
}

/// The fragments that a query counts in partition `p`.
pub open spec fn part_frags(
    m: TableModel,
    ckpt: Option<Checkpoint>,
    q: Query,
    rules: BucketRules,
    policy: MatchPolicy,
    p: int,
) -> Seq<Fragment> {
    fold_frags(
        desk_of(m, rules, policy, p),
        start_lots(m, ckpt, q, p),
        replayed(m, ckpt, q, p),
        q.window(),
    )
}

/// The fragments that a query counts, partition by partition.
pub open spec fn query_frags(
    m: TableModel,
    ckpt: Option<Checkpoint>,
    q: Query,
    rules: BucketRules,
    policy: MatchPolicy,
) -> Seq<Seq<Fragment>> {
    Seq::new(
        wanted(m, q, m.n_parts).len(),
        |i: int| part_frags(m, ckpt, q, rules, policy, wanted(m, q, m.n_parts)[i] as int),
    )
}

/// The records that a query folds in the first `k` of its partitions.
pub open spec fn rows_upto(m: TableModel, ckpt: Option<Checkpoint>, q: Query, k: int) -> int
    decreases k,
{
    if k <= 0 {
        0
    } else {
        rows_upto(m, ckpt, q, k - 1) + replayed(
            m,
            ckpt,
            q,
            wanted(m, q, m.n_parts)[k - 1] as int,
        ).len()
    }
}

/// The most records that a query folds in one of its first `k` partitions.
pub open spec fn most_upto(m: TableModel, ckpt: Option<Checkpoint>, q: Query, k: int) -> int
    decreases k,
{
    if k <= 0 {
        0
    } else {
        let before = most_upto(m, ckpt, q, k - 1);
        let n = replayed(m, ckpt, q, wanted(m, q, m.n_parts)[k - 1] as int).len() as int;
        if n > before {
            n
        } else {
            before
        }
    }
}

/// How many of the query's first `k` partitions start with lots carried in.
pub open spec fn loaded_upto(m: TableModel, ckpt: Option<Checkpoint>, q: Query, k: int) -> int
    decreases k,
{
    if k <= 0 {
        0
    } else {
        loaded_upto(m, ckpt, q, k - 1) + (if start_lots(
            m,
            ckpt,
            q,
            wanted(m, q, m.n_parts)[k - 1] as int,
        ).len() > 0 {
            1int
        } else {
            0int
        })
    }
}

/// What a partition must be for a query to fold it: for a range of days, in day
/// order, with lots that hold no negative quantity, and with days that the
/// replay does not run backwards over.
pub open spec fn part_ready(m: TableModel, ckpt: Option<Checkpoint>, q: Query, p: int) -> bool {
    q.span matches Span::Range(lo, hi) ==> {
        &&& days_ascend(m.part(p))
        &&& cut(m.part(p), first_day(ckpt)) <= cut(m.part(p), hi + 1)
        &&& lots_wf(start_lots(m, ckpt, q, p))
    }
}

pub open spec fn deref_ckpt(ckpt: Option<&Checkpoint>) -> Option<Checkpoint> {
    match ckpt {
        Some(c) => Some(*c),
        None => None,
    }
}

/// Answer a query: fold the partitions it asks for and sum the results.
///
/// `ckpt` is the checkpoint to start from, one with a cutoff before the first
/// day of the range. A query over the whole history starts from nothing.
#[verifier::spinoff_prover]
pub fn run_cpu<S: FragmentSink>(
    table: &PackedTable,
    ckpt: Option<&Checkpoint>,
    q: &Query,
    sink: &mut S,
    rules: &BucketRules,
    policy: MatchPolicy,
) -> (out: QueryResult)
    requires
        table@.wf(),
        searchable(table@, *q),
        rules.wf(),
        forall|p: int|
            0 <= p < table@.n_parts && q.wants(table@.clients[p], #[trigger] table@.symbols[p])
                ==> part_ready(table@, deref_ckpt(ckpt), *q, p),
        all_tallyable(query_frags(table@, deref_ckpt(ckpt), *q, *rules, policy)),
        accepts(
            *old(sink),
            joined(query_frags(table@, deref_ckpt(ckpt), *q, *rules, policy)),
        ),
    ensures
        ({
            let c = deref_ckpt(ckpt);
            let frags = joined(query_frags(table@, c, *q, *rules, policy));
            let n = wanted(table@, *q, table@.n_parts).len() as int;
            &&& out.pnl@ == tallies(frags)
            &&& took_all(*old(sink), frags, *final(sink))
            &&& out.rows_touched == rows_upto(table@, c, *q, n)
            &&& out.partition_fanout == n
            &&& out.max_partition_rows == most_upto(table@, c, *q, n)
            &&& out.checkpoints_loaded == loaded_upto(table@, c, *q, n)
        }),
{
    let ghost m = table@;
    let ghost c = deref_ckpt(ckpt);
    let ghost sink0 = *sink;
    let ghost fss = query_frags(m, c, *q, *rules, policy);
    let pc = table.part_client();
    let ps = table.part_symbol();
    let n_parts: usize = pc.len();
    let parts: Vec<usize> = select_partitions(table, q);
    let from: i32 = match ckpt {
        Some(snap) => if snap.cutoff_day < i32::MAX {
            snap.cutoff_day + 1
        } else {
            i32::MAX
        },
        None => i32::MIN,
    };
    let n_rows: u64 = table.n_rows();
    let n: usize = parts.len();
    let mut out = QueryResult::default();
    let mut i: usize = 0;
    proof {
        lemma_wanted(m, *q, m.n_parts);
        assert(fss.take(0) =~= Seq::empty());
    }
    while i < n
        invariant
            m == table@,
            m.wf(),
            c == deref_ckpt(ckpt),
            pc@ == m.clients,
            ps@ == m.symbols,
            rules.wf(),
            n_rows == m.n_rows,
            parts@ == wanted(m, *q, m.n_parts),
            n == parts@.len(),
            i <= n,
            from == first_day(c),
            fss == query_frags(m, c, *q, *rules, policy),
            all_tallyable(fss),
            accepts(sink0, joined(fss)),
            forall|k: int|
                0 <= k < parts@.len() ==> (#[trigger] parts@[k]) < m.n_parts && q.wants(
                    m.clients[parts@[k] as int],
                    m.symbols[parts@[k] as int],
                ),
            forall|a: int, b: int| 0 <= a < b < parts@.len() ==> parts@[a] < parts@[b],
            forall|p: int|
                0 <= p < m.n_parts && q.wants(m.clients[p], #[trigger] m.symbols[p])
                    ==> part_ready(m, c, *q, p),
            out.pnl@ == tallies(joined(fss.take(i as int))),
            took_all(sink0, joined(fss.take(i as int)), *sink),
            out.rows_touched == rows_upto(m, c, *q, i as int),
            i == 0 ==> out.rows_touched == 0,
            i > 0 ==> out.rows_touched <= m.offsets[parts@[i - 1] + 1],
            out.partition_fanout == i,
            out.max_partition_rows == most_upto(m, c, *q, i as int),
            out.checkpoints_loaded == loaded_upto(m, c, *q, i as int),
            out.checkpoints_loaded <= i,
        decreases n - i,
    {
        let p: usize = parts[i];
        let ghost mid = *sink;
        assert(parts@[i as int] < m.n_parts);
        assert(m.symbols[p as int] == ps@[p as int]);
        assert(part_ready(m, c, *q, p as int));
        assert(fss[i as int] == part_frags(m, c, *q, *rules, policy, p as int));
        proof {
            crate::matching::lemma_accepts_next(sink0, fss, i as int, mid);
            lemma_replayed_len(m, c, *q, p as int);
            if i > 0 {
                assert(parts@[i - 1] < parts@[i as int]);
                assert(m.offsets[parts@[i - 1] + 1] <= m.offsets[p as int]);
            }
            assert(m.offsets[p + 1] <= m.offsets[m.n_parts]);
        }
        let client: u64 = pc[p];
        let symbol: u32 = ps[p];
        let recs = table.partition(p);
        let mut touched: u64 = 0;
        let part_pnl = match q.span {
            Span::Full => {
                touched = recs.len() as u64;
                let mut carry: VecDeque<Lot> = VecDeque::new();
                fold_core(client, symbol, &mut carry, recs, sink, None, rules, policy)
            },
            Span::Range(lo, hi) => {
                let mut carry: VecDeque<Lot> = match ckpt {
                    Some(snap) => snap.carry_for(client, symbol),
                    None => VecDeque::new(),
                };
                if carry.len() > 0 {
                    out.checkpoints_loaded = out.checkpoints_loaded + 1;
                }
                let replay = table.day_range(recs, from, hi);
                touched = replay.len() as u64;
                fold_core(
                    client,
                    symbol,
                    &mut carry,
                    replay,
                    sink,
                    Some((lo, hi)),
                    rules,
                    policy,
                )
            },
        };
        assert(touched == replayed(m, c, *q, p as int).len());
        out.rows_touched = out.rows_touched + touched;
        if touched > out.max_partition_rows {
            out.max_partition_rows = touched;
        }
        proof {
            crate::matching::lemma_took_append(
                sink0,
                joined(fss.take(i as int)),
                mid,
                fss[i as int],
                *sink,
            );
            crate::fifo::lemma_merge_next(fss, i as int);
        }
        out.pnl.merge(&part_pnl);
        out.partition_fanout = out.partition_fanout + 1;
        i = i + 1;
    }
    assert(fss.take(fss.len() as int) =~= fss);
    out
}

/// A query folds no more records than a partition has.
pub proof fn lemma_replayed_len(m: TableModel, ckpt: Option<Checkpoint>, q: Query, p: int)
    requires
        m.wf(),
        0 <= p < m.n_parts,
        part_ready(m, ckpt, q, p),
    ensures
        replayed(m, ckpt, q, p).len() <= m.offsets[p + 1] - m.offsets[p],
{
    assert(m.offsets[p] <= m.offsets[p + 1]);
    assert(m.offsets[p + 1] <= m.offsets[m.n_parts]);
    match q.span {
        Span::Full => {},
        Span::Range(lo, hi) => {
            crate::packed::lemma_cut(m.part(p), first_day(ckpt));
            crate::packed::lemma_cut(m.part(p), hi + 1);
        },
    }
}

// ---------------------------------------------------------------------------
// Laws
// ---------------------------------------------------------------------------

proof fn lemma_drain_lots_by_policy(
    a: Desk,
    b: Desk,
    lots: Seq<Lot>,
    remaining: int,
    sell: PackedTrade,
)
    requires
        a.policy == b.policy,
    ensures
        drain(a, lots, remaining, sell).0 == drain(b, lots, remaining, sell).0,
    decreases lots.len(),
{
    if remaining > 0 && lots.len() > 0 {
        crate::matching::lemma_pick_in_range(lots, a.policy);
        let i = pick(lots, a.policy);
        if lots[i].qty <= remaining {
            lemma_drain_lots_by_policy(a, b, lots.remove(i), remaining - lots[i].qty, sell);
        }
    }
}

/// Which lots stay open depends on the policy alone: neither the rules nor the
/// owner change it. A checkpoint built under one set of rules serves them all.
pub proof fn lemma_lots_by_policy(a: Desk, b: Desk, lots: Seq<Lot>, recs: Seq<PackedTrade>)
    requires
        a.policy == b.policy,
    ensures
        fold(a, lots, recs).0 == fold(b, lots, recs).0,
    decreases recs.len(),
{
    if recs.len() > 0 {
        let head = recs.drop_last();
        let r = recs.last();
        lemma_lots_by_policy(a, b, lots, head);
        if r.signed_qty <= 0 {
            lemma_drain_lots_by_policy(a, b, fold(a, lots, head).0, -(r.signed_qty as int), r);
        }
    }
}

/// Fragments are sold on the days of the records.
proof fn lemma_fold_sell_days(desk: Desk, lots: Seq<Lot>, recs: Seq<PackedTrade>, lo: int, hi: int)
    requires
        forall|i: int| 0 <= i < recs.len() ==> lo <= (#[trigger] recs[i]).day <= hi,
    ensures
        forall|k: int|
            0 <= k < fold(desk, lots, recs).1.len() ==> lo <= (#[trigger] fold(
                desk,
                lots,
                recs,
            ).1[k]).sell_day <= hi,
    decreases recs.len(),
{
    if recs.len() > 0 {
        let head = recs.drop_last();
        let r = recs.last();
        assert(r == recs[recs.len() - 1]);
        assert forall|i: int| 0 <= i < head.len() implies lo <= (#[trigger] head[i]).day <= hi by {
            assert(head[i] == recs[i]);
        }
        lemma_fold_sell_days(desk, lots, head, lo, hi);
        let before = fold(desk, lots, head);
        let last = step(desk, before.0, r);
        if r.signed_qty <= 0 {
            crate::matching::lemma_drain_day(desk, before.0, -(r.signed_qty as int), r);
        }
        let all = fold(desk, lots, recs).1;
        assert forall|k: int| 0 <= k < all.len() implies lo <= (#[trigger] all[k]).sell_day
            <= hi by {
            if k < before.1.len() {
                assert(all[k] == before.1[k]);
            } else {
                assert(all[k] == last.1[k - before.1.len()]);
            }
        }
    }
}

/// Fragments sold outside the window do not count.
proof fn lemma_none_counted(fs: Seq<Fragment>, count: Option<(i32, i32)>)
    requires
        forall|k: int| 0 <= k < fs.len() ==> !in_window(count, (#[trigger] fs[k]).sell_day),
    ensures
        counted(fs, count) == Seq::<Fragment>::empty(),
    decreases fs.len(),
{
    reveal(Seq::filter);
    if fs.len() > 0 {
        let head = fs.drop_last();
        assert(!in_window(count, fs[fs.len() - 1].sell_day));
        assert forall|k: int| 0 <= k < head.len() implies !in_window(
            count,
            (#[trigger] head[k]).sell_day,
        ) by {
            assert(head[k] == fs[k]);
        }
        lemma_none_counted(head, count);
    }
}

/// The fragments that a range counts, were the whole history folded.
pub open spec fn range_truth(
    m: TableModel,
    rules: BucketRules,
    policy: MatchPolicy,
    p: int,
    lo: i32,
    hi: i32,
) -> Seq<Fragment> {
    fold_frags(desk_of(m, rules, policy, p), Seq::empty(), m.part(p), Some((lo, hi)))
}

/// Replaying the days from `from` to `hi` on the lots left open by the days
/// before counts what folding the whole history counts.
proof fn lemma_replay(
    desk: Desk,
    recs: Seq<PackedTrade>,
    from: int,
    lo: i32,
    hi: i32,
)
    requires
        days_ascend(recs),
        from <= lo,
    ensures
        fold_frags(
            desk,
            fold(desk, Seq::empty(), recs.take(cut(recs, from))).0,
            days_between(recs, from, hi as int),
            Some((lo, hi)),
        ) == fold_frags(desk, Seq::empty(), recs, Some((lo, hi))),
{
    let w = Some((lo, hi));
    let s = cut(recs, from);
    let e = cut(recs, hi + 1);
    if lo > hi {
        let start = fold(desk, Seq::empty(), recs.take(s)).0;
        lemma_none_counted(fold(desk, start, days_between(recs, from, hi as int)).1, w);
        lemma_none_counted(fold(desk, Seq::empty(), recs).1, w);
    } else {
        crate::packed::lemma_cut(recs, from);
        crate::packed::lemma_cut(recs, hi + 1);
        crate::packed::lemma_cut_mono(recs, from, hi + 1);
        let a = recs.take(s);
        let b = recs.subrange(s, e);
        let c = recs.skip(e);
        assert(recs =~= a + (b + c));
        let fa = fold(desk, Seq::empty(), a);
        let fb = fold(desk, fa.0, b);
        let fc = fold(desk, fb.0, c);
        crate::matching::lemma_fold_append(desk, Seq::empty(), a, b + c);
        crate::matching::lemma_fold_append(desk, fa.0, b, c);
        assert(fold(desk, Seq::empty(), recs).1 == fa.1 + (fb.1 + fc.1));
        crate::matching::lemma_counted_append(fa.1, fb.1 + fc.1, w);
        crate::matching::lemma_counted_append(fb.1, fc.1, w);
        assert forall|i: int| 0 <= i < a.len() implies i32::MIN <= (#[trigger] a[i]).day <= from
            - 1 by {
            assert(a[i] == recs[i]);
        }
        lemma_fold_sell_days(desk, Seq::empty(), a, i32::MIN as int, from - 1);
        lemma_none_counted(fa.1, w);
        assert forall|i: int| 0 <= i < c.len() implies hi + 1 <= (#[trigger] c[i]).day <= i32::MAX by {
            assert(c[i] == recs[e + i]);
        }
        lemma_fold_sell_days(desk, fb.0, c, hi + 1, i32::MAX as int);
        lemma_none_counted(fc.1, w);
        assert(counted(fold(desk, Seq::empty(), recs).1, w) =~= counted(fb.1, w));
    }
}

/// A range answered from a checkpoint is the range's truth: in each partition it
/// counts what folding the whole history counts.
///
/// The checkpoint must be one that the table gives at a cutoff before the range,
/// and the policy first in, first out, for which checkpoints are built.
pub proof fn lemma_checkpoint_is_truth(
    m: TableModel,
    ckpt: Checkpoint,
    q: Query,
    rules: BucketRules,
    p: int,
    lo: i32,
    hi: i32,
)
    requires
        m.wf(),
        m.distinct(),
        0 <= p < m.n_parts,
        days_ascend(m.part(p)),
        q.span == Span::Range(lo, hi),
        ckpt.cutoff_day < lo,
        lo <= hi || cut(m.part(p), first_day(Some(ckpt))) <= cut(m.part(p), hi + 1),
        ckpt@ == snapshot(m, ckpt.cutoff_day, m.n_parts),
    ensures
        part_frags(m, Some(ckpt), q, rules, MatchPolicy::Fifo, p) == range_truth(
            m,
            rules,
            MatchPolicy::Fifo,
            p,
            lo,
            hi,
        ),
        part_ready(m, Some(ckpt), q, p),
{
    let recs = m.part(p);
    let desk = desk_of(m, rules, MatchPolicy::Fifo, p);
    let base = default_desk(m.clients[p], m.symbols[p]);
    let from = first_day(Some(ckpt));
    assert(from == ckpt.cutoff_day + 1);
    crate::packed::lemma_cut(recs, i32::MIN as int);
    crate::packed::lemma_cut(recs, from);
    if lo <= hi {
        crate::packed::lemma_cut_mono(recs, from, hi + 1);
    }
    let first = cut(recs, i32::MIN as int);
    assert(first == 0) by {
        if first > 0 {
            assert(recs[0].day < i32::MIN);
        }
    }
    assert(days_between(recs, i32::MIN as int, ckpt.cutoff_day as int) =~= recs.take(
        cut(recs, from),
    ));
    lemma_lots_by_policy(base, desk, Seq::empty(), recs.take(cut(recs, from)));
    crate::checkpoint::lemma_snapshot_holds_residuals(m, ckpt.cutoff_day, m.n_parts, p);
    assert(ckpt.carried(m.clients[p], m.symbols[p]) =~= residual(m, p, ckpt.cutoff_day));
    crate::shares::lemma_fold_lots_wf(desk, Seq::empty(), recs.take(cut(recs, from)));
    lemma_replay(desk, recs, from, lo, hi);
}

/// Without a checkpoint a range is its truth too, whatever the policy.
pub proof fn lemma_no_checkpoint_is_truth(
    m: TableModel,
    q: Query,
    rules: BucketRules,
    policy: MatchPolicy,
    p: int,
    lo: i32,
    hi: i32,
)
    requires
        days_ascend(m.part(p)),
        q.span == Span::Range(lo, hi),
    ensures
        part_frags(m, None, q, rules, policy, p) == range_truth(m, rules, policy, p, lo, hi),
        part_ready(m, None, q, p),
{
    let recs = m.part(p);
    let desk = desk_of(m, rules, policy, p);
    let from = i32::MIN as int;
    crate::packed::lemma_cut(recs, from);
    crate::packed::lemma_cut_mono(recs, from, hi + 1);
    assert(cut(recs, from) == 0) by {
        if cut(recs, from) > 0 {
            assert(recs[0].day < from);
        }
    }
    assert(recs.take(0) =~= Seq::empty());
    lemma_replay(desk, recs, from, lo, hi);
}

/// A range costs the range: a query answered from a checkpoint folds only
/// records after the cutoff and not past the range, however long the history.
pub proof fn lemma_replay_is_bounded(m: TableModel, ckpt: Checkpoint, q: Query, p: int, i: int)
    requires
        m.wf(),
        0 <= p < m.n_parts,
        part_ready(m, Some(ckpt), q, p),
        q.span matches Span::Range(lo, hi) && ckpt.cutoff_day < lo,
        0 <= i < replayed(m, Some(ckpt), q, p).len(),
    ensures
        q.span matches Span::Range(lo, hi) && ckpt.cutoff_day < replayed(
            m,
            Some(ckpt),
            q,
            p,
        )[i].day <= hi,
{
    match q.span {
        Span::Full => {},
        Span::Range(lo, hi) => {
            let recs = m.part(p);
            crate::packed::lemma_cut(recs, first_day(Some(ckpt)));
            crate::packed::lemma_cut(recs, hi + 1);
            assert(replayed(m, Some(ckpt), q, p)[i] == recs[cut(recs, first_day(Some(ckpt))) + i]);
        },
    }
}

/// What a query for a range needs so that a checkpoint does not change its answer:
/// days in order in what it asks for, and a checkpoint that the table gives at a cutoff
/// before the range. Where the range is empty, the replay must still not run backwards.
pub open spec fn served_by(m: TableModel, ckpt: Checkpoint, q: Query) -> bool {
    q.span matches Span::Range(lo, hi) ==> {
        &&& ckpt.cutoff_day < lo
        &&& ckpt@ == snapshot(m, ckpt.cutoff_day, m.n_parts)
        &&& forall|p: int|
            0 <= p < m.n_parts && q.wants(m.clients[p], #[trigger] m.symbols[p]) ==> {
                &&& days_ascend(m.part(p))
                &&& lo <= hi || cut(m.part(p), first_day(Some(ckpt))) <= cut(m.part(p), hi + 1)
            }
    }
}

/// A checkpoint changes the cost of a query and nothing else: with it and without,
/// the same fragments are counted in the same order, in the same partitions, and for
/// a range they are those of the whole history that were sold within it.
pub proof fn lemma_checkpoint_changes_nothing(
    m: TableModel,
    ckpt: Checkpoint,
    q: Query,
    rules: BucketRules,
)
    requires
        m.wf(),
        m.distinct(),
        m.n_parts <= usize::MAX,
        served_by(m, ckpt, q),
    ensures
        query_frags(m, Some(ckpt), q, rules, MatchPolicy::Fifo) == query_frags(
            m,
            None,
            q,
            rules,
            MatchPolicy::Fifo,
        ),
        q.span matches Span::Range(lo, hi) ==> query_frags(
            m,
            None,
            q,
            rules,
            MatchPolicy::Fifo,
        ) == Seq::new(
            wanted(m, q, m.n_parts).len(),
            |i: int|
                range_truth(
                    m,
                    rules,
                    MatchPolicy::Fifo,
                    wanted(m, q, m.n_parts)[i] as int,
                    lo,
                    hi,
                ),
        ),
        forall|p: int|
            0 <= p < m.n_parts && q.wants(m.clients[p], #[trigger] m.symbols[p]) ==> part_ready(
                m,
                Some(ckpt),
                q,
                p,
            ) && part_ready(m, None, q, p),
{
    let ps = wanted(m, q, m.n_parts);
    let with = query_frags(m, Some(ckpt), q, rules, MatchPolicy::Fifo);
    let without = query_frags(m, None, q, rules, MatchPolicy::Fifo);
    lemma_wanted(m, q, m.n_parts);
    match q.span {
        Span::Full => {
            assert forall|i: int| 0 <= i < ps.len() implies with[i] == without[i] by {}
        },
        Span::Range(lo, hi) => {
            assert forall|p: int|
                0 <= p < m.n_parts && q.wants(m.clients[p], #[trigger] m.symbols[p]) implies {
                &&& part_ready(m, Some(ckpt), q, p)
                &&& part_ready(m, None, q, p)
                &&& part_frags(m, Some(ckpt), q, rules, MatchPolicy::Fifo, p) == range_truth(
                    m,
                    rules,
                    MatchPolicy::Fifo,
                    p,
                    lo,
                    hi,
                )
                &&& part_frags(m, None, q, rules, MatchPolicy::Fifo, p) == range_truth(
                    m,
                    rules,
                    MatchPolicy::Fifo,
                    p,
                    lo,
                    hi,
                )
            } by {
                lemma_checkpoint_is_truth(m, ckpt, q, rules, p, lo, hi);
                lemma_no_checkpoint_is_truth(m, q, rules, MatchPolicy::Fifo, p, lo, hi);
            }
            let truth = Seq::new(
                ps.len(),
                |i: int| range_truth(m, rules, MatchPolicy::Fifo, ps[i] as int, lo, hi),
            );
            assert forall|i: int| 0 <= i < ps.len() implies with[i] == truth[i] && without[i]
                == truth[i] by {
                let p = ps[i] as int;
                assert(q.wants(m.clients[p], m.symbols[p]));
            }
            assert(without =~= truth);
        },
    }
    assert(with =~= without);
}

/// A checkpoint never costs: a query that starts from one folds no more records than
/// without it, neither in all nor in any one partition.
pub proof fn lemma_checkpoint_saves_rows(m: TableModel, ckpt: Checkpoint, q: Query, k: int)
    requires
        m.wf(),
        m.n_parts <= usize::MAX,
        forall|p: int|
            0 <= p < m.n_parts && q.wants(m.clients[p], #[trigger] m.symbols[p]) ==> part_ready(
                m,
                Some(ckpt),
                q,
                p,
            ) && part_ready(m, None, q, p),
        0 <= k <= wanted(m, q, m.n_parts).len(),
    ensures
        rows_upto(m, Some(ckpt), q, k) <= rows_upto(m, None, q, k),
        most_upto(m, Some(ckpt), q, k) <= most_upto(m, None, q, k),
    decreases k,
{
    if k > 0 {
        lemma_checkpoint_saves_rows(m, ckpt, q, k - 1);
        lemma_wanted(m, q, m.n_parts);
        let p = wanted(m, q, m.n_parts)[k - 1] as int;
        assert(q.wants(m.clients[p], m.symbols[p]));
        match q.span {
            Span::Full => {},
            Span::Range(lo, hi) => {
                let recs = m.part(p);
                crate::packed::lemma_cut(recs, first_day(None));
                crate::packed::lemma_cut(recs, first_day(Some(ckpt)));
                crate::packed::lemma_cut(recs, hi + 1);
                crate::packed::lemma_cut_mono(recs, first_day(None), first_day(Some(ckpt)));
            },
        }
    }
}

} // verus!
