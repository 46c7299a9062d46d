//! Rows in tradebook order, and the runs of equal client and symbol in them.

use vstd::prelude::*;
use crate::packed::{days_ascend, packable, packed_of, PackedBuilder, PackedTrade, TableModel};
use crate::schema::Trade;

verus! {

/// A record and whose it is.
#[derive(Clone, Copy, Debug, PartialEq, Eq, Structural)]
pub struct Row {
    pub client: u64,
    pub symbol: u32,
    pub rec: PackedTrade,
}

/// The row of a trade.
pub open spec fn row_of(t: Trade) -> Row {
    Row { client: t.client_id, symbol: t.symbol_id, rec: packed_of(t) }
}

impl Row {
    /// The row of a trade.
    pub fn from_trade(t: &Trade) -> (r: Self)
        requires
            packable(*t),
        ensures
            r == row_of(*t),
            r.client == t.client_id,
            r.symbol == t.symbol_id,
            r.rec.price_ticks == t.price_ticks,
            t.quantity < 0x8000_0000 ==> r.rec.signed_qty == t.side * t.quantity,
    {
        Row { client: t.client_id, symbol: t.symbol_id, rec: PackedTrade::from_trade(t) }
    }
}

/// The records of a client and symbol that stand together.
#[verifier::ext_equal]
pub struct Run {
    pub client: u64,
    pub symbol: u32,
    pub recs: Seq<PackedTrade>,
}

pub open spec fn same_key(a: Row, b: Row) -> bool {
    a.client == b.client && a.symbol == b.symbol
}

/// One more row: it belongs to the last run, or starts a new one.
pub open spec fn extended(rs: Seq<Run>, r: Row) -> Seq<Run> {
    if rs.len() > 0 && rs.last().client == r.client && rs.last().symbol == r.symbol {
        rs.drop_last().push(
            Run { client: r.client, symbol: r.symbol, recs: rs.last().recs.push(r.rec) },
        )
    } else {
        rs.push(Run { client: r.client, symbol: r.symbol, recs: seq![r.rec] })
    }
}

/// The runs of a sequence of rows.
pub open spec fn runs(rows: Seq<Row>) -> Seq<Run>
    decreases rows.len(),
{
    if rows.len() == 0 {
        Seq::empty()
    } else {
        extended(runs(rows.drop_last()), rows.last())
    }
}

/// The records of rows.
pub open spec fn recs_of(rows: Seq<Row>) -> Seq<PackedTrade> {
    rows.map_values(|r: Row| r.rec)
}

pub proof fn lemma_last_key(rows: Seq<Row>)
    requires
        rows.len() > 0,
    ensures
        runs(rows).len() > 0,
        runs(rows).last().client == rows.last().client,
        runs(rows).last().symbol == rows.last().symbol,
{
}

/// A run starts at `from`: the row before it, if any, has another key.
pub open spec fn starts_run(rows: Seq<Row>, from: int) -> bool {
    &&& 0 <= from <= rows.len()
    &&& 0 < from < rows.len() ==> !same_key(rows[from - 1], rows[from])
}

/// The run that starts at `from`: its records, and where it ends.
pub fn next_run(rows: &[Row], from: usize) -> (r: (Vec<PackedTrade>, usize))
    requires
        from < rows@.len(),
        starts_run(rows@, from as int),
    ensures
        from < r.1 <= rows@.len(),
        starts_run(rows@, r.1 as int),
        r.0@.len() == r.1 - from,
        r.0@ == recs_of(rows@.subrange(from as int, r.1 as int)),
        runs(rows@.take(r.1 as int)) == runs(rows@.take(from as int)).push(
            Run {
                client: rows@[from as int].client,
                symbol: rows@[from as int].symbol,
                recs: r.0@,
            },
        ),
{
    let first: Row = rows[from];
    let mut recs: Vec<PackedTrade> = Vec::new();
    recs.push(first.rec);
    let mut to: usize = from + 1;
    let ghost before = runs(rows@.take(from as int));
    proof {
        assert(rows@.take(from + 1).drop_last() =~= rows@.take(from as int));
        if from > 0 {
            lemma_last_key(rows@.take(from as int));
            assert(rows@.take(from as int).last() == rows@[from - 1]);
        }
        assert(recs@ =~= recs_of(rows@.subrange(from as int, to as int)));
    }
    while to < rows.len() && rows[to].client == first.client && rows[to].symbol == first.symbol
        invariant
            from < to <= rows@.len(),
            first == rows@[from as int],
            same_key(rows@[to - 1], first),
            before == runs(rows@.take(from as int)),
            recs@ == recs_of(rows@.subrange(from as int, to as int)),
            runs(rows@.take(to as int)) == before.push(
                Run { client: first.client, symbol: first.symbol, recs: recs@ },
            ),
        decreases rows@.len() - to,
    {
        assert(rows@.take(to + 1).drop_last() =~= rows@.take(to as int));
        let ghost was = runs(rows@.take(to as int));
        assert(was.drop_last() =~= before);
        recs.push(rows[to].rec);
        to = to + 1;
        assert(recs@ =~= recs_of(rows@.subrange(from as int, to as int)));
    }
    (recs, to)
}

/// The partitions of a table as runs.
pub open spec fn table_runs(m: TableModel) -> Seq<Run> {
    Seq::new(
        m.n_parts as nat,
        |p: int| Run { client: m.clients[p], symbol: m.symbols[p], recs: m.part(p) },
    )
}

/// Gather rows into partitions, one for each run.
pub fn cluster(rows: &[Row]) -> (b: PackedBuilder)
    ensures
        b.wf(),
        b.records@ == recs_of(rows@),
        table_runs(b.model()) == runs(rows@),
{
    let mut b = PackedBuilder::new();
    let mut from: usize = 0;
    proof {
        assert(rows@.take(0) =~= Seq::empty());
        assert(table_runs(b.model()) =~= runs(rows@.take(0)));
        assert(b.records@ =~= recs_of(rows@.take(0)));
    }
    while from < rows.len()
        invariant
            from <= rows@.len(),
            starts_run(rows@, from as int),
            b.wf(),
            b.records@ == recs_of(rows@.take(from as int)),
            table_runs(b.model()) == runs(rows@.take(from as int)),
        decreases rows@.len() - from,
    {
        let ghost was = b;
        let (recs, to): (Vec<PackedTrade>, usize) = next_run(rows, from);
        let client: u64 = rows[from].client;
        let symbol: u32 = rows[from].symbol;
        b.push_partition(client, symbol, recs.as_slice());
        proof {
            lemma_push_run(was, b, client, symbol, recs@);
            assert(rows@.take(to as int) =~= rows@.take(from as int) + rows@.subrange(
                from as int,
                to as int,
            ));
            assert(b.records@ =~= recs_of(rows@.take(to as int)));
        }
        from = to;
    }
    assert(rows@.take(rows@.len() as int) =~= rows@);
    b
}

/// Appending a partition appends a run.
proof fn lemma_push_run(
    was: PackedBuilder,
    now: PackedBuilder,
    client: u64,
    symbol: u32,
    recs: Seq<PackedTrade>,
)
    requires
        was.wf(),
        now.wf(),
        recs.len() > 0,
        was.records@.len() + recs.len() <= u64::MAX,
        now.part_client@ == was.part_client@.push(client),
        now.part_symbol@ == was.part_symbol@.push(symbol),
        now.records@ == was.records@ + recs,
        now.part_offset@ == was.part_offset@.push((was.records@.len() + recs.len()) as u64),
    ensures
        table_runs(now.model()) == table_runs(was.model()).push(Run { client, symbol, recs }),
{
    let a = was.model();
    let b = now.model();
    let n = a.n_parts;
    let want = table_runs(a).push(Run { client, symbol, recs });
    assert forall|p: int| 0 <= p < n + 1 implies #[trigger] table_runs(b)[p] == want[p] by {
        if p < n {
            assert(was.part_offset@[p] <= was.part_offset@[p + 1]);
            assert(was.part_offset@[p + 1] <= was.part_offset@[n]);
            assert(b.part(p) =~= a.part(p));
        } else {
            assert(b.offsets[p] == was.records@.len());
            assert(b.offsets[p + 1] == was.records@.len() + recs.len());
            assert(b.part(p) =~= recs);
        }
    }
    assert(table_runs(b) =~= want);
}

// ---------------------------------------------------------------------------
// Laws
// ---------------------------------------------------------------------------

/// The rows of a run.
pub open spec fn run_rows(r: Run) -> Seq<Row> {
    Seq::new(
        r.recs.len(),
        |i: int| Row { client: r.client, symbol: r.symbol, rec: r.recs[i] },
    )
}

/// The rows of runs, one run after the other.
pub open spec fn unrolled(rs: Seq<Run>) -> Seq<Row>
    decreases rs.len(),
{
    if rs.len() == 0 {
        Seq::empty()
    } else {
        unrolled(rs.drop_last()) + run_rows(rs.last())
    }
}

/// Runs hold the rows, all of them and in their order; none is empty, and no two
/// that follow each other are of the same client and symbol.
pub proof fn lemma_runs_hold_rows(rows: Seq<Row>)
    ensures
        unrolled(runs(rows)) == rows,
        forall|k: int| 0 <= k < runs(rows).len() ==> (#[trigger] runs(rows)[k]).recs.len() > 0,
        forall|k: int|
            0 < k < runs(rows).len() ==> (#[trigger] runs(rows)[k]).client != runs(rows)[k
                - 1].client || runs(rows)[k].symbol != runs(rows)[k - 1].symbol,
    decreases rows.len(),
{
    if rows.len() == 0 {
        assert(unrolled(runs(rows)) =~= rows);
    } else {
        let head = rows.drop_last();
        let r = rows.last();
        let was = runs(head);
        let now = runs(rows);
        lemma_runs_hold_rows(head);
        if was.len() > 0 && was.last().client == r.client && was.last().symbol == r.symbol {
            assert(now.drop_last() =~= was.drop_last());
            assert(run_rows(now.last()) =~= run_rows(was.last()).push(r));
            assert(unrolled(now) =~= unrolled(was).push(r));
            assert forall|k: int| 0 < k < now.len() implies (#[trigger] now[k]).client != now[k
                - 1].client || now[k].symbol != now[k - 1].symbol by {
                assert(was[k].client != was[k - 1].client || was[k].symbol != was[k - 1].symbol);
            }
            assert forall|k: int| 0 <= k < now.len() implies (#[trigger] now[k]).recs.len()
                > 0 by {
                assert(was[k].recs.len() > 0);
            }
        } else {
            assert(now.drop_last() =~= was);
            assert(run_rows(now.last()) =~= seq![r]);
            assert(unrolled(now) =~= unrolled(was).push(r));
            assert forall|k: int| 0 < k < now.len() implies (#[trigger] now[k]).client != now[k
                - 1].client || now[k].symbol != now[k - 1].symbol by {
                if k < was.len() {
                    assert(was[k].client != was[k - 1].client || was[k].symbol != was[k
                        - 1].symbol);
                }
            }
        }
        assert(head.push(r) =~= rows);
    }
}

/// Where run `k` starts.
pub open spec fn run_start(rs: Seq<Run>, k: int) -> int
    decreases k,
{
    if k <= 0 {
        0
    } else {
        run_start(rs, k - 1) + rs[k - 1].recs.len()
    }
}

proof fn lemma_run_start_mono(rs: Seq<Run>, j: int, k: int)
    requires
        0 <= j <= k <= rs.len(),
    ensures
        0 <= run_start(rs, j) <= run_start(rs, k),
    decreases k,
{
    if j < k {
        lemma_run_start_mono(rs, j, k - 1);
    } else if k > 0 {
        lemma_run_start_mono(rs, j - 1, k - 1);
    }
}

proof fn lemma_run_start_same(a: Seq<Run>, b: Seq<Run>, k: int)
    requires
        0 <= k <= a.len(),
        k <= b.len(),
        forall|i: int| 0 <= i < k ==> #[trigger] a[i] == b[i],
    ensures
        run_start(a, k) == run_start(b, k),
    decreases k,
{
    if k > 0 {
        lemma_run_start_same(a, b, k - 1);
        assert(a[k - 1] == b[k - 1]);
    }
}

proof fn lemma_unrolled_at(rs: Seq<Run>, k: int)
    requires
        0 <= k < rs.len(),
    ensures
        unrolled(rs).len() == run_start(rs, rs.len() as int),
        0 <= run_start(rs, k),
        run_start(rs, k) + rs[k].recs.len() <= unrolled(rs).len(),
        unrolled(rs).subrange(run_start(rs, k), run_start(rs, k) + rs[k].recs.len()) == run_rows(
            rs[k],
        ),
    decreases rs.len(),
{
    let head = rs.drop_last();
    let n = head.len() as int;
    lemma_run_start_same(rs, head, n);
    lemma_run_start_mono(rs, k, rs.len() as int);
    lemma_run_start_mono(rs, k + 1, rs.len() as int);
    if n > 0 {
        lemma_unrolled_at(head, if k < n {
            k
        } else {
            0
        });
    } else {
        assert(unrolled(head).len() == 0);
    }
    assert(unrolled(head).len() == run_start(rs, n));
    let s = run_start(rs, k);
    let part = unrolled(rs).subrange(s, s + rs[k].recs.len());
    if k < n {
        lemma_run_start_same(rs, head, k);
        assert(part =~= unrolled(head).subrange(s, s + rs[k].recs.len()));
    } else {
        assert(part =~= run_rows(rs.last()));
    }
}

/// A run is the rows from some place up to another that share a client and a
/// symbol, with no such row before them or behind.
pub proof fn lemma_run_is_block(rows: Seq<Row>, k: int) -> (place: (int, int))
    requires
        0 <= k < runs(rows).len(),
    ensures
        0 <= place.0 < place.1 <= rows.len(),
        runs(rows)[k].recs.len() == place.1 - place.0,
        forall|i: int|
            place.0 <= i < place.1 ==> (#[trigger] rows[i]).client == runs(rows)[k].client
                && rows[i].symbol == runs(rows)[k].symbol && rows[i].rec == runs(rows)[k].recs[i
                - place.0],
        place.0 > 0 ==> rows[place.0 - 1].client != runs(rows)[k].client || rows[place.0
            - 1].symbol != runs(rows)[k].symbol,
        place.1 < rows.len() ==> rows[place.1].client != runs(rows)[k].client
            || rows[place.1].symbol != runs(rows)[k].symbol,
        k == 0 ==> place.0 == 0,
        k == runs(rows).len() - 1 ==> place.1 == rows.len(),
{
    let rs = runs(rows);
    lemma_runs_hold_rows(rows);
    lemma_unrolled_at(rs, k);
    let a = run_start(rs, k);
    let b = a + rs[k].recs.len();
    assert(rs[k].recs.len() > 0);
    assert forall|i: int| a <= i < b implies (#[trigger] rows[i]).client == rs[k].client
        && rows[i].symbol == rs[k].symbol && rows[i].rec == rs[k].recs[i - a] by {
        assert(rows.subrange(a, b)[i - a] == run_rows(rs[k])[i - a]);
    }
    if k > 0 {
        lemma_unrolled_at(rs, k - 1);
        let c = run_start(rs, k - 1);
        let n = rs[k - 1].recs.len() as int;
        assert(n > 0);
        assert(a == c + n);
        assert(rows.subrange(c, c + n)[n - 1] == run_rows(rs[k - 1])[n - 1]);
        assert(rs[k].client != rs[k - 1].client || rs[k].symbol != rs[k - 1].symbol);
    }
    if k < rs.len() - 1 {
        lemma_unrolled_at(rs, k + 1);
        let n = rs[k + 1].recs.len() as int;
        assert(n > 0);
        assert(run_start(rs, k + 1) == b);
        assert(rows.subrange(b, b + n)[0] == run_rows(rs[k + 1])[0]);
        assert(rs[k + 1].client != rs[k].client || rs[k + 1].symbol != rs[k].symbol);
    }
    (a, b)
}

/// There are as many runs as rows whose client or symbol is not that of the row
/// before: one more such row makes one more run, and any other row none.
pub proof fn lemma_run_count(rows: Seq<Row>, r: Row)
    ensures
        runs(Seq::empty()).len() == 0,
        rows.len() == 0 ==> runs(rows.push(r)).len() == 1,
        rows.len() > 0 && rows.last().client == r.client && rows.last().symbol == r.symbol ==> runs(
            rows.push(r),
        ).len() == runs(rows).len(),
        rows.len() > 0 && (rows.last().client != r.client || rows.last().symbol != r.symbol)
            ==> runs(rows.push(r)).len() == runs(rows).len() + 1,
{
    assert(rows.push(r).drop_last() =~= rows);
    if rows.len() > 0 {
        lemma_last_key(rows);
    }
}

/// Rows joined where the client or the symbol changes make the runs of each, joined.
pub proof fn lemma_runs_append(a: Seq<Row>, b: Seq<Row>)
    requires
        a.len() > 0 && b.len() > 0 ==> a.last().client != b[0].client || a.last().symbol
            != b[0].symbol,
    ensures
        runs(a + b) == runs(a) + runs(b),
    decreases b.len(),
{
    if b.len() == 0 {
        assert(a + b =~= a);
        assert(runs(a) + runs(b) =~= runs(a));
    } else {
        let head = b.drop_last();
        let r = b.last();
        assert((a + b).drop_last() =~= a + head);
        lemma_runs_append(a, head);
        let ra = runs(a);
        let rh = runs(head);
        if head.len() > 0 {
            lemma_last_key(head);
            assert((ra + rh).last() == rh.last());
            if rh.last().client == r.client && rh.last().symbol == r.symbol {
                assert((ra + rh).drop_last() =~= ra + rh.drop_last());
            }
        } else {
            assert(rh =~= Seq::empty());
            assert(ra + rh =~= ra);
            if a.len() > 0 {
                lemma_last_key(a);
            }
            assert(r == b[0]);
        }
        assert(runs(a + b) =~= ra + runs(b));
    }
}

/// `a` comes before `b` in the order of the tradebook.
pub open spec fn key_le(a: Row, b: Row) -> bool {
    a.client < b.client || a.client == b.client && a.symbol <= b.symbol
}

/// Rows in the order of the tradebook: by client, then by symbol.
pub open spec fn rows_sorted(rows: Seq<Row>) -> bool {
    forall|i: int, j: int| 0 <= i <= j < rows.len() ==> key_le(#[trigger] rows[i], #[trigger] rows[j])
}

pub open spec fn run_before(a: Run, b: Run) -> bool {
    a.client < b.client || a.client == b.client && a.symbol < b.symbol
}

/// Rows in order make runs in order, each client and symbol once.
pub proof fn lemma_runs_sorted(rows: Seq<Row>)
    requires
        rows_sorted(rows),
    ensures
        forall|i: int, j: int|
            0 <= i < j < runs(rows).len() ==> run_before(
                #[trigger] runs(rows)[i],
                #[trigger] runs(rows)[j],
            ),
    decreases rows.len(),
{
    if rows.len() > 0 {
        let head = rows.drop_last();
        assert(rows_sorted(head)) by {
            assert forall|i: int, j: int| 0 <= i <= j < head.len() implies key_le(
                #[trigger] head[i],
                #[trigger] head[j],
            ) by {
                assert(head[i] == rows[i] && head[j] == rows[j]);
                assert(key_le(rows[i], rows[j]));
            }
        }
        lemma_runs_sorted(head);
        let was = runs(head);
        let now = runs(rows);
        if head.len() > 0 {
            lemma_last_key(head);
            assert(key_le(rows[head.len() - 1], rows[rows.len() - 1]));
        }
        assert forall|i: int, j: int| 0 <= i < j < now.len() implies run_before(
            #[trigger] now[i],
            #[trigger] now[j],
        ) by {
            if j < was.len() {
                assert(run_before(was[i], was[j]));
            } else {
                if i < was.len() - 1 {
                    assert(run_before(was[i], was[was.len() - 1]));
                }
            }
        }
    }
}

/// A table of clustered rows in order holds its partitions in order.
pub proof fn lemma_cluster_sorted(m: TableModel, rows: Seq<Row>)
    requires
        rows_sorted(rows),
        table_runs(m) == runs(rows),
        m.n_parts >= 0,
    ensures
        m.sorted(),
{
    lemma_runs_sorted(rows);
    let rs = table_runs(m);
    assert forall|a: int, b: int| 0 <= a < b < m.n_parts implies #[trigger] m.key_before(a, b) by {
        assert(run_before(rs[a], rs[b]));
    }
}

/// Rows of a tradebook in order: by client, by symbol, and within these by day.
pub open spec fn book_ordered(rows: Seq<Row>) -> bool {
    &&& rows_sorted(rows)
    &&& forall|i: int, j: int|
        0 <= i <= j < rows.len() && same_key(#[trigger] rows[i], #[trigger] rows[j])
            ==> rows[i].rec.day <= rows[j].rec.day
}

/// Within a run of such rows days never go back.
pub proof fn lemma_runs_in_time(rows: Seq<Row>)
    requires
        book_ordered(rows),
    ensures
        forall|k: int|
            0 <= k < runs(rows).len() ==> days_ascend((#[trigger] runs(rows)[k]).recs),
        rows.len() > 0 ==> runs(rows).last().recs.len() > 0 && runs(rows).last().recs.last()
            == rows.last().rec,
    decreases rows.len(),
{
    if rows.len() > 0 {
        let head = rows.drop_last();
        let r = rows.last();
        assert(r == rows[rows.len() - 1]);
        assert(book_ordered(head)) by {
            assert forall|i: int, j: int| 0 <= i <= j < head.len() implies key_le(
                #[trigger] head[i],
                #[trigger] head[j],
            ) && (same_key(head[i], head[j]) ==> head[i].rec.day <= head[j].rec.day) by {
                assert(head[i] == rows[i] && head[j] == rows[j]);
                assert(key_le(rows[i], rows[j]));
            }
        }
        lemma_runs_in_time(head);
        let was = runs(head);
        let now = runs(rows);
        if head.len() > 0 {
            lemma_last_key(head);
            assert(head.last() == rows[rows.len() - 2]);
        }
        assert forall|k: int| 0 <= k < now.len() implies days_ascend((#[trigger] now[k]).recs) by {
            if k < was.len() && now[k] == was[k] {
                assert(days_ascend(was[k].recs));
            } else if was.len() > 0 && was.last().client == r.client && was.last().symbol
                == r.symbol {
                let old_recs = was[was.len() - 1].recs;
                assert(days_ascend(old_recs));
                assert(now[k].recs =~= old_recs.push(r.rec));
                assert(same_key(rows[rows.len() - 2], rows[rows.len() - 1]));
                assert forall|i: int| 0 <= i < old_recs.len() implies old_recs[i].day
                    <= r.rec.day by {
                    assert(old_recs[i].day <= old_recs[old_recs.len() - 1].day);
                }
            } else {
                assert(now[k].recs =~= seq![r.rec]);
            }
        }
    }
}

} // verus!
