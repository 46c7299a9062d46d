//! A packed table as columns, and back: one row for each record, with its client
//! and symbol beside it. The boundaries of the partitions are found again from
//! the runs of equal client and symbol.

use vstd::prelude::*;
use crate::index::covered;
use crate::packed::{decoded, layout, PackedTable, PackedTrade, TableModel};
use crate::rows::{cluster, recs_of, runs, table_runs, Row, Run};

verus! {

/// Rows in a batch.
pub const BATCH_ROWS: usize = 1_048_576;

/// The rows of the first `n` partitions of a table.
pub open spec fn rows_upto(m: TableModel, n: int) -> Seq<Row>
    decreases n,
{
    if n <= 0 {
        Seq::empty()
    } else {
        rows_upto(m, n - 1) + m.part(n - 1).map_values(
            |r: PackedTrade| Row { client: m.clients[n - 1], symbol: m.symbols[n - 1], rec: r },
        )
    }
}

/// The rows of a table, partition by partition.
pub fn to_rows(table: &PackedTable) -> (rows: Vec<Row>)
    requires
        table@.wf(),
    ensures
        rows@ == rows_upto(table@, table@.n_parts),
{
    let ghost m = table@;
    let pc = table.part_client();
    let ps = table.part_symbol();
    let mut rows: Vec<Row> = Vec::new();
    let mut p: usize = 0;
    while p < pc.len()
        invariant
            m == table@,
            m.wf(),
            pc@ == m.clients,
            ps@ == m.symbols,
            p <= pc@.len(),
            rows@ == rows_upto(m, p as int),
        decreases pc@.len() - p,
    {
        let client: u64 = pc[p];
        let symbol: u32 = ps[p];
        assert(m.offsets[p as int] <= m.offsets[p + 1]);
        assert(m.offsets[p + 1] <= m.offsets[m.n_parts]);
        let recs = table.partition(p);
        let ghost before = rows@;
        let mut i: usize = 0;
        while i < recs.len()
            invariant
                i <= recs@.len(),
                rows@ == before + recs@.take(i as int).map_values(
                    |r: PackedTrade| Row { client, symbol, rec: r },
                ),
            decreases recs@.len() - i,
        {
            rows.push(Row { client, symbol, rec: recs[i] });
            i = i + 1;
            assert(rows@ =~= before + recs@.take(i as int).map_values(
                |r: PackedTrade| Row { client, symbol, rec: r },
            ));
        }
        assert(recs@.take(recs@.len() as int) =~= recs@);
        assert(rows@ =~= rows_upto(m, p + 1));
        p = p + 1;
    }
    rows
}

/// The batches that `n_rows` rows are written in: where each starts and ends.
pub fn batches(n_rows: usize) -> (r: Vec<(usize, usize)>)
    ensures
        n_rows <= r@.len() * BATCH_ROWS < n_rows + BATCH_ROWS,
        forall|i: int|
            0 <= i < r@.len() ==> (#[trigger] r@[i]).0 == i * 1_048_576 && r@[i].0 < r@[i].1
                <= n_rows && (i + 1 < r@.len() ==> r@[i].1 == (i + 1) * 1_048_576) && (i + 1
                == r@.len() ==> r@[i].1 == n_rows),
        forall|i: int|
            0 <= i < r@.len() ==> (#[trigger] r@[i]).0 == i * BATCH_ROWS && r@[i].1 == (if (i + 1)
                * BATCH_ROWS <= n_rows {
                (i + 1) * BATCH_ROWS
            } else {
                n_rows as int
            }),
{
    let mut r: Vec<(usize, usize)> = Vec::new();
    let mut from: usize = 0;
    while from < n_rows
        invariant
            from <= n_rows,
            from < n_rows ==> from == r@.len() * BATCH_ROWS,
            from == n_rows ==> n_rows <= r@.len() * BATCH_ROWS < n_rows + BATCH_ROWS,
            forall|i: int|
                0 <= i < r@.len() ==> (#[trigger] r@[i]).0 == i * BATCH_ROWS && r@[i].1 == (if (i
                    + 1) * BATCH_ROWS <= n_rows {
                    (i + 1) * BATCH_ROWS
                } else {
                    n_rows as int
                }),
        decreases n_rows - from,
    {
        let to: usize = if BATCH_ROWS <= n_rows - from {
            from + BATCH_ROWS
        } else {
            n_rows
        };
        r.push((from, to));
        from = to;
    }
    r
}

/// A packed table of rows, one partition for each run of a client and symbol.
pub fn from_rows(rows: &[Row]) -> (t: PackedTable)
    requires
        layout(runs(rows@).len() as int, rows@.len() as int).len <= u64::MAX,
    ensures
        covered(t@),
        table_runs(t@) == runs(rows@),
        t@.records == recs_of(rows@),
        t@.offsets[0] == 0,
{
    let b = cluster(rows);
    let mut bytes: Vec<u8> = Vec::new();
    proof {
        assert(runs(rows@).len() == b.part_client@.len()) by {
            assert(table_runs(b.model()).len() == b.part_client@.len());
        }
        crate::packed::lemma_round_trip(
            b.part_client@,
            b.part_symbol@,
            b.part_offset@,
            b.records@,
        );
    }
    b.write(&mut bytes);
    assert(bytes@ =~= crate::packed::table_image(
        b.part_client@,
        b.part_symbol@,
        b.part_offset@,
        b.records@,
    ));
    assert(decoded(bytes@) == b.model());
    match PackedTable::from_bytes(bytes) {
        Ok(t) => t,
        Err(_) => vstd::pervasive::unreached(),
    }
}

// ---------------------------------------------------------------------------
// Laws
// ---------------------------------------------------------------------------

/// A table as building makes it: partitions that are not empty and that follow
/// each other from the first record to the last, neighbours with different keys.
pub open spec fn compact(m: TableModel) -> bool {
    &&& m.wf()
    &&& m.offsets[0] == 0
    &&& m.offsets[m.n_parts] == m.n_rows
    &&& forall|p: int| 0 <= p < m.n_parts ==> (#[trigger] m.part(p)).len() > 0
    &&& forall|p: int, q: int|
        0 <= p && q == p + 1 && q < m.n_parts ==> (#[trigger] m.clients[p]) != (
        #[trigger] m.clients[q]) || m.symbols[p] != m.symbols[q]
}

proof fn lemma_runs_of_part(before: Seq<Row>, client: u64, symbol: u32, recs: Seq<PackedTrade>)
    requires
        recs.len() > 0,
        before.len() > 0 ==> before.last().client != client || before.last().symbol != symbol,
    ensures
        runs(before + recs.map_values(|r: PackedTrade| Row { client, symbol, rec: r })) == runs(
            before,
        ).push(Run { client, symbol, recs }),
    decreases recs.len(),
{
    let own = recs.map_values(|r: PackedTrade| Row { client, symbol, rec: r });
    let all = before + own;
    let head = recs.drop_last();
    let own_head = head.map_values(|r: PackedTrade| Row { client, symbol, rec: r });
    assert(all.drop_last() =~= before + own_head);
    assert(all.last() == Row { client, symbol, rec: recs.last() });
    if head.len() == 0 {
        assert(before + own_head =~= before);
        if before.len() > 0 {
            crate::rows::lemma_last_key(before);
        }
        assert(seq![recs.last()] =~= recs);
    } else {
        lemma_runs_of_part(before, client, symbol, head);
        let was = runs(before).push(Run { client, symbol, recs: head });
        assert(was.drop_last() =~= runs(before));
        assert(head.push(recs.last()) =~= recs);
    }
}

proof fn lemma_last_row(m: TableModel, n: int)
    requires
        compact(m),
        0 < n <= m.n_parts,
    ensures
        rows_upto(m, n).len() > 0,
        rows_upto(m, n).last().client == m.clients[n - 1],
        rows_upto(m, n).last().symbol == m.symbols[n - 1],
{
    assert(m.part(n - 1).len() > 0);
}

proof fn lemma_runs_upto(m: TableModel, n: int)
    requires
        compact(m),
        0 <= n <= m.n_parts,
    ensures
        runs(rows_upto(m, n)) == table_runs(m).take(n),
    decreases n,
{
    if n == 0 {
        assert(runs(rows_upto(m, n)) =~= table_runs(m).take(n));
    } else {
        lemma_runs_upto(m, n - 1);
        assert(m.part(n - 1).len() > 0);
        if n > 1 {
            lemma_last_row(m, n - 1);
            assert(m.clients[n - 2] != m.clients[n - 1] || m.symbols[n - 2] != m.symbols[n - 1]);
        }
        lemma_runs_of_part(
            rows_upto(m, n - 1),
            m.clients[n - 1],
            m.symbols[n - 1],
            m.part(n - 1),
        );
        assert(table_runs(m).take(n) =~= table_runs(m).take(n - 1).push(table_runs(m)[n - 1]));
    }
}

proof fn lemma_recs_upto(m: TableModel, n: int)
    requires
        compact(m),
        0 <= n <= m.n_parts,
    ensures
        recs_of(rows_upto(m, n)) == m.records.take(m.offsets[n] as int),
    decreases n,
{
    if n == 0 {
        assert(recs_of(rows_upto(m, n)) =~= m.records.take(0));
    } else {
        lemma_recs_upto(m, n - 1);
        assert(m.offsets[n - 1] <= m.offsets[n]);
        assert(m.offsets[n] <= m.offsets[m.n_parts]);
        assert(recs_of(rows_upto(m, n)) =~= recs_of(rows_upto(m, n - 1)) + m.part(n - 1));
        assert(m.records.take(m.offsets[n] as int) =~= m.records.take(m.offsets[n - 1] as int)
            + m.part(n - 1));
    }
}

/// A table taken apart into rows and put together again is the same table: the
/// same partitions with the same records.
pub proof fn lemma_columns_round_trip(m: TableModel)
    requires
        compact(m),
    ensures
        runs(rows_upto(m, m.n_parts)) == table_runs(m),
        recs_of(rows_upto(m, m.n_parts)) == m.records,
{
    lemma_runs_upto(m, m.n_parts);
    lemma_recs_upto(m, m.n_parts);
    assert(table_runs(m).take(m.n_parts) =~= table_runs(m));
    assert(m.records.take(m.n_rows) =~= m.records);
}

/// Two tables with the same runs, each from the first record on, have the same
/// offsets.
pub proof fn lemma_same_offsets(a: TableModel, b: TableModel, p: int)
    requires
        a.wf(),
        b.wf(),
        a.offsets[0] == 0,
        b.offsets[0] == 0,
        table_runs(a) == table_runs(b),
        a.n_parts == b.n_parts,
        0 <= p <= a.n_parts,
    ensures
        a.offsets[p] == b.offsets[p],
    decreases p,
{
    if p > 0 {
        lemma_same_offsets(a, b, p - 1);
        assert(table_runs(a)[p - 1].recs == table_runs(b)[p - 1].recs);
        assert(a.offsets[p - 1] <= a.offsets[p] && a.offsets[p] <= a.offsets[a.n_parts]);
        assert(b.offsets[p - 1] <= b.offsets[p] && b.offsets[p] <= b.offsets[b.n_parts]);
        assert(a.part(p - 1).len() == b.part(p - 1).len());
    }
}

proof fn lemma_row_of_part(m: TableModel, n: int, p: int, i: int)
    requires
        m.wf(),
        m.offsets[0] == 0,
        0 <= p < n <= m.n_parts,
        m.offsets[p] <= i < m.offsets[p + 1],
    ensures
        rows_upto(m, n).len() == m.offsets[n],
        rows_upto(m, n)[i] == (Row {
            client: m.clients[p],
            symbol: m.symbols[p],
            rec: m.records[i],
        }),
    decreases n,
{
    lemma_rows_len(m, n);
    lemma_rows_len(m, n - 1);
    assert(m.offsets[p + 1] <= m.offsets[n]);
    if p < n - 1 {
        lemma_row_of_part(m, n - 1, p, i);
        assert(m.offsets[p + 1] <= m.offsets[n - 1]);
        assert(rows_upto(m, n)[i] == rows_upto(m, n - 1)[i]);
    } else {
        let from = m.offsets[p] as int;
        assert(m.offsets[n] <= m.offsets[m.n_parts]);
        assert(m.part(p)[i - from] == m.records[i]);
    }
}

proof fn lemma_rows_len(m: TableModel, n: int)
    requires
        m.wf(),
        m.offsets[0] == 0,
        0 <= n <= m.n_parts,
    ensures
        rows_upto(m, n).len() == m.offsets[n],
    decreases n,
{
    if n > 0 {
        lemma_rows_len(m, n - 1);
        assert(m.offsets[n - 1] <= m.offsets[n]);
        assert(m.offsets[n] <= m.offsets[m.n_parts]);
    }
}

/// The row of a record is the record, beside the client and the symbol of the
/// partition that it belongs to, at the record's own place.
pub proof fn lemma_row_beside_its_partition(m: TableModel, p: int, i: int)
    requires
        m.wf(),
        m.offsets[0] == 0,
        0 <= p < m.n_parts,
        m.offsets[p] <= i < m.offsets[p + 1],
    ensures
        rows_upto(m, m.n_parts).len() == m.offsets[m.n_parts],
        rows_upto(m, m.n_parts)[i].client == m.clients[p],
        rows_upto(m, m.n_parts)[i].symbol == m.symbols[p],
        rows_upto(m, m.n_parts)[i].rec == m.records[i],
{
    lemma_row_of_part(m, m.n_parts, p, i);
}

} // verus!
