//! What the GPU engine is handed: chunks of partitions, the partitions too big
//! for one thread, and buffers gathered for a query.

use vstd::prelude::*;
use crate::fifo::{
    default_desk, partition_frags, table_frags, BucketPnl, BucketRules, Fragment, MatchPolicy, PartitionPnl,
    LONG_TERM_DAYS, MAX_BUCKETS,
};
use crate::matching::{joined, tallies, tally, within_buckets, Tally};
use crate::packed::{offsets_ascend, PackedTable, PackedTrade, TableModel};
use crate::query::{query_frags, wanted, Query};
use crate::shares::{bought, laid_out, never_short, sold};

verus! {

/// Partitions with at least this many records get a block of threads each.
pub const BIG_PARTITION_THRESHOLD: u64 = 32_768;

/// Records to aim for in a chunk of a streamed fold.
pub const STREAM_CHUNK_ROWS: u64 = 4_000_000;

/// Records from partition `a` up to partition `b`.
pub open spec fn rows_between(offsets: Seq<u64>, a: int, b: int) -> int {
    offsets[b] - offsets[a]
}

/// The chunks cut the partitions from the first on into runs that follow each
/// other. A chunk of more than one partition holds no more records than aimed
/// for, and no chunk could have taken in the next partition.
pub open spec fn is_chunking(offsets: Seq<u64>, n: int, chunks: Seq<(usize, usize)>) -> bool {
    &&& forall|i: int| 0 <= i < chunks.len() ==> (#[trigger] chunks[i]).0 < chunks[i].1
    &&& chunks.len() > 0 ==> chunks[0].0 == 0
    &&& n == (if chunks.len() > 0 {
        chunks[chunks.len() - 1].1 as int
    } else {
        0
    })
    &&& forall|i: int, j: int|
        0 <= i && j == i + 1 && j < chunks.len() ==> (#[trigger] chunks[i]).1 == (
        #[trigger] chunks[j]).0
    &&& forall|i: int|
        0 <= i < chunks.len() && (#[trigger] chunks[i]).0 + 1 < chunks[i].1 ==> rows_between(
            offsets,
            chunks[i].0 as int,
            chunks[i].1 as int,
        ) <= STREAM_CHUNK_ROWS
    &&& forall|i: int|
        0 <= i < chunks.len() && (#[trigger] chunks[i]).1 < offsets.len() - 1 ==> rows_between(
            offsets,
            chunks[i].0 as int,
            chunks[i].1 + 1,
        ) > STREAM_CHUNK_ROWS
}

/// Cut the partitions into chunks for a streamed fold.
pub fn plan_chunks(offsets: &[u64]) -> (chunks: Vec<(usize, usize)>)
    requires
        offsets@.len() > 0,
        offsets_ascend(offsets@),
    ensures
        is_chunking(offsets@, offsets@.len() - 1, chunks@),
        forall|c: int|
            0 <= c < chunks@.len() && (#[trigger] chunks@[c]).1 - chunks@[c].0 > 1
                ==> offsets@[chunks@[c].1 as int] - offsets@[chunks@[c].0 as int] <= 4_000_000,
        forall|c: int|
            0 <= c < chunks@.len() && (#[trigger] chunks@[c]).1 + 1 < offsets@.len()
                ==> offsets@[chunks@[c].1 + 1] - offsets@[chunks@[c].0 as int] > 4_000_000,
{
    let n_parts: usize = offsets.len() - 1;
    let mut chunks: Vec<(usize, usize)> = Vec::new();
    let mut p0: usize = 0;
    while p0 < n_parts
        invariant
            n_parts == offsets@.len() - 1,
            offsets_ascend(offsets@),
            p0 <= n_parts,
            is_chunking(offsets@, p0 as int, chunks@),
        decreases n_parts - p0,
    {
        let mut p1: usize = p0 + 1;
        while p1 < n_parts && offsets[p1 + 1] - offsets[p0] <= STREAM_CHUNK_ROWS
            invariant
                n_parts == offsets@.len() - 1,
                offsets_ascend(offsets@),
                p0 < p1 <= n_parts,
                p0 + 1 < p1 ==> rows_between(offsets@, p0 as int, p1 as int) <= STREAM_CHUNK_ROWS,
            decreases n_parts - p1,
        {
            p1 = p1 + 1;
        }
        let ghost was = chunks@;
        chunks.push((p0, p1));
        p0 = p1;
        proof {
            let now = chunks@;
            assert forall|i: int, j: int|
                0 <= i && j == i + 1 && j < now.len() implies (#[trigger] now[i]).1 == (
            #[trigger] now[j]).0 by {
                if j < was.len() {
                    assert(was[i].1 == was[j].0);
                }
            }
        }
    }
    chunks
}

/// The most records and the most partitions in one chunk, each at least one.
pub fn chunk_limits(offsets: &[u64], chunks: &Vec<(usize, usize)>) -> (r: (usize, usize))
    requires
        offsets_ascend(offsets@),
        forall|i: int|
            0 <= i < chunks@.len() ==> (#[trigger] chunks@[i]).0 <= chunks@[i].1 < offsets@.len(),
        offsets@.len() > 0 ==> offsets@[offsets@.len() - 1] <= usize::MAX,
    ensures
        forall|i: int|
            0 <= i < chunks@.len() ==> rows_between(
                offsets@,
                (#[trigger] chunks@[i]).0 as int,
                chunks@[i].1 as int,
            ) <= r.0 && chunks@[i].1 - chunks@[i].0 <= r.1,
        r.0 == 1 || exists|i: int|
            0 <= i < chunks@.len() && r.0 == rows_between(
                offsets@,
                (#[trigger] chunks@[i]).0 as int,
                chunks@[i].1 as int,
            ),
        r.1 == 1 || exists|i: int|
            0 <= i < chunks@.len() && r.1 == (#[trigger] chunks@[i]).1 - chunks@[i].0,
        r.0 >= 1,
        r.1 >= 1,
{
    let mut rows: usize = 1;
    let mut parts: usize = 1;
    let mut i: usize = 0;
    let ghost mut wr: int = -1;
    let ghost mut wp: int = -1;
    while i < chunks.len()
        invariant
            i <= chunks@.len(),
            offsets_ascend(offsets@),
            forall|i: int|
                0 <= i < chunks@.len() ==> (#[trigger] chunks@[i]).0 <= chunks@[i].1
                    < offsets@.len(),
            offsets@.len() > 0 ==> offsets@[offsets@.len() - 1] <= usize::MAX,
            rows >= 1,
            parts >= 1,
            forall|k: int|
                0 <= k < i ==> rows_between(
                    offsets@,
                    (#[trigger] chunks@[k]).0 as int,
                    chunks@[k].1 as int,
                ) <= rows && chunks@[k].1 - chunks@[k].0 <= parts,
            rows == 1 || 0 <= wr < i && rows == rows_between(
                offsets@,
                chunks@[wr].0 as int,
                chunks@[wr].1 as int,
            ),
            parts == 1 || 0 <= wp < i && parts == chunks@[wp].1 - chunks@[wp].0,
        decreases chunks@.len() - i,
    {
        let (a, b): (usize, usize) = chunks[i];
        assert(chunks@[i as int].0 == a && chunks@[i as int].1 == b);
        assert(offsets@[a as int] <= offsets@[b as int]);
        assert(offsets@[b as int] <= offsets@[offsets@.len() - 1]);
        let r: usize = (offsets[b] - offsets[a]) as usize;
        if r > rows {
            rows = r;
            proof {
                wr = i as int;
            }
        }
        if b - a > parts {
            parts = b - a;
            proof {
                wp = i as int;
            }
        }
        i = i + 1;
    }
    (rows, parts)
}

/// Those of the first `n` partitions that are big.
pub open spec fn big_upto(offsets: Seq<u64>, n: int) -> Seq<u32>
    decreases n,
{
    if n <= 0 {
        Seq::empty()
    } else {
        let before = big_upto(offsets, n - 1);
        if offsets[n] - offsets[n - 1] >= BIG_PARTITION_THRESHOLD {
            before.push((n - 1) as u32)
        } else {
            before
        }
    }
}

/// The partitions that get a block of threads each.
pub fn big_parts(offsets: &[u64]) -> (r: Vec<u32>)
    requires
        offsets@.len() > 0,
        offsets_ascend(offsets@),
        offsets@.len() - 1 <= u32::MAX,
    ensures
        r@ == big_upto(offsets@, offsets@.len() - 1),
{
    let n: usize = offsets.len() - 1;
    let mut r: Vec<u32> = Vec::new();
    let mut p: usize = 0;
    while p < n
        invariant
            n == offsets@.len() - 1,
            n <= u32::MAX,
            offsets_ascend(offsets@),
            p <= n,
            r@ == big_upto(offsets@, p as int),
        decreases n - p,
    {
        assert(offsets@[p as int] <= offsets@[p + 1]);
        if offsets[p + 1] - offsets[p] >= BIG_PARTITION_THRESHOLD {
            r.push(p as u32);
        }
        p = p + 1;
    }
    r
}

/// The offsets of a chunk's partitions, counted from the chunk's first record.
pub fn local_offsets(offsets: &[u64], a: usize, b: usize) -> (r: Vec<u64>)
    requires
        a <= b < offsets@.len(),
        offsets_ascend(offsets@),
    ensures
        r@ == Seq::new(
            (b - a + 1) as nat,
            |i: int| (offsets@[a + i] - offsets@[a as int]) as u64,
        ),
        offsets_ascend(r@),
        r@[0] == 0,
{
    let n: usize = offsets.len();
    let mut r: Vec<u64> = Vec::new();
    let mut p: usize = a;
    while p <= b
        invariant
            n == offsets@.len(),
            a <= p <= b + 1,
            b < n,
            offsets_ascend(offsets@),
            r@ == Seq::new(
                (p - a) as nat,
                |i: int| (offsets@[a + i] - offsets@[a as int]) as u64,
            ),
        decreases b + 1 - p,
    {
        assert(offsets@[a as int] <= offsets@[p as int]);
        r.push(offsets[p] - offsets[a]);
        p = p + 1;
        assert(r@ =~= Seq::new(
            (p - a) as nat,
            |i: int| (offsets@[a + i] - offsets@[a as int]) as u64,
        ));
    }
    proof {
        assert forall|i: int, j: int| 0 <= i <= j < r@.len() implies r@[i] <= r@[j] by {
            assert(offsets@[a as int] <= offsets@[a + i]);
            assert(offsets@[a + i] <= offsets@[a + j]);
        }
    }
    r
}

/// The records of the first `k` of some partitions, joined.
pub open spec fn gathered(m: TableModel, parts: Seq<usize>, k: int) -> Seq<PackedTrade>
    decreases k,
{
    if k <= 0 {
        Seq::empty()
    } else {
        gathered(m, parts, k - 1) + m.part(parts[k - 1] as int)
    }
}

/// Gather the records of some partitions into one buffer: the records, and the
/// offsets at which the partitions start and the last one ends.
pub fn gather(table: &PackedTable, parts: &[usize]) -> (r: (Vec<PackedTrade>, Vec<u64>))
    requires
        table@.wf(),
        forall|i: int| 0 <= i < parts@.len() ==> #[trigger] parts@[i] < table@.n_parts,
    ensures
        r.0@ == gathered(table@, parts@, parts@.len() as int),
        r.1@ == Seq::new(
            parts@.len() + 1,
            |k: int| gathered(table@, parts@, k).len() as u64,
        ),
{
    let ghost m = table@;
    let mut recs: Vec<PackedTrade> = Vec::new();
    let mut offsets: Vec<u64> = Vec::new();
    offsets.push(0);
    let mut i: usize = 0;
    assert(offsets@ =~= Seq::new(1, |k: int| gathered(m, parts@, k).len() as u64));
    while i < parts.len()
        invariant
            m == table@,
            m.wf(),
            forall|i: int| 0 <= i < parts@.len() ==> #[trigger] parts@[i] < m.n_parts,
            i <= parts@.len(),
            recs@ == gathered(m, parts@, i as int),
            offsets@ == Seq::new(
                (i + 1) as nat,
                |k: int| gathered(m, parts@, k).len() as u64,
            ),
        decreases parts@.len() - i,
    {
        let p: usize = parts[i];
        assert(parts@[i as int] < m.n_parts);
        assert(m.offsets[p as int] <= m.offsets[p + 1]);
        assert(m.offsets[p + 1] <= m.offsets[m.n_parts]);
        recs.extend_from_slice(table.partition(p));
        assert(recs@ =~= gathered(m, parts@, i + 1));
        let n: usize = recs.len();
        offsets.push(n as u64);
        i = i + 1;
        assert(offsets@ =~= Seq::new(
            (i + 1) as nat,
            |k: int| gathered(m, parts@, k).len() as u64,
        ));
    }
    (recs, offsets)
}

/// The sum of the `b`-th entries of the first `k` rows.
pub open spec fn column_i128(rows: Seq<[i128; 3]>, b: int, k: int) -> int
    decreases k,
{
    if k <= 0 {
        0
    } else {
        column_i128(rows, b, k - 1) + rows[k - 1]@[b]
    }
}

/// The sum of the `b`-th entries of the first `k` rows.
pub open spec fn column_i64(rows: Seq<[i64; 3]>, b: int, k: int) -> int
    decreases k,
{
    if k <= 0 {
        0
    } else {
        column_i64(rows, b, k - 1) + rows[k - 1]@[b]
    }
}

/// Sum what the GPU gives for each partition, realized ticks and matched shares
/// by bucket of the default rules. The GPU does not count fragments.
pub fn sum_pnl(realized: &[[i128; 3]], qty: &[[i64; 3]]) -> (pnl: PartitionPnl)
    requires
        realized@.len() == qty@.len(),
        forall|b: int, k: int|
            0 <= b < 3 && 0 <= k <= realized@.len() ==> i128::MIN <= #[trigger] column_i128(
                realized@,
                b,
                k,
            ) <= i128::MAX,
    ensures
        pnl@ == Seq::new(
            MAX_BUCKETS as nat,
            |b: int|
                if b < 3 {
                    Tally {
                        realized: column_i128(realized@, b, realized@.len() as int),
                        qty: column_i64(qty@, b, qty@.len() as int),
                        count: 0,
                    }
                } else {
                    Tally::zero()
                },
        ),
{
    let n: usize = realized.len();
    let mut pnl = PartitionPnl::default();
    let mut i: usize = 0;
    assert(pnl@ =~= Seq::new(MAX_BUCKETS as nat, |b: int| Tally::zero()));
    while i < n
        invariant
            n == realized@.len(),
            n == qty@.len(),
            i <= n,
            forall|b: int, k: int|
                0 <= b < 3 && 0 <= k <= realized@.len() ==> i128::MIN <= #[trigger] column_i128(
                    realized@,
                    b,
                    k,
                ) <= i128::MAX,
            forall|b: int|
                0 <= b < 3 ==> -(i * 0x8000_0000_0000_0000) <= #[trigger] column_i64(
                    qty@,
                    b,
                    i as int,
                ) <= i * 0x8000_0000_0000_0000,
            forall|b: int|
                0 <= b < MAX_BUCKETS ==> (#[trigger] pnl@[b]) == (if b < 3 {
                    Tally {
                        realized: column_i128(realized@, b, i as int),
                        qty: column_i64(qty@, b, i as int),
                        count: 0,
                    }
                } else {
                    Tally::zero()
                }),
        decreases n - i,
    {
        let ghost k = i as int;
        let r: [i128; 3] = realized[i];
        let q: [i64; 3] = qty[i];
        assert(column_i128(realized@, 0, k + 1) == column_i128(realized@, 0, k) + r@[0]);
        assert(column_i128(realized@, 1, k + 1) == column_i128(realized@, 1, k) + r@[1]);
        assert(column_i128(realized@, 2, k + 1) == column_i128(realized@, 2, k) + r@[2]);
        assert(column_i64(qty@, 0, k + 1) == column_i64(qty@, 0, k) + q@[0]);
        assert(column_i64(qty@, 1, k + 1) == column_i64(qty@, 1, k) + q@[1]);
        assert(column_i64(qty@, 2, k + 1) == column_i64(qty@, 2, k) + q@[2]);
        let mut part = PartitionPnl::default();
        part.buckets[0] = BucketPnl {
            realized_ticks: r[0],
            matched_qty: q[0] as i128,
            fragments: 0,
        };
        part.buckets[1] = BucketPnl {
            realized_ticks: r[1],
            matched_qty: q[1] as i128,
            fragments: 0,
        };
        part.buckets[2] = BucketPnl {
            realized_ticks: r[2],
            matched_qty: q[2] as i128,
            fragments: 0,
        };
        assert(pnl@[0].qty == column_i64(qty@, 0, k) && pnl@[1].qty == column_i64(qty@, 1, k)
            && pnl@[2].qty == column_i64(qty@, 2, k));
        pnl.merge_default3(&part);
        i = i + 1;
    }
    assert(pnl@ =~= Seq::new(
        MAX_BUCKETS as nat,
        |b: int|
            if b < 3 {
                Tally {
                    realized: column_i128(realized@, b, realized@.len() as int),
                    qty: column_i64(qty@, b, qty@.len() as int),
                    count: 0,
                }
            } else {
                Tally::zero()
            },
    ));
    pnl
}

// ---------------------------------------------------------------------------
// Laws
// ---------------------------------------------------------------------------

/// A chunk holds its partitions as the table does: with the chunk's own offsets,
/// partition `k` of the chunk is partition `a + k` of the table.
pub proof fn lemma_chunk_holds_parts(m: TableModel, a: int, b: int, k: int)
    requires
        m.wf(),
        0 <= a <= a + k < b <= m.n_parts,
    ensures
        m.records.subrange(m.offsets[a] as int, m.offsets[b] as int).subrange(
            m.offsets[a + k] - m.offsets[a],
            m.offsets[a + k + 1] - m.offsets[a],
        ) == m.part(a + k),
{
    assert(m.offsets[a] <= m.offsets[a + k]);
    assert(m.offsets[a + k] <= m.offsets[a + k + 1]);
    assert(m.offsets[a + k + 1] <= m.offsets[b]);
    assert(m.offsets[b] <= m.offsets[m.n_parts]);
    assert(m.records.subrange(m.offsets[a] as int, m.offsets[b] as int).subrange(
        m.offsets[a + k] - m.offsets[a],
        m.offsets[a + k + 1] - m.offsets[a],
    ) =~= m.part(a + k));
}

/// A gathered buffer holds the partitions it was gathered from.
pub proof fn lemma_gathered_holds_parts(m: TableModel, parts: Seq<usize>, n: int, k: int)
    requires
        0 <= k < n <= parts.len(),
    ensures
        gathered(m, parts, k).len() <= gathered(m, parts, k + 1).len() <= gathered(
            m,
            parts,
            n,
        ).len(),
        gathered(m, parts, n).subrange(
            gathered(m, parts, k).len() as int,
            gathered(m, parts, k + 1).len() as int,
        ) == m.part(parts[k] as int),
    decreases n,
{
    let part = m.part(parts[k] as int);
    let from = gathered(m, parts, k).len() as int;
    let to = gathered(m, parts, k + 1).len() as int;
    if k + 1 == n {
        assert(gathered(m, parts, n).subrange(from, to) =~= part);
    } else {
        lemma_gathered_holds_parts(m, parts, n - 1, k);
        assert(gathered(m, parts, n).subrange(from, to) =~= gathered(m, parts, n - 1).subrange(
            from,
            to,
        ));
    }
}

/// Every partition is in one of the chunks.
proof fn lemma_in_a_chunk(offsets: Seq<u64>, n: int, chunks: Seq<(usize, usize)>, p: int) -> (c: int)
    requires
        is_chunking(offsets, n, chunks),
        0 <= p < n,
    ensures
        0 <= c < chunks.len(),
        chunks[c].0 <= p < chunks[c].1,
{
    lemma_in_first_chunks(offsets, n, chunks, p, chunks.len() as int)
}

proof fn lemma_in_first_chunks(
    offsets: Seq<u64>,
    n: int,
    chunks: Seq<(usize, usize)>,
    p: int,
    k: int,
) -> (c: int)
    requires
        is_chunking(offsets, n, chunks),
        0 < k <= chunks.len(),
        0 <= p < chunks[k - 1].1,
    ensures
        0 <= c < k,
        chunks[c].0 <= p < chunks[c].1,
    decreases k,
{
    if chunks[k - 1].0 <= p {
        k - 1
    } else {
        assert(k > 1);
        assert(chunks[k - 2].1 == chunks[k - 1].0);
        lemma_in_first_chunks(offsets, n, chunks, p, k - 1)
    }
}

/// The records of partition `p` as the chunk of partitions `a` to `b` holds them, by
/// the chunk's own offsets.
pub open spec fn chunk_part(m: TableModel, a: int, b: int, p: int) -> Seq<PackedTrade> {
    m.records.subrange(m.offsets[a] as int, m.offsets[b] as int).subrange(
        m.offsets[p] - m.offsets[a],
        m.offsets[p + 1] - m.offsets[a],
    )
}

/// What was given for each partition of a chunk is how many shares a fold of its
/// records matches, by bucket.
pub open spec fn chunk_matched(m: TableModel, chunk: (usize, usize), qty: Seq<[i64; 3]>) -> bool {
    forall|p: int, b: int|
        chunk.0 <= p < chunk.1 && 0 <= b < 3 ==> #[trigger] qty[p]@[b] == tally(
            partition_frags(
                m.clients[p],
                m.symbols[p],
                chunk_part(m, chunk.0 as int, chunk.1 as int, p),
            ),
            b,
        ).qty
}

proof fn lemma_columns_add_up(fss: Seq<Seq<Fragment>>, qty: Seq<[i64; 3]>, b: int, k: int)
    requires
        0 <= k <= fss.len(),
        forall|i: int| 0 <= i < fss.len() ==> qty[i]@[b] == tally(#[trigger] fss[i], b).qty,
    ensures
        column_i64(qty, b, k) == tally(joined(fss.take(k)), b).qty,
    decreases k,
{
    if k > 0 {
        lemma_columns_add_up(fss, qty, b, k - 1);
        crate::matching::lemma_joined_push(fss, k - 1);
        crate::matching::lemma_tally_append(joined(fss.take(k - 1)), fss[k - 1], b);
        assert(qty[k - 1]@[b] == tally(fss[k - 1], b).qty);
    } else {
        assert(fss.take(0) =~= Seq::empty());
    }
}

proof fn lemma_nothing_past_buckets(fs: Seq<Fragment>, n: int, b: int)
    requires
        within_buckets(fs, n),
        b >= n,
    ensures
        tally(fs, b) == Tally::zero(),
    decreases fs.len(),
{
    if fs.len() > 0 {
        let head = fs.drop_last();
        assert(fs[fs.len() - 1].bucket < n);
        assert forall|i: int| 0 <= i < head.len() implies (#[trigger] head[i]).bucket < n by {
            assert(head[i] == fs[i]);
        }
        lemma_nothing_past_buckets(head, n, b);
    }
}

/// A fold in chunks is the fold: where each partition of each chunk is given its own
/// matched shares, the sums over all partitions are, bucket by bucket, the quantities
/// of a fold of the whole table.
pub proof fn lemma_streamed_is_fold(
    m: TableModel,
    chunks: Seq<(usize, usize)>,
    qty: Seq<[i64; 3]>,
    b: int,
)
    requires
        m.wf(),
        is_chunking(m.offsets, m.n_parts, chunks),
        qty.len() == m.n_parts,
        forall|c: int| 0 <= c < chunks.len() ==> chunk_matched(m, #[trigger] chunks[c], qty),
        0 <= b < MAX_BUCKETS,
    ensures
        tallies(joined(table_frags(m)))[b].qty == (if b < 3 {
            column_i64(qty, b, qty.len() as int)
        } else {
            0
        }),
{
    let fss = table_frags(m);
    if b < 3 {
        assert forall|p: int| 0 <= p < fss.len() implies qty[p]@[b] == tally(
            #[trigger] fss[p],
            b,
        ).qty by {
            let c = lemma_in_a_chunk(m.offsets, m.n_parts, chunks, p);
            let a = chunks[c].0 as int;
            let e = chunks[c].1 as int;
            assert(chunk_matched(m, chunks[c], qty));
            assert(e <= m.n_parts) by {
                lemma_chunk_ends(m.offsets, m.n_parts, chunks, c);
            }
            lemma_chunk_holds_parts(m, a, e, p - a);
            assert(chunk_part(m, a, e, p) == m.part(p));
        }
        lemma_columns_add_up(fss, qty, b, fss.len() as int);
        assert(fss.take(fss.len() as int) =~= fss);
    } else {
        crate::rollup::lemma_table_buckets(m);
        lemma_nothing_past_buckets(joined(fss), 3, b);
    }
}

proof fn lemma_chunk_ends(offsets: Seq<u64>, n: int, chunks: Seq<(usize, usize)>, c: int)
    requires
        is_chunking(offsets, n, chunks),
        0 <= c < chunks.len(),
    ensures
        chunks[c].1 <= n,
    decreases chunks.len() - c,
{
    if c + 1 < chunks.len() {
        lemma_chunk_ends(offsets, n, chunks, c + 1);
        assert(chunks[c].1 == chunks[c + 1].0);
    }
}

/// A fold of gathered partitions is the query: where each partition is given its own
/// matched shares, the sums are, bucket by bucket, the quantities of the query over
/// the whole history.
pub proof fn lemma_gathered_is_query(m: TableModel, q: Query, qty: Seq<[i64; 3]>, b: int)
    requires
        q.span is Full,
        qty.len() == wanted(m, q, m.n_parts).len(),
        forall|i: int, b: int|
            0 <= i < qty.len() && 0 <= b < 3 ==> #[trigger] qty[i]@[b] == tally(
                partition_frags(
                    m.clients[wanted(m, q, m.n_parts)[i] as int],
                    m.symbols[wanted(m, q, m.n_parts)[i] as int],
                    m.part(wanted(m, q, m.n_parts)[i] as int),
                ),
                b,
            ).qty,
        0 <= b < 3,
    ensures
        tallies(
            joined(
                query_frags(
                    m,
                    None,
                    q,
                    BucketRules::equity_rules(LONG_TERM_DAYS),
                    MatchPolicy::Fifo,
                ),
            ),
        )[b].qty == column_i64(qty, b, qty.len() as int),
{
    let fss = query_frags(m, None, q, BucketRules::equity_rules(LONG_TERM_DAYS), MatchPolicy::Fifo);
    assert forall|i: int| 0 <= i < fss.len() implies qty[i]@[b] == tally(
        #[trigger] fss[i],
        b,
    ).qty by {}
    lemma_columns_add_up(fss, qty, b, fss.len() as int);
    assert(fss.take(fss.len() as int) =~= fss);
}

/// What was given for each partition of a chunk lies within `slack` of what a fold of
/// its records realizes, by bucket.
pub open spec fn chunk_realized(
    m: TableModel,
    chunk: (usize, usize),
    realized: Seq<[i128; 3]>,
    slack: int,
) -> bool {
    forall|p: int, b: int|
        chunk.0 <= p < chunk.1 && 0 <= b < 3 ==> -slack <= (#[trigger] realized[p]@[b]) - tally(
            partition_frags(
                m.clients[p],
                m.symbols[p],
                chunk_part(m, chunk.0 as int, chunk.1 as int, p),
            ),
            b,
        ).realized <= slack
}

proof fn lemma_columns_near(
    fss: Seq<Seq<Fragment>>,
    realized: Seq<[i128; 3]>,
    b: int,
    slack: int,
    k: int,
)
    requires
        0 <= k <= fss.len(),
        forall|i: int|
            0 <= i < fss.len() ==> -slack <= realized[i]@[b] - tally(#[trigger] fss[i], b).realized
                <= slack,
    ensures
        -(k * slack) <= column_i128(realized, b, k) - tally(joined(fss.take(k)), b).realized <= k
            * slack,
    decreases k,
{
    if k > 0 {
        lemma_columns_near(fss, realized, b, slack, k - 1);
        crate::matching::lemma_joined_push(fss, k - 1);
        crate::matching::lemma_tally_append(joined(fss.take(k - 1)), fss[k - 1], b);
        assert(-slack <= realized[k - 1]@[b] - tally(fss[k - 1], b).realized <= slack);
        assert((k - 1) * slack + slack == k * slack) by (nonlinear_arith);
    } else {
        assert(fss.take(0) =~= Seq::empty());
        assert(k * slack == 0) by (nonlinear_arith)
            requires
                k == 0,
        ;
    }
}

/// A fold in chunks realizes what the fold does, as near as each partition does: where
/// every partition is given its realized ticks to within `slack`, the sums are within
/// that much times the number of partitions, and exact where `slack` is zero.
pub proof fn lemma_streamed_realized_is_near(
    m: TableModel,
    chunks: Seq<(usize, usize)>,
    realized: Seq<[i128; 3]>,
    slack: int,
    b: int,
)
    requires
        m.wf(),
        is_chunking(m.offsets, m.n_parts, chunks),
        realized.len() == m.n_parts,
        forall|c: int|
            0 <= c < chunks.len() ==> chunk_realized(m, #[trigger] chunks[c], realized, slack),
        0 <= b < 3,
    ensures
        -(m.n_parts * slack) <= column_i128(realized, b, realized.len() as int) - tallies(
            joined(table_frags(m)),
        )[b].realized <= m.n_parts * slack,
{
    let fss = table_frags(m);
    assert forall|p: int| 0 <= p < fss.len() implies -slack <= realized[p]@[b] - tally(
        #[trigger] fss[p],
        b,
    ).realized <= slack by {
        let c = lemma_in_a_chunk(m.offsets, m.n_parts, chunks, p);
        let a = chunks[c].0 as int;
        let e = chunks[c].1 as int;
        assert(chunk_realized(m, chunks[c], realized, slack));
        lemma_chunk_ends(m.offsets, m.n_parts, chunks, c);
        lemma_chunk_holds_parts(m, a, e, p - a);
        assert(chunk_part(m, a, e, p) == m.part(p));
    }
    lemma_columns_near(fss, realized, b, slack, fss.len() as int);
    assert(fss.take(fss.len() as int) =~= fss);
}

/// Laying the shares that a partition sold alongside those it bought gives what a fold
/// of the partition matches and realizes, where no sell asks for more than is open: so
/// a block of threads may search for the pairs, in any order.
pub proof fn lemma_axes_are_the_fold(client: u64, symbol: u32, recs: Seq<PackedTrade>, b: int)
    requires
        never_short(default_desk(client, symbol), Seq::empty(), recs),
    ensures
        laid_out(
            BucketRules::equity_rules(LONG_TERM_DAYS),
            bought(recs),
            sold(recs),
            b,
            sold(recs).len() as int,
        ) == (
            tally(partition_frags(client, symbol, recs), b).realized,
            tally(partition_frags(client, symbol, recs), b).qty,
        ),
{
    let desk = default_desk(client, symbol);
    crate::shares::lemma_axes_give_buckets(desk, recs, b);
    crate::shares::lemma_window_only_counts(desk, Seq::empty(), recs, 0, 0);
}

/// What the device works out for a partition, realized ticks and matched shares in
/// bucket `b`: a big one by laying what it sold alongside what it bought, any other by
/// folding it.
pub open spec fn worked_out(client: u64, symbol: u32, recs: Seq<PackedTrade>, b: int) -> (int, int) {
    if recs.len() >= BIG_PARTITION_THRESHOLD {
        laid_out(
            BucketRules::equity_rules(LONG_TERM_DAYS),
            bought(recs),
            sold(recs),
            b,
            sold(recs).len() as int,
        )
    } else {
        let t = tally(partition_frags(client, symbol, recs), b);
        (t.realized, t.qty)
    }
}

/// What comes back for the partitions of a chunk: the shares that were worked out, and
/// the ticks to within `slack`.
pub open spec fn chunk_given(
    m: TableModel,
    chunk: (usize, usize),
    realized: Seq<[i128; 3]>,
    qty: Seq<[i64; 3]>,
    slack: int,
) -> bool {
    forall|p: int, b: int|
        #![trigger qty[p]@[b]]
        #![trigger realized[p]@[b]]
        chunk.0 <= p < chunk.1 && 0 <= b < 3 ==> {
            let w = worked_out(
                m.clients[p],
                m.symbols[p],
                chunk_part(m, chunk.0 as int, chunk.1 as int, p),
                b,
            );
            qty[p]@[b] == w.1 && -slack <= realized[p]@[b] - w.0 <= slack
        }
}

/// A streamed fold is the fold: over a table in which no sell asks for more than is
/// open, with what the device works out for each chunk, the matched shares are those of
/// a fold of the whole table in every bucket, and the realized ticks lie as near to its
/// own as the device gave them, partition by partition.
pub proof fn lemma_device_is_fold(
    m: TableModel,
    chunks: Seq<(usize, usize)>,
    realized: Seq<[i128; 3]>,
    qty: Seq<[i64; 3]>,
    slack: int,
    b: int,
)
    requires
        m.wf(),
        is_chunking(m.offsets, m.n_parts, chunks),
        realized.len() == m.n_parts,
        qty.len() == m.n_parts,
        slack >= 0,
        forall|p: int|
            0 <= p < m.n_parts ==> never_short(
                default_desk(m.clients[p], m.symbols[p]),
                Seq::empty(),
                #[trigger] m.part(p),
            ),
        forall|c: int|
            0 <= c < chunks.len() ==> chunk_given(m, #[trigger] chunks[c], realized, qty, slack),
        0 <= b < 3,
    ensures
        tallies(joined(table_frags(m)))[b].qty == column_i64(qty, b, qty.len() as int),
        -(m.n_parts * slack) <= column_i128(realized, b, realized.len() as int) - tallies(
            joined(table_frags(m)),
        )[b].realized <= m.n_parts * slack,
{
    assert forall|c: int| 0 <= c < chunks.len() implies chunk_matched(
        m,
        #[trigger] chunks[c],
        qty,
    ) && chunk_realized(m, chunks[c], realized, slack) by {
        let a = chunks[c].0 as int;
        let e = chunks[c].1 as int;
        assert(chunk_given(m, chunks[c], realized, qty, slack));
        lemma_chunk_ends(m.offsets, m.n_parts, chunks, c);
        assert forall|p: int, k: int| a <= p < e && 0 <= k < 3 implies ({
            let t = tally(
                partition_frags(m.clients[p], m.symbols[p], #[trigger] chunk_part(m, a, e, p)),
                k,
            );
            (t.realized, t.qty) == #[trigger] worked_out(
                m.clients[p],
                m.symbols[p],
                chunk_part(m, a, e, p),
                k,
            )
        }) by {
            lemma_chunk_holds_parts(m, a, e, p - a);
            assert(chunk_part(m, a, e, p) == m.part(p));
            lemma_axes_are_the_fold(m.clients[p], m.symbols[p], m.part(p), k);
        }
    }
    lemma_streamed_is_fold(m, chunks, qty, b);
    lemma_streamed_realized_is_near(m, chunks, realized, slack, b);
}

/// Chunks cover the partitions in order, none left out. One of several partitions
/// holds no more than four million records, and none could have taken in the next
/// partition and kept to that.
pub proof fn lemma_chunk_is_as_full_as_can_be(
    offsets: Seq<u64>,
    n: int,
    chunks: Seq<(usize, usize)>,
    c: int,
)
    requires
        is_chunking(offsets, n, chunks),
        0 <= c < chunks.len(),
    ensures
        chunks[c].0 < chunks[c].1 <= n,
        c == 0 ==> chunks[c].0 == 0,
        c > 0 ==> chunks[c].0 == chunks[c - 1].1,
        c == chunks.len() - 1 ==> chunks[c].1 == n,
        chunks[c].1 - chunks[c].0 > 1 ==> offsets[chunks[c].1 as int] - offsets[chunks[c].0 as int]
            <= 4_000_000,
        chunks[c].1 + 1 < offsets.len() ==> offsets[chunks[c].1 + 1] - offsets[chunks[c].0 as int]
            > 4_000_000,
{
    lemma_chunk_ends(offsets, n, chunks, c);
    if c > 0 {
        assert(chunks[c - 1].1 == chunks[c].0);
    }
}

/// The partitions with a block of threads each are those of 32768 records or more, in
/// order.
pub proof fn lemma_big_by_size(offsets: Seq<u64>, n: int, p: int)
    requires
        0 <= p < n < offsets.len(),
        n <= u32::MAX,
    ensures
        big_upto(offsets, n).contains(p as u32) <==> offsets[p + 1] - offsets[p] >= 32_768,
        forall|i: int| 0 <= i < big_upto(offsets, n).len() ==> #[trigger] big_upto(offsets, n)[i] < n,
        forall|i: int, j: int|
            0 <= i < j < big_upto(offsets, n).len() ==> big_upto(offsets, n)[i] < big_upto(
                offsets,
                n,
            )[j],
    decreases n,
{
    lemma_big_ascends(offsets, n);
    let now = big_upto(offsets, n);
    let was = big_upto(offsets, n - 1);
    if p < n - 1 {
        lemma_big_by_size(offsets, n - 1, p);
        if was.contains(p as u32) {
            let i = choose|i: int| 0 <= i < was.len() && was[i] == p as u32;
            assert(now[i] == p as u32);
        }
        if now.contains(p as u32) {
            let i = choose|i: int| 0 <= i < now.len() && now[i] == p as u32;
            assert(was[i] == p as u32);
        }
    } else {
        if offsets[p + 1] - offsets[p] >= 32_768 {
            assert(now[now.len() - 1] == p as u32);
        } else if now.contains(p as u32) {
            lemma_big_ascends(offsets, n - 1);
            let i = choose|i: int| 0 <= i < now.len() && now[i] == p as u32;
            assert(was[i] < n - 1);
        }
    }
}

proof fn lemma_big_ascends(offsets: Seq<u64>, n: int)
    requires
        0 <= n <= u32::MAX,
    ensures
        forall|i: int| 0 <= i < big_upto(offsets, n).len() ==> #[trigger] big_upto(offsets, n)[i] < n,
        forall|i: int, j: int|
            0 <= i < j < big_upto(offsets, n).len() ==> big_upto(offsets, n)[i] < big_upto(
                offsets,
                n,
            )[j],
    decreases n,
{
    if n > 0 {
        lemma_big_ascends(offsets, n - 1);
        let was = big_upto(offsets, n - 1);
        let now = big_upto(offsets, n);
        assert forall|i: int| 0 <= i < now.len() implies #[trigger] now[i] < n by {
            if i < was.len() {
                assert(now[i] == was[i]);
            }
        }
        assert forall|i: int, j: int| 0 <= i < j < now.len() implies now[i] < now[j] by {
            assert(now[i] == was[i]);
            if j < was.len() {
                assert(now[j] == was[j]);
            }
        }
    }
}

/// A fold of the table is a fold of each partition on its own, from no open lots, in
/// the order of the table.
pub proof fn lemma_table_folds_partitions(m: TableModel, p: int)
    requires
        0 <= p < m.n_parts,
    ensures
        table_frags(m).len() == m.n_parts,
        table_frags(m)[p] == partition_frags(
            m.clients[p],
            m.symbols[p],
            m.records.subrange(m.offsets[p] as int, m.offsets[p + 1] as int),
        ),
{
}

/// A gathered buffer grows by the records of each partition, in the order asked for.
pub proof fn lemma_gather_adds_partition(m: TableModel, parts: Seq<usize>, k: int)
    requires
        0 <= k < parts.len(),
    ensures
        gathered(m, parts, 0).len() == 0,
        gathered(m, parts, k + 1) == gathered(m, parts, k) + m.records.subrange(
            m.offsets[parts[k] as int] as int,
            m.offsets[parts[k] + 1] as int,
        ),
{
}

/// A column's sum grows by each row's own entry.
pub proof fn lemma_column_adds_row(realized: Seq<[i128; 3]>, qty: Seq<[i64; 3]>, b: int, k: int)
    requires
        0 <= k,
    ensures
        column_i128(realized, b, 0) == 0,
        column_i64(qty, b, 0) == 0,
        column_i128(realized, b, k + 1) == column_i128(realized, b, k) + realized[k]@[b],
        column_i64(qty, b, k + 1) == column_i64(qty, b, k) + qty[k]@[b],
{
}

} // verus!
