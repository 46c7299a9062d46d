//! The page index: what clients and days each page of records spans, so that a
//! scan can skip the pages that cannot matter to it.

use vstd::prelude::*;
use crate::packed::{clients_ascend, PackedTable, PackedTrade, TableModel};

verus! {

/// Records per page.
pub const PAGE_RECORDS: usize = 262_144;

/// What a page of records spans.
#[derive(Clone, Copy, Debug, PartialEq, Eq, Structural)]
pub struct PageSummary {
    pub row_start: u64,
    /// The row after the last.
    pub row_end: u64,
    pub min_client: u64,
    pub max_client: u64,
    pub min_day: i32,
    pub max_day: i32,
}

/// The pages of a table, in order.
#[derive(Debug)]
pub struct PageIndex {
    pub page_records: usize,
    pub pages: Vec<PageSummary>,
}

/// Partition `p` is the one that `row` belongs to: the first that ends past it.
pub open spec fn is_owner(m: TableModel, row: int, p: int) -> bool {
    &&& 0 <= p < m.n_parts
    &&& m.offsets[p + 1] > row
    &&& p == 0 || m.offsets[p] <= row
}

/// Every row belongs to a partition.
pub open spec fn covered(m: TableModel) -> bool {
    &&& m.wf()
    &&& m.offsets[m.n_parts] == m.n_rows
    &&& m.n_rows > 0 ==> m.n_parts > 0
}

/// A row belongs to one partition only.
pub proof fn lemma_owner_unique(m: TableModel, row: int, p: int, q: int)
    requires
        m.wf(),
        is_owner(m, row, p),
        is_owner(m, row, q),
    ensures
        p == q,
{
    if p < q {
        assert(m.offsets[p + 1] <= m.offsets[q]);
    } else if q < p {
        assert(m.offsets[q + 1] <= m.offsets[p]);
    }
}

/// `d` is the least of the days of the rows from `a` up to `b`.
pub open spec fn is_min_day(recs: Seq<PackedTrade>, a: int, b: int, d: i32) -> bool {
    &&& forall|i: int| a <= i < b ==> d <= (#[trigger] recs[i]).day
    &&& exists|i: int| a <= i < b && d == (#[trigger] recs[i]).day
}

/// `d` is the greatest of the days of the rows from `a` up to `b`.
pub open spec fn is_max_day(recs: Seq<PackedTrade>, a: int, b: int, d: i32) -> bool {
    &&& forall|i: int| a <= i < b ==> (#[trigger] recs[i]).day <= d
    &&& exists|i: int| a <= i < b && d == (#[trigger] recs[i]).day
}

/// A page's summary says what the page spans: the clients of its first and last
/// rows, and the least and greatest of its days.
pub open spec fn summarizes(m: TableModel, pg: PageSummary) -> bool {
    &&& pg.row_start < pg.row_end <= m.n_rows
    &&& exists|p: int|
        #[trigger] is_owner(m, pg.row_start as int, p) && pg.min_client == m.clients[p]
    &&& exists|p: int|
        #[trigger] is_owner(m, pg.row_end - 1, p) && pg.max_client == m.clients[p]
    &&& is_min_day(m.records, pg.row_start as int, pg.row_end as int, pg.min_day)
    &&& is_max_day(m.records, pg.row_start as int, pg.row_end as int, pg.max_day)
}

/// The pages cut the rows into runs of `size`, the last of what is left.
pub open spec fn is_index(m: TableModel, size: int, pages: Seq<PageSummary>) -> bool {
    &&& m.n_rows <= pages.len() * size < m.n_rows + size
    &&& forall|i: int|
        0 <= i < pages.len() ==> {
            &&& (#[trigger] pages[i]).row_start == i * size
            &&& pages[i].row_end == (if (i + 1) * size <= m.n_rows {
                (i + 1) * size
            } else {
                m.n_rows
            })
            &&& summarizes(m, pages[i])
        }
}

/// The least and greatest of the days of the rows from `from` up to `to`.
fn day_extent(recs: &[PackedTrade], from: usize, to: usize) -> (r: (i32, i32))
    requires
        from < to <= recs@.len(),
    ensures
        is_min_day(recs@, from as int, to as int, r.0),
        is_max_day(recs@, from as int, to as int, r.1),
{
    let mut lo: i32 = recs[from].day;
    let mut hi: i32 = recs[from].day;
    let mut i: usize = from + 1;
    assert(recs@[from as int].day == lo);
    while i < to
        invariant
            from < i <= to <= recs@.len(),
            is_min_day(recs@, from as int, i as int, lo),
            is_max_day(recs@, from as int, i as int, hi),
        decreases to - i,
    {
        let d: i32 = recs[i].day;
        let ghost wlo = choose|k: int| from <= k < i && lo == (#[trigger] recs@[k]).day;
        let ghost whi = choose|k: int| from <= k < i && hi == (#[trigger] recs@[k]).day;
        if d < lo {
            lo = d;
        }
        if d > hi {
            hi = d;
        }
        assert(recs@[i as int].day == d);
        assert(lo == recs@[wlo].day || lo == recs@[i as int].day);
        assert(hi == recs@[whi].day || hi == recs@[i as int].day);
        i = i + 1;
    }
    (lo, hi)
}

/// The partition that `row` belongs to, searched from `start` on.
fn find_owner(offsets: &[u64], start: usize, row: usize, Ghost(m): Ghost<TableModel>) -> (p: usize)
    requires
        covered(m),
        offsets@ == m.offsets,
        row < m.n_rows,
        start < m.n_parts,
        start == 0 || m.offsets[start as int] <= row,
    ensures
        is_owner(m, row as int, p as int),
        start <= p,
{
    let mut p: usize = start;
    let n: usize = offsets.len();
    while p + 1 < n && offsets[p + 1] <= row as u64
        invariant
            covered(m),
            offsets@ == m.offsets,
            n == offsets@.len(),
            row < m.n_rows,
            start <= p < m.n_parts,
            p == 0 || m.offsets[p as int] <= row,
        decreases n - p,
    {
        if p + 2 == n {
            assert(m.offsets[m.n_parts] <= row);
        }
        p = p + 1;
    }
    p
}

impl PageIndex {
    /// Index a table in pages of [`PAGE_RECORDS`] records.
    pub fn build(table: &PackedTable) -> (r: Self)
        requires
            covered(table@),
        ensures
            r.page_records == PAGE_RECORDS,
            is_index(table@, PAGE_RECORDS as int, r.pages@),
            r.page_records == 262_144,
            is_index(table@, 262_144, r.pages@),
    {
        Self::build_with(table, PAGE_RECORDS)
    }

    /// Index a table in pages of `page_records` records.
    pub fn build_with(table: &PackedTable, page_records: usize) -> (r: Self)
        requires
            covered(table@),
            page_records > 0,
        ensures
            r.page_records == page_records,
            is_index(table@, page_records as int, r.pages@),
    {
        let ghost m = table@;
        let recs = table.records();
        let part_client = table.part_client();
        let part_offset = table.part_offset();
        let n: usize = recs.len();
        let size: usize = page_records;
        let mut pages: Vec<PageSummary> = Vec::new();
        let mut p: usize = 0;
        let mut row: usize = 0;
        assert(0 * size == 0) by (nonlinear_arith);
        while row < n
            invariant
                m == table@,
                covered(m),
                recs@ == m.records,
                part_client@ == m.clients,
                part_offset@ == m.offsets,
                n == m.n_rows,
                size > 0,
                row <= n,
                n > 0 ==> p < m.n_parts,
                p == 0 || m.offsets[p as int] <= row,
                row < n ==> row == pages@.len() * size,
                row == n ==> n <= pages@.len() * size < n + size,
                forall|i: int|
                    0 <= i < pages@.len() ==> {
                        &&& (#[trigger] pages@[i]).row_start == i * size
                        &&& pages@[i].row_end == (if (i + 1) * size <= n {
                            (i + 1) * size
                        } else {
                            n as int
                        })
                        &&& summarizes(m, pages@[i])
                    },
            decreases n - row,
        {
            let ghost k = pages@.len() as int;
            assert((k + 1) * size == k * size + size) by (nonlinear_arith);
            let end: usize = if size <= n - row {
                row + size
            } else {
                n
            };
            let (min_day, max_day): (i32, i32) = day_extent(recs, row, end);
            p = find_owner(part_offset, p, row, Ghost(m));
            let pe: usize = find_owner(part_offset, p, end - 1, Ghost(m));
            let pg = PageSummary {
                row_start: row as u64,
                row_end: end as u64,
                min_client: part_client[p],
                max_client: part_client[pe],
                min_day,
                max_day,
            };
            assert(is_owner(m, pg.row_start as int, p as int));
            assert(is_owner(m, pg.row_end - 1, pe as int));
            assert(summarizes(m, pg));
            pages.push(pg);
            row = end;
        }
        PageIndex { page_records, pages }
    }

    /// Whether a page can hold a row of these clients and days.
    pub open spec fn overlaps(pg: PageSummary, c_lo: u64, c_hi: u64, d_lo: i32, d_hi: i32) -> bool {
        &&& pg.max_client >= c_lo
        &&& pg.min_client <= c_hi
        &&& pg.max_day >= d_lo
        &&& pg.min_day <= d_hi
    }

    /// The rows of the first `k` pages that can matter.
    pub open spec fn kept(
        pages: Seq<PageSummary>,
        k: int,
        c_lo: u64,
        c_hi: u64,
        d_lo: i32,
        d_hi: i32,
    ) -> Seq<(u64, u64)>
        decreases k,
    {
        if k <= 0 {
            Seq::empty()
        } else {
            let before = Self::kept(pages, k - 1, c_lo, c_hi, d_lo, d_hi);
            if Self::overlaps(pages[k - 1], c_lo, c_hi, d_lo, d_hi) {
                before.push((pages[k - 1].row_start, pages[k - 1].row_end))
            } else {
                before
            }
        }
    }

    /// The rows to scan for clients from `c_lo` to `c_hi` and days from `d_lo` to
    /// `d_hi`, page by page. All other pages are skipped.
    pub fn prune(&self, c_lo: u64, c_hi: u64, d_lo: i32, d_hi: i32) -> (r: Vec<(u64, u64)>)
        ensures
            r@ == Self::kept(self.pages@, self.pages@.len() as int, c_lo, c_hi, d_lo, d_hi),
    {
        let mut r: Vec<(u64, u64)> = Vec::new();
        let mut i: usize = 0;
        while i < self.pages.len()
            invariant
                i <= self.pages@.len(),
                r@ == Self::kept(self.pages@, i as int, c_lo, c_hi, d_lo, d_hi),
            decreases self.pages@.len() - i,
        {
            let pg: PageSummary = self.pages[i];
            if pg.max_client >= c_lo && pg.min_client <= c_hi && pg.max_day >= d_lo && pg.min_day
                <= d_hi {
                r.push((pg.row_start, pg.row_end));
            }
            i = i + 1;
        }
        r
    }

    /// Where the index of a packed file is kept.
    pub fn sidecar_path(packed_path: &str) -> (r: String)
        ensures
            r@ == packed_path@ + ".idx.json"@,
    {
        let mut s = String::from_str(packed_path);
        s.append(".idx.json");
        s
    }
}

// ---------------------------------------------------------------------------
// Laws
// ---------------------------------------------------------------------------

proof fn lemma_kept_contains(
    pages: Seq<PageSummary>,
    k: int,
    i: int,
    c_lo: u64,
    c_hi: u64,
    d_lo: i32,
    d_hi: i32,
)
    requires
        0 <= i < k <= pages.len(),
        PageIndex::overlaps(pages[i], c_lo, c_hi, d_lo, d_hi),
    ensures
        PageIndex::kept(pages, k, c_lo, c_hi, d_lo, d_hi).contains(
            (pages[i].row_start, pages[i].row_end),
        ),
    decreases k,
{
    let now = PageIndex::kept(pages, k, c_lo, c_hi, d_lo, d_hi);
    let before = PageIndex::kept(pages, k - 1, c_lo, c_hi, d_lo, d_hi);
    let x = (pages[i].row_start, pages[i].row_end);
    if i == k - 1 {
        assert(now[now.len() - 1] == x);
    } else {
        lemma_kept_contains(pages, k - 1, i, c_lo, c_hi, d_lo, d_hi);
        let j = choose|j: int| 0 <= j < before.len() && before[j] == x;
        assert(now[j] == x);
    }
}

/// Pruning loses nothing: a row of the clients and days asked for lies in one of
/// the runs of rows that are kept.
pub proof fn lemma_prune_keeps(
    m: TableModel,
    size: int,
    pages: Seq<PageSummary>,
    row: int,
    owner: int,
    c_lo: u64,
    c_hi: u64,
    d_lo: i32,
    d_hi: i32,
)
    requires
        covered(m),
        clients_ascend(m.clients),
        size > 0,
        is_index(m, size, pages),
        0 <= row < m.n_rows,
        is_owner(m, row, owner),
        c_lo <= m.clients[owner] <= c_hi,
        d_lo <= m.records[row].day <= d_hi,
    ensures
        exists|j: int|
            0 <= j < PageIndex::kept(pages, pages.len() as int, c_lo, c_hi, d_lo, d_hi).len() && ((
            #[trigger] PageIndex::kept(pages, pages.len() as int, c_lo, c_hi, d_lo, d_hi)[j]).0
                <= row < PageIndex::kept(pages, pages.len() as int, c_lo, c_hi, d_lo, d_hi)[j].1),
{
    let i = row / size;
    assert(i * size <= row < (i + 1) * size && 0 <= i) by (nonlinear_arith)
        requires
            size > 0,
            0 <= row,
            i == row / size,
    ;
    assert(i < pages.len()) by (nonlinear_arith)
        requires
            i * size <= row,
            row < m.n_rows,
            m.n_rows <= pages.len() * size,
            size > 0,
    ;
    let pg = pages[i];
    assert(pg.row_start <= row < pg.row_end);
    let a = choose|p: int|
        #[trigger] is_owner(m, pg.row_start as int, p) && pg.min_client == m.clients[p];
    let b = choose|p: int| #[trigger] is_owner(m, pg.row_end - 1, p) && pg.max_client == m.clients[p];
    assert(a <= owner) by {
        if owner < a {
            assert(m.offsets[owner + 1] <= m.offsets[a]);
        }
    }
    assert(owner <= b) by {
        if b < owner {
            assert(m.offsets[b + 1] <= m.offsets[owner]);
        }
    }
    assert(m.clients[a] <= m.clients[owner] <= m.clients[b]);
    assert(pg.min_day <= m.records[row].day <= pg.max_day);
    lemma_kept_contains(pages, pages.len() as int, i, c_lo, c_hi, d_lo, d_hi);
    let kept = PageIndex::kept(pages, pages.len() as int, c_lo, c_hi, d_lo, d_hi);
    let j = choose|j: int| 0 <= j < kept.len() && kept[j] == (pg.row_start, pg.row_end);
    assert(kept[j].0 <= row < kept[j].1);
}

/// Pruning keeps the rows of a page where the page's clients reach into the clients
/// asked for and its days into the days asked for, and leaves out every other page.
pub proof fn lemma_prune_by_page(
    pages: Seq<PageSummary>,
    k: int,
    c_lo: u64,
    c_hi: u64,
    d_lo: i32,
    d_hi: i32,
)
    requires
        0 <= k < pages.len(),
    ensures
        ({
            let was = PageIndex::kept(pages, k, c_lo, c_hi, d_lo, d_hi);
            let now = PageIndex::kept(pages, k + 1, c_lo, c_hi, d_lo, d_hi);
            let pg = pages[k];
            let apart = pg.max_client < c_lo || pg.min_client > c_hi || pg.max_day < d_lo
                || pg.min_day > d_hi;
            &&& PageIndex::kept(pages, 0, c_lo, c_hi, d_lo, d_hi).len() == 0
            &&& apart ==> now == was
            &&& !apart ==> now == was.push((pg.row_start, pg.row_end))
        }),
{
}

/// A page of an index says what it holds: as many rows as a page has, from where the
/// page before it ends, the least and the greatest of their days, and the clients of
/// the first and of the last.
pub proof fn lemma_page_says_what_it_holds(
    m: TableModel,
    size: int,
    pages: Seq<PageSummary>,
    i: int,
    row: int,
)
    requires
        covered(m),
        size > 0,
        is_index(m, size, pages),
        0 <= i < pages.len(),
        pages[i].row_start <= row < pages[i].row_end,
    ensures
        pages[i].row_start == i * size,
        i + 1 < pages.len() ==> pages[i].row_end == (i + 1) * size,
        i + 1 == pages.len() ==> pages[i].row_end == m.n_rows,
        pages[i].min_day <= m.records[row].day <= pages[i].max_day,
        exists|j: int|
            pages[i].row_start <= j < pages[i].row_end && (#[trigger] m.records[j]).day
                == pages[i].min_day,
        exists|j: int|
            pages[i].row_start <= j < pages[i].row_end && (#[trigger] m.records[j]).day
                == pages[i].max_day,
        exists|p: int|
            0 <= p < m.n_parts && (#[trigger] m.clients[p]) == pages[i].min_client && m.offsets[p
                + 1] > pages[i].row_start && (p > 0 ==> m.offsets[p] <= pages[i].row_start),
        exists|p: int|
            0 <= p < m.n_parts && (#[trigger] m.clients[p]) == pages[i].max_client && m.offsets[p
                + 1] >= pages[i].row_end && (p > 0 ==> m.offsets[p] < pages[i].row_end),
{
    let pg = pages[i];
    assert(summarizes(m, pg));
    assert((i + 1) * size == i * size + size) by (nonlinear_arith);
    if i + 1 < pages.len() {
        assert(summarizes(m, pages[i + 1]));
        assert(pages[i + 1].row_start == (i + 1) * size);
    } else {
        assert(pages.len() * size == (i + 1) * size);
    }
    let a = choose|p: int|
        #[trigger] is_owner(m, pg.row_start as int, p) && pg.min_client == m.clients[p];
    let b = choose|p: int| #[trigger] is_owner(m, pg.row_end - 1, p) && pg.max_client == m.clients[p];
    assert(m.clients[a] == pg.min_client && m.clients[b] == pg.max_client);
}

} // verus!
