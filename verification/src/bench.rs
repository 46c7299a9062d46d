//! What the benchmark asks, and what it makes of the answers.

use vstd::prelude::*;
use crate::config::GenConfig;
use crate::fifo::{PartitionPnl, MAX_BUCKETS};
use crate::packed::{PackedTable, TableModel};
use crate::query::{ClientSel, Query, Span};
use crate::text::{int_text, push_int};

verus! {

/// A span of days as text.
pub open spec fn span_text(s: Span) -> Seq<char> {
    match s {
        Span::Full => "all-history"@,
        Span::Range(lo, hi) => "range["@ + int_text(lo as int) + seq![','] + int_text(hi as int)
            + seq![']'],
    }
}

/// A span of days as text, such as "range[18262,18293]".
pub fn span_label(s: &Span) -> (r: String)
    ensures
        r@ == span_text(*s),
        match *s {
            Span::Full => r@ == "all-history"@,
            Span::Range(lo, hi) => r@ == "range["@ + int_text(lo as int) + seq![','] + int_text(
                hi as int,
            ) + seq![']'],
        },
{
    match *s {
        Span::Full => String::from_str("all-history"),
        Span::Range(lo, hi) => {
            let mut t = String::from_str("range[");
            push_int(&mut t, lo as i64);
            t.push(',');
            push_int(&mut t, hi as i64);
            t.push(']');
            assert(t@ =~= span_text(*s));
            t
        },
    }
}

// ---------------------------------------------------------------------------
// Whom to ask about
// ---------------------------------------------------------------------------

/// The clients of the first `n` partitions, in order, each with the number of
/// its records.
pub open spec fn client_rows(m: TableModel, n: int) -> Seq<(u64, int)>
    decreases n,
{
    if n <= 0 {
        Seq::empty()
    } else {
        let before = client_rows(m, n - 1);
        let rows = m.offsets[n] - m.offsets[n - 1];
        if before.len() > 0 && before.last().0 == m.clients[n - 1] {
            before.drop_last().push((before.last().0, before.last().1 + rows))
        } else {
            before.push((m.clients[n - 1], rows))
        }
    }
}

/// The whale with the most records, the first of them; client 0 with none where
/// no whale has any.
pub open spec fn best_whale(cfg: GenConfig, cs: Seq<(u64, int)>) -> (u64, int)
    decreases cs.len(),
{
    if cs.len() == 0 {
        (0, 0)
    } else {
        let best = best_whale(cfg, cs.drop_last());
        if cfg.whale(cs.last().0 as int) && cs.last().1 > best.1 {
            cs.last()
        } else {
            best
        }
    }
}

/// The first client that is no whale and has four records or more.
pub open spec fn first_retail(cfg: GenConfig, cs: Seq<(u64, int)>) -> Option<u64>
    decreases cs.len(),
{
    if cs.len() == 0 {
        None
    } else {
        let first = first_retail(cfg, cs.drop_last());
        if first is Some {
            first
        } else if !cfg.whale(cs.last().0 as int) && cs.last().1 >= 4 {
            Some(cs.last().0)
        } else {
            None
        }
    }
}

/// The whale with the most records, and a client typical of the others.
pub fn pick_clients(table: &PackedTable, cfg: &GenConfig) -> (r: (u64, u64))
    requires
        table@.wf(),
        table@.n_parts > 0,
    ensures
        ({
            let cs = client_rows(table@, table@.n_parts);
            &&& r.0 == best_whale(*cfg, cs).0
            &&& r.1 == (match first_retail(*cfg, cs) {
                Some(c) => c,
                None => table@.clients[0],
            })
        }),
{
    let ghost m = table@;
    let pc = table.part_client();
    let off = table.part_offset();
    let n: usize = pc.len();
    let mut best: (u64, u64) = (0, 0);
    let mut retail: Option<u64> = None;
    let mut p: usize = 0;
    while p < n
        invariant
            m == table@,
            m.wf(),
            pc@ == m.clients,
            off@ == m.offsets,
            n == m.n_parts,
            p <= n,
            0 < p < n ==> m.clients[p - 1] != m.clients[p as int],
            p > 0 ==> client_rows(m, p as int).len() > 0 && client_rows(m, p as int).last().0
                == m.clients[p - 1],
            (best.0, best.1 as int) == best_whale(*cfg, client_rows(m, p as int)),
            retail == first_retail(*cfg, client_rows(m, p as int)),
        decreases n - p,
    {
        let c: u64 = pc[p];
        let mut rows: u64 = 0;
        let mut pp: usize = p;
        let ghost before = client_rows(m, p as int);
        while pp < n && pc[pp] == c
            invariant
                m.wf(),
                pc@ == m.clients,
                off@ == m.offsets,
                n == m.n_parts,
                p <= pp <= n,
                p < n,
                c == m.clients[p as int],
                before == client_rows(m, p as int),
                p > 0 ==> before.len() > 0 && before.last().0 != c,
                rows == m.offsets[pp as int] - m.offsets[p as int],
                pp == p ==> client_rows(m, pp as int) == before,
                pp > p ==> m.clients[pp - 1] == c && client_rows(m, pp as int) == before.push(
                    (c, rows as int),
                ),
            decreases n - pp,
        {
            assert(m.offsets[pp as int] <= m.offsets[pp + 1]);
            assert(m.offsets[p as int] <= m.offsets[pp + 1]);
            if pp > p {
                assert(before.push((c, rows as int)).drop_last() =~= before);
            }
            rows = rows + (off[pp + 1] - off[pp]);
            pp = pp + 1;
        }
        proof {
            assert(client_rows(m, pp as int).drop_last() =~= before);
        }
        if cfg.is_whale(c) {
            if rows > best.1 {
                best = (c, rows);
            }
        } else if retail.is_none() && rows >= 4 {
            retail = Some(c);
        }
        p = pp;
    }
    (
        best.0,
        match retail {
            Some(c) => c,
            None => pc[0],
        },
    )
}

// ---------------------------------------------------------------------------
// What to ask
// ---------------------------------------------------------------------------

/// `count` cutoffs spread evenly over the trading days.
pub fn spaced_cutoffs(td: &[i64], count: usize) -> (r: Vec<i32>)
    requires
        td@.len() > 0,
        count < usize::MAX,
        td@.len() * count <= usize::MAX,
    ensures
        r@.len() == count,
        forall|k: int|
            0 <= k < count ==> #[trigger] r@[k] == td@[spaced(td@.len() as int, count as int, k)]
                as i32,
{
    let n: usize = td.len();
    let mut r: Vec<i32> = Vec::new();
    let mut k: usize = 1;
    while k <= count
        invariant
            n == td@.len(),
            n > 0,
            count < usize::MAX,
            n * count <= usize::MAX,
            1 <= k <= count + 1,
            r@.len() == k - 1,
            forall|j: int|
                0 <= j < k - 1 ==> #[trigger] r@[j] == td@[spaced(n as int, count as int, j)] as i32,
        decreases count + 1 - k,
    {
        assert(n * k <= n * count) by (nonlinear_arith)
            requires
                k <= count,
        ;
        let i: usize = n * k / (count + 1);
        let at: usize = if i < n {
            i
        } else {
            n - 1
        };
        assert(at == spaced(n as int, count as int, k - 1));
        r.push(td[at] as i32);
        k = k + 1;
    }
    r
}

/// The place of cutoff `k` of `count` among `n` trading days.
pub open spec fn spaced(n: int, count: int, k: int) -> int {
    let i = n * (k + 1) / (count + 1);
    if i < n {
        i
    } else {
        n - 1
    }
}

/// One query of the benchmark.
#[derive(Debug)]
pub struct BenchQuery {
    pub name: String,
    pub query: Query,
}

/// The trading day at place `i`, the last where there is none so late.
pub open spec fn day_at(td: Seq<i64>, i: int) -> i32 {
    td[if i < td.len() {
        i
    } else {
        td.len() - 1
    }] as i32
}

fn pick_day(td: &[i64], i: usize) -> (d: i32)
    requires
        td@.len() > 0,
    ensures
        d == day_at(td@, i as int),
{
    let n: usize = td.len();
    let at: usize = if i < n {
        i
    } else {
        n - 1
    };
    td[at] as i32
}

pub open spec fn asks(client: u64, span: Span) -> Query {
    Query { clients: ClientSel::One(client), symbol: None, span }
}

/// The queries of the benchmark: a day, a month, a range and the whole history
/// of a whale; a month and the whole history of another client; and the whole
/// history of all clients.
pub open spec fn matrix(td: Seq<i64>, whale: u64, retail: u64) -> Seq<(Seq<char>, Query)> {
    let n = td.len() as int;
    let mid = n / 2;
    let day = Span::Range(day_at(td, mid), day_at(td, mid));
    let month = Span::Range(day_at(td, mid), day_at(td, mid + 22));
    let range = Span::Range(day_at(td, n / 10), day_at(td, n * 7 / 10));
    seq![
        ("whale 1-day"@, asks(whale, day)),
        ("whale 1-month"@, asks(whale, month)),
        ("whale random-range"@, asks(whale, range)),
        ("whale all-history"@, asks(whale, Span::Full)),
        ("retail 1-month"@, asks(retail, month)),
        ("retail all-history"@, asks(retail, Span::Full)),
        (
            "cross-client all-history"@,
            Query { clients: ClientSel::All, symbol: None, span: Span::Full },
        ),
    ]
}

fn named(name: &str, query: Query) -> (r: BenchQuery)
    ensures
        r.name@ == name@,
        r.query == query,
{
    BenchQuery { name: String::from_str(name), query }
}

fn about(client: u64, span: Span) -> (q: Query)
    ensures
        q == asks(client, span),
{
    Query { clients: ClientSel::One(client), symbol: None, span }
}

/// The queries of the benchmark.
pub fn query_matrix(td: &[i64], whale: u64, retail: u64) -> (r: Vec<BenchQuery>)
    requires
        td@.len() > 0,
        td@.len() * 7 <= usize::MAX,
    ensures
        r@.len() == matrix(td@, whale, retail).len(),
        forall|i: int|
            0 <= i < r@.len() ==> (#[trigger] r@[i]).name@ == matrix(td@, whale, retail)[i].0
                && r@[i].query == matrix(td@, whale, retail)[i].1,
{
    let n: usize = td.len();
    let mid: usize = n / 2;
    let day = Span::Range(pick_day(td, mid), pick_day(td, mid));
    let month = Span::Range(pick_day(td, mid), pick_day(td, mid + 22));
    let range = Span::Range(pick_day(td, n / 10), pick_day(td, n * 7 / 10));
    let mut r: Vec<BenchQuery> = Vec::new();
    r.push(named("whale 1-day", about(whale, day)));
    r.push(named("whale 1-month", about(whale, month)));
    r.push(named("whale random-range", about(whale, range)));
    r.push(named("whale all-history", about(whale, Span::Full)));
    r.push(named("retail 1-month", about(retail, month)));
    r.push(named("retail all-history", about(retail, Span::Full)));
    r.push(
        named(
            "cross-client all-history",
            Query { clients: ClientSel::All, symbol: None, span: Span::Full },
        ),
    );
    r
}

// ---------------------------------------------------------------------------
// What to make of it
// ---------------------------------------------------------------------------

/// Whether two results are the same.
pub fn same_pnl(a: &PartitionPnl, b: &PartitionPnl) -> (r: bool)
    ensures
        r == (a@ == b@),
        r <==> forall|k: int|
            0 <= k < 8 ==> {
                let x = #[trigger] a.buckets@[k];
                let y = b.buckets@[k];
                &&& x.realized_ticks == y.realized_ticks
                &&& x.matched_qty == y.matched_qty
                &&& x.fragments == y.fragments
            },
{
    let mut i: usize = 0;
    while i < MAX_BUCKETS
        invariant
            i <= MAX_BUCKETS,
            forall|k: int| 0 <= k < i ==> #[trigger] a@[k] == b@[k],
        decreases MAX_BUCKETS - i,
    {
        if a.buckets[i] != b.buckets[i] {
            assert(a@[i as int] != b@[i as int]);
            assert(a.buckets@[i as int] != b.buckets@[i as int]);
            return false;
        }
        assert(a@[i as int] == b@[i as int]);
        i = i + 1;
    }
    assert(a@ =~= b@);
    assert forall|k: int| 0 <= k < 8 implies (#[trigger] a.buckets@[k])@ == b.buckets@[k]@ by {
        assert(a@[k] == b@[k]);
    }
    true
}

/// Where a wrong answer comes from.
#[derive(Clone, Copy, Debug, PartialEq, Eq, Structural)]
pub enum Divergence {
    /// What the checkpoint carries in is wrong.
    Checkpoint,
    /// The packed table differs from the tradebook.
    Data,
    Both,
    /// Neither shows.
    NotReproduced,
}

/// Find where a wrong answer comes from, given the same query answered with a
/// checkpoint, without one, and by the baseline.
pub fn diagnose(with_ckpt: &PartitionPnl, without: &PartitionPnl, base: &PartitionPnl) -> (r:
    Divergence)
    ensures
        r == (if with_ckpt@ != without@ {
            if without@ != base@ {
                Divergence::Both
            } else {
                Divergence::Checkpoint
            }
        } else if without@ != base@ {
            Divergence::Data
        } else {
            Divergence::NotReproduced
        }),
{
    let ckpt_bad = !same_pnl(with_ckpt, without);
    let data_bad = !same_pnl(without, base);
    if ckpt_bad {
        if data_bad {
            Divergence::Both
        } else {
            Divergence::Checkpoint
        }
    } else if data_bad {
        Divergence::Data
    } else {
        Divergence::NotReproduced
    }
}

/// Whether two results match the same shares in the three buckets of the default
/// rules, as a GPU result is held against another.
pub fn same_qty(a: &PartitionPnl, b: &PartitionPnl) -> (r: bool)
    ensures
        r == (a@[0].qty == b@[0].qty && a@[1].qty == b@[1].qty && a@[2].qty == b@[2].qty),
{
    a.intraday().matched_qty == b.intraday().matched_qty && a.short().matched_qty
        == b.short().matched_qty && a.long().matched_qty == b.long().matched_qty
}

// ---------------------------------------------------------------------------
// Laws
// ---------------------------------------------------------------------------

/// The clients of a table are counted in its order: a partition adds its records to
/// its client where the partition before it was of the same client, and else the
/// client is a new one.
pub proof fn lemma_partition_adds_records(m: TableModel, p: int)
    requires
        0 <= p,
    ensures
        ({
            let was = client_rows(m, p);
            let now = client_rows(m, p + 1);
            let rows = m.offsets[p + 1] - m.offsets[p];
            &&& client_rows(m, 0).len() == 0
            &&& now.len() > 0 && now.last().0 == m.clients[p]
            &&& p > 0 && m.clients[p - 1] == m.clients[p] ==> now.len() == was.len()
                && now.drop_last() == was.drop_last() && now.last().1 == was.last().1 + rows
            &&& p == 0 || m.clients[p - 1] != m.clients[p] ==> now.len() == was.len() + 1
                && now.drop_last() == was && now.last().1 == rows
        }),
{
    let was = client_rows(m, p);
    let now = client_rows(m, p + 1);
    if p > 0 {
        assert(was.len() > 0 && was.last().0 == m.clients[p - 1]);
    }
    if p > 0 && m.clients[p - 1] == m.clients[p] {
        assert(now.drop_last() =~= was.drop_last());
    } else {
        assert(now.drop_last() =~= was);
    }
}

/// The whale that is asked about has the most records of all whales, and is the first
/// of those; where no whale has any, it is client 0.
pub proof fn lemma_best_whale_has_most(cfg: GenConfig, cs: Seq<(u64, int)>)
    ensures
        ({
            let best = best_whale(cfg, cs);
            &&& forall|i: int|
                0 <= i < cs.len() && cfg.whale((#[trigger] cs[i]).0 as int) ==> cs[i].1 <= best.1
            &&& best.1 >= 0
            &&& best.1 == 0 ==> best.0 == 0
            &&& best.1 > 0 ==> exists|k: int|
                {
                    &&& 0 <= k < cs.len()
                    &&& best == #[trigger] cs[k]
                    &&& cfg.whale(cs[k].0 as int)
                    &&& forall|i: int|
                        0 <= i < k && cfg.whale((#[trigger] cs[i]).0 as int) ==> cs[i].1 < best.1
                }
        }),
    decreases cs.len(),
{
    if cs.len() > 0 {
        let head = cs.drop_last();
        let last = cs.len() - 1;
        lemma_best_whale_has_most(cfg, head);
        let was = best_whale(cfg, head);
        let best = best_whale(cfg, cs);
        assert forall|i: int|
            0 <= i < cs.len() && cfg.whale((#[trigger] cs[i]).0 as int) implies cs[i].1 <= best.1 by {
            if i < last {
                assert(head[i] == cs[i]);
            }
        }
        if best.1 > 0 {
            if cfg.whale(cs.last().0 as int) && cs.last().1 > was.1 {
                assert forall|i: int|
                    0 <= i < last && cfg.whale((#[trigger] cs[i]).0 as int) implies cs[i].1
                    < best.1 by {
                    assert(head[i] == cs[i]);
                }
                assert(best == cs[last]);
            } else {
                let k = choose|k: int|
                    {
                        &&& 0 <= k < head.len()
                        &&& was == #[trigger] head[k]
                        &&& cfg.whale(head[k].0 as int)
                        &&& forall|i: int|
                            0 <= i < k && cfg.whale((#[trigger] head[i]).0 as int) ==> head[i].1
                                < was.1
                    };
                assert(best == cs[k]);
                assert forall|i: int|
                    0 <= i < k && cfg.whale((#[trigger] cs[i]).0 as int) implies cs[i].1
                    < best.1 by {
                    assert(head[i] == cs[i]);
                }
            }
        }
    }
}

/// The other client that is asked about is the first that is no whale and has at
/// least four records.
pub proof fn lemma_retail_is_first(cfg: GenConfig, cs: Seq<(u64, int)>)
    ensures
        match first_retail(cfg, cs) {
            Some(c) => exists|k: int|
                {
                    &&& 0 <= k < cs.len()
                    &&& (#[trigger] cs[k]).0 == c
                    &&& !cfg.whale(c as int)
                    &&& cs[k].1 >= 4
                    &&& forall|i: int|
                        0 <= i < k ==> cfg.whale((#[trigger] cs[i]).0 as int) || cs[i].1 < 4
                },
            None => forall|i: int|
                0 <= i < cs.len() ==> cfg.whale((#[trigger] cs[i]).0 as int) || cs[i].1 < 4,
        },
    decreases cs.len(),
{
    if cs.len() > 0 {
        let head = cs.drop_last();
        let last = cs.len() - 1;
        lemma_retail_is_first(cfg, head);
        match first_retail(cfg, head) {
            Some(c) => {
                let k = choose|k: int|
                    {
                        &&& 0 <= k < head.len()
                        &&& (#[trigger] head[k]).0 == c
                        &&& !cfg.whale(c as int)
                        &&& head[k].1 >= 4
                        &&& forall|i: int|
                            0 <= i < k ==> cfg.whale((#[trigger] head[i]).0 as int) || head[i].1 < 4
                    };
                assert(cs[k].0 == c);
                assert forall|i: int| 0 <= i < k implies cfg.whale((#[trigger] cs[i]).0 as int)
                    || cs[i].1 < 4 by {
                    assert(head[i] == cs[i]);
                }
            },
            None => {
                assert forall|i: int| 0 <= i < last implies cfg.whale(
                    (#[trigger] cs[i]).0 as int,
                ) || cs[i].1 < 4 by {
                    assert(head[i] == cs[i]);
                }
                assert(cs[last] == cs.last());
            },
        }
    }
}

/// Cutoffs stand evenly among the trading days: of `count` of them, cutoff `k` has as
/// many days before it as its share of all days comes to, rounded down.
pub proof fn lemma_cutoffs_stand_evenly(n: int, count: int, k: int)
    requires
        n > 0,
        0 <= k < count,
    ensures
        0 <= spaced(n, count, k) < n,
        spaced(n, count, k) * (count + 1) <= n * (k + 1) < (spaced(n, count, k) + 1) * (count + 1),
{
    let i = n * (k + 1) / (count + 1);
    assert(0 <= i < n && i * (count + 1) <= n * (k + 1) < (i + 1) * (count + 1)) by (nonlinear_arith)
        requires
            n > 0,
            0 <= k < count,
            i == n * (k + 1) / (count + 1),
    ;
}

/// The queries of the benchmark, one by one.
pub proof fn lemma_matrix_asks(td: Seq<i64>, whale: u64, retail: u64)
    requires
        td.len() > 0,
    ensures
        ({
            let q = matrix(td, whale, retail);
            let n = td.len() as int;
            let last = n - 1;
            let mid = td[n / 2] as i32;
            let later = td[if n / 2 + 22 < n {
                n / 2 + 22
            } else {
                last
            }] as i32;
            &&& q.len() == 7
            &&& forall|i: int| 0 <= i < 7 ==> (#[trigger] q[i]).1.symbol is None
            &&& forall|i: int| 0 <= i < 4 ==> (#[trigger] q[i]).1.clients == ClientSel::One(whale)
            &&& q[4].1.clients == ClientSel::One(retail)
            &&& q[5].1.clients == ClientSel::One(retail)
            &&& q[6].1.clients is All
            &&& q[0].1.span == Span::Range(mid, mid)
            &&& q[1].1.span == Span::Range(mid, later)
            &&& q[2].1.span == Span::Range(td[n / 10] as i32, td[n * 7 / 10] as i32)
            &&& q[3].1.span is Full
            &&& q[4].1.span == Span::Range(mid, later)
            &&& q[5].1.span is Full
            &&& q[6].1.span is Full
            &&& q[0].0 == "whale 1-day"@
            &&& q[1].0 == "whale 1-month"@
            &&& q[2].0 == "whale random-range"@
            &&& q[3].0 == "whale all-history"@
            &&& q[4].0 == "retail 1-month"@
            &&& q[5].0 == "retail all-history"@
            &&& q[6].0 == "cross-client all-history"@
        }),
{
}

/// Over days in order, the ranges of the benchmark run forwards.
pub proof fn lemma_matrix_ranges_run_forwards(td: Seq<i64>, whale: u64, retail: u64, i: int)
    requires
        td.len() > 0,
        forall|a: int, b: int| 0 <= a <= b < td.len() ==> td[a] <= td[b],
        forall|a: int| 0 <= a < td.len() ==> i32::MIN <= #[trigger] td[a] <= i32::MAX,
        0 <= i < 7,
    ensures
        matrix(td, whale, retail)[i].1.span matches Span::Range(lo, hi) ==> lo <= hi,
{
    let n = td.len() as int;
    assert(td[n / 2] <= td[n - 1]);
    if n / 2 + 22 < n {
        assert(td[n / 2] <= td[n / 2 + 22]);
    }
    assert(td[n / 10] <= td[n * 7 / 10]);
    assert(i == 0 || i == 1 || i == 2 || i == 3 || i == 4 || i == 5 || i == 6);
}

/// A number as text holds no comma.
proof fn lemma_no_comma(v: int)
    ensures
        forall|k: int| 0 <= k < int_text(v).len() ==> #[trigger] int_text(v)[k] != ',',
{
    let ds = crate::text::decimal(crate::text::magnitude(v));
    crate::text::lemma_decimal(crate::text::magnitude(v));
    let sg = crate::text::sign(v);
    assert forall|k: int| 0 <= k < int_text(v).len() implies #[trigger] int_text(v)[k] != ',' by {
        if k >= sg.len() {
            assert(int_text(v)[k] == ds[k - sg.len()]);
            assert(crate::text::is_digit(ds[k - sg.len()]));
        }
    }
}

/// Two spans are written alike only if they are the same.
pub proof fn lemma_span_text_injective(lo: i32, hi: i32, lo2: i32, hi2: i32)
    ensures
        span_text(Span::Range(lo, hi)) != span_text(Span::Full),
        span_text(Span::Range(lo, hi)) == span_text(Span::Range(lo2, hi2)) ==> lo == lo2 && hi
            == hi2,
{
    reveal_strlit("range[");
    reveal_strlit("all-history");
    let a = span_text(Span::Range(lo, hi));
    let b = span_text(Span::Range(lo2, hi2));
    assert(a[0] == 'r');
    assert("all-history"@[0] == 'a');
    if a == b {
        let x = int_text(lo as int);
        let y = int_text(lo2 as int);
        lemma_no_comma(lo as int);
        lemma_no_comma(lo2 as int);
        lemma_no_comma(hi as int);
        lemma_no_comma(hi2 as int);
        let xn = x.len() as int;
        let yn = y.len() as int;
        assert(a[6 + xn] == ',');
        assert(b[6 + yn] == ',');
        if xn < yn {
            assert(b[6 + xn] == y[xn]);
        } else if yn < xn {
            assert(a[6 + yn] == x[yn]);
        }
        assert(a.subrange(6, 6 + xn) =~= x);
        assert(b.subrange(6, 6 + yn) =~= y);
        crate::text::lemma_int_text_injective(lo as int, lo2 as int);
        let n = a.len() as int;
        let at = 6 + xn + 1;
        assert(a.subrange(at, n - 1) =~= int_text(hi as int));
        assert(b.subrange(at, n - 1) =~= int_text(hi2 as int));
        crate::text::lemma_int_text_injective(hi as int, hi2 as int);
    }
}

} // verus!
