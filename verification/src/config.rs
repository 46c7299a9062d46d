//! What a generated tradebook is made from: the numbers that count clients,
//! days and rows.

use vstd::prelude::*;
use crate::calendar::{self, day_number, is_trading_calendar};
use crate::util::{mix_seed, mixed_seed, seeded_stream, stream};

verus! {

#[derive(Clone, Copy, Debug, PartialEq, Eq, Structural)]
pub struct GenConfig {
    pub seed: u64,
    /// Number of clients.
    pub clients: u64,
    /// First day of the calendar, as a day number.
    pub start_day: i64,
    /// Number of trading days.
    pub days: u32,
    /// Number of symbols.
    pub symbols: u32,
    /// Number of whales, spread evenly over the ids.
    pub n_whales: u64,
    pub rows_per_file: usize,
    pub batch_rows: usize,
}

impl GenConfig {
    /// How far apart the whales' ids are.
    pub open spec fn stride(self) -> int {
        let n = if self.n_whales > 0 {
            self.n_whales as int
        } else {
            1
        };
        let s = (self.clients as int) / n;
        if s > 0 {
            s
        } else {
            1
        }
    }

    /// Whether the client is a whale.
    pub open spec fn whale(self, id: int) -> bool {
        id % self.stride() == 0 && id / self.stride() < self.n_whales
    }

    /// How far apart the whales' ids are, so that heavy partitions are spread
    /// over the data and not bunched at its front.
    pub fn whale_stride(&self) -> (s: u64)
        ensures
            s == self.stride(),
    {
        let n: u64 = if self.n_whales > 0 {
            self.n_whales
        } else {
            1
        };
        let s: u64 = self.clients / n;
        if s > 0 {
            s
        } else {
            1
        }
    }

    pub fn is_whale(&self, id: u64) -> (r: bool)
        ensures
            r == self.whale(id as int),
    {
        let s: u64 = self.whale_stride();
        id % s == 0 && id / s < self.n_whales
    }

    /// The whale's place among the whales.
    pub fn whale_index(&self, id: u64) -> (r: u64)
        ensures
            r == id as int / self.stride(),
    {
        id / self.whale_stride()
    }

    /// The trading days of the tradebook.
    pub fn trading_days(&self) -> (r: Vec<i64>)
        requires
            self.start_day + self.days + (2 * self.days + 10) / 5 <= i64::MAX,
        ensures
            is_trading_calendar(r@, self.start_day as int, self.days as int),
    {
        calendar::trading_days(self.start_day, self.days)
    }

    /// The stream that is drawn from for a client and a purpose: a function of
    /// the seed, the client and the purpose alone.
    pub fn client_stream(&self, id: u64, salt: u64) -> (r: rand_chacha::ChaCha8Rng)
        ensures
            r == seeded_stream(mixed_seed(self.seed, id, salt)),
    {
        stream(mix_seed(self.seed, id, salt))
    }

    pub fn defaults() -> (r: Self)
        ensures
            r == (GenConfig {
                seed: 42,
                clients: 5_000,
                start_day: day_number(2020, 1, 1) as i64,
                days: 250,
                symbols: 1_000,
                n_whales: 8,
                rows_per_file: 8_000_000,
                batch_rows: 1_000_000,
            }),
            r.start_day == 18_262,
    {
        GenConfig {
            seed: 42,
            clients: 5_000,
            start_day: calendar::days_from_civil(2020, 1, 1),
            days: 250,
            symbols: 1_000,
            n_whales: 8,
            rows_per_file: 8_000_000,
            batch_rows: 1_000_000,
        }
    }
}

/// How many of the ids below `c` are whales.
pub open spec fn whales_below(cfg: GenConfig, c: int) -> int
    decreases c,
{
    if c <= 0 {
        0
    } else {
        whales_below(cfg, c - 1) + (if cfg.whale(c - 1) {
            1int
        } else {
            0int
        })
    }
}

/// How many multiples of `s`, zero among them, lie below `c`.
spec fn multiples(c: int, s: int) -> int {
    (c + s - 1) / s
}

proof fn lemma_multiples_step(c: int, s: int)
    requires
        s > 0,
        c >= 0,
    ensures
        multiples(0, s) == 0,
        multiples(c + 1, s) == multiples(c, s) + (if c % s == 0 {
            1int
        } else {
            0int
        }),
        c % s == 0 ==> multiples(c, s) == c / s,
{
    let q = c / s;
    let r = c % s;
    assert(c == q * s + r && 0 <= r < s) by (nonlinear_arith)
        requires
            s > 0,
            q == c / s,
            r == c % s,
    ;
    assert((s - 1) / s == 0) by (nonlinear_arith)
        requires
            s > 0,
    ;
    assert((c + s) / s == q + 1) by (nonlinear_arith)
        requires
            s > 0,
            c == q * s + r,
            0 <= r < s,
    ;
    if r == 0 {
        assert((c + s - 1) / s == q) by (nonlinear_arith)
            requires
                s > 0,
                c == q * s,
        ;
    } else {
        assert((c + s - 1) / s == q + 1) by (nonlinear_arith)
            requires
                s > 0,
                c == q * s + r,
                0 < r < s,
        ;
    }
}

proof fn lemma_whales_below(cfg: GenConfig, c: int)
    requires
        c >= 0,
    ensures
        whales_below(cfg, c) == (if multiples(c, cfg.stride()) < cfg.n_whales {
            multiples(c, cfg.stride())
        } else {
            cfg.n_whales as int
        }),
    decreases c,
{
    let s = cfg.stride();
    if c == 0 {
        lemma_multiples_step(0, s);
    } else {
        lemma_whales_below(cfg, c - 1);
        lemma_multiples_step(c - 1, s);
    }
}

/// There are as many whales as were asked for, unless there are not so many
/// clients: then every client is one.
pub proof fn lemma_whale_count(cfg: GenConfig)
    ensures
        whales_below(cfg, cfg.clients as int) == (if cfg.n_whales <= cfg.clients {
            cfg.n_whales as int
        } else {
            cfg.clients as int
        }),
{
    let s = cfg.stride();
    let c = cfg.clients as int;
    let n = cfg.n_whales as int;
    lemma_whales_below(cfg, c);
    if n > 0 && n <= c {
        assert(c / n > 0) by (nonlinear_arith)
            requires
                0 < n <= c,
        ;
        assert(s == c / n);
        assert(n * s <= c) by (nonlinear_arith)
            requires
                0 < n,
                s == c / n,
        ;
        assert((c + s - 1) / s >= n) by (nonlinear_arith)
            requires
                n * s <= c,
                s > 0,
        ;
    } else if n > c {
        assert(c / n == 0) by (nonlinear_arith)
            requires
                0 <= c < n,
        ;
        assert(s == 1);
        assert(multiples(c, 1) == c);
    }
}

/// The whales stand evenly apart: the first of the clients is one, and from one to the
/// next it is as many clients as divide among them, the rest left over at the end.
pub proof fn lemma_whales_stand_evenly(cfg: GenConfig, id: int)
    requires
        0 < cfg.n_whales <= cfg.clients,
        0 <= id,
    ensures
        cfg.stride() * cfg.n_whales <= cfg.clients < (cfg.stride() + 1) * cfg.n_whales,
        cfg.whale(id) <==> exists|k: int|
            0 <= k < cfg.n_whales && id == #[trigger] (k * cfg.stride()),
{
    let s = cfg.stride();
    let n = cfg.n_whales as int;
    let c = cfg.clients as int;
    assert(c / n > 0 && (c / n) * n <= c < (c / n + 1) * n) by (nonlinear_arith)
        requires
            0 < n <= c,
    ;
    assert(s == c / n);
    let q = id / s;
    assert(id == q * s + id % s && 0 <= q) by (nonlinear_arith)
        requires
            s > 0,
            id >= 0,
            q == id / s,
    ;
    if cfg.whale(id) {
        assert(id == q * s);
    }
    if exists|k: int| 0 <= k < cfg.n_whales && id == #[trigger] (k * cfg.stride()) {
        let k = choose|k: int| 0 <= k < cfg.n_whales && id == #[trigger] (k * cfg.stride());
        assert(id % s == 0 && id / s == k) by (nonlinear_arith)
            requires
                s > 0,
                id == k * s,
        ;
    }
}

/// Where there are no more clients than whales were asked for, every client is one,
/// and where none were asked for, none is.
pub proof fn lemma_all_or_no_whales(cfg: GenConfig, id: int)
    requires
        0 <= id < cfg.clients,
    ensures
        cfg.clients <= cfg.n_whales ==> cfg.whale(id),
        cfg.n_whales == 0 ==> !cfg.whale(id),
{
    let s = cfg.stride();
    if cfg.clients <= cfg.n_whales {
        let c = cfg.clients as int;
        let n = cfg.n_whales as int;
        assert(c / n <= 1) by (nonlinear_arith)
            requires
                0 < c <= n,
        ;
        assert(s == 1);
    }
    if cfg.n_whales == 0 {
        assert(id / s >= 0) by (nonlinear_arith)
            requires
                s > 0,
                id >= 0,
        ;
    }
}

/// A whale's place among the whales counts those before it.
pub proof fn lemma_whale_places(cfg: GenConfig, k: int)
    requires
        0 <= k < cfg.n_whales,
    ensures
        (k * cfg.stride()) / cfg.stride() == k,
        cfg.whale(k * cfg.stride()),
{
    let s = cfg.stride();
    assert((k * s) % s == 0 && (k * s) / s == k) by (nonlinear_arith)
        requires
            s > 0,
    ;
}

} // verus!
