//! Making trades: how a client's trades are shared out over symbols, and the
//! walk that makes the trades of one symbol.
//!
//! A walk moves forward through the calendar, gives every trade of a day a time of
//! its own, in order, and never sells what it has not bought.

use rand_chacha::ChaCha8Rng;
use vstd::prelude::*;
use crate::calendar::{ts_micros, ts_of, SESSION_US};
use crate::schema::Trade;
use crate::stats::sum_of;
use crate::util::{draw_below, draw_u32, range_draw, word_draw};

verus! {

// ---------------------------------------------------------------------------
// Sharing out
// ---------------------------------------------------------------------------

/// One more for each share in turn, `k` times.
pub open spec fn raised(s: Seq<u64>, k: int) -> Seq<u64>
    decreases k,
{
    if k <= 0 {
        s
    } else {
        let t = raised(s, k - 1);
        let i = (k - 1) % (s.len() as int);
        t.update(i, (t[i] + 1) as u64)
    }
}

/// The last of the largest shares above one, among the first `m`.
pub open spec fn fattest(s: Seq<u64>, m: int) -> Option<int>
    decreases m,
{
    if m <= 0 {
        None
    } else {
        let b = fattest(s, m - 1);
        if s[m - 1] > 1 && (b is None || s[m - 1] >= s[b->0]) {
            Some(m - 1)
        } else {
            b
        }
    }
}

/// The share to take one from: the last of the largest, or the first where none
/// is above one.
pub open spec fn shave_at(s: Seq<u64>) -> int {
    match fattest(s, s.len() as int) {
        Some(i) => i,
        None => 0,
    }
}

/// One less for the largest share, `k` times.
pub open spec fn shaved(s: Seq<u64>, k: int) -> Seq<u64>
    decreases k,
{
    if k <= 0 {
        s
    } else {
        let t = shaved(s, k - 1);
        t.update(shave_at(t), (t[shave_at(t)] - 1) as u64)
    }
}

/// The shares, brought to sum to `count`.
pub open spec fn settled(s: Seq<u64>, count: int) -> Seq<u64> {
    if sum_of(s) <= count {
        raised(s, count - sum_of(s))
    } else {
        shaved(s, sum_of(s) - count)
    }
}

proof fn lemma_sum_update(s: Seq<u64>, i: int, x: u64)
    requires
        0 <= i < s.len(),
    ensures
        sum_of(s.update(i, x)) == sum_of(s) - s[i] + x,
    decreases s.len(),
{
    if i == s.len() - 1 {
        assert(s.update(i, x).drop_last() =~= s.drop_last());
    } else {
        lemma_sum_update(s.drop_last(), i, x);
        assert(s.update(i, x).drop_last() =~= s.drop_last().update(i, x));
    }
}

proof fn lemma_sum_at_least(s: Seq<u64>, i: int)
    requires
        0 <= i < s.len(),
    ensures
        s[i] <= sum_of(s),
        sum_of(s) >= 0,
    decreases s.len(),
{
    let head = s.drop_last();
    if i < head.len() {
        lemma_sum_at_least(head, i);
    } else if head.len() > 0 {
        lemma_sum_at_least(head, 0);
    }
}

proof fn lemma_fattest(s: Seq<u64>, m: int)
    requires
        0 <= m <= s.len(),
    ensures
        fattest(s, m) matches Some(i) ==> 0 <= i < m && s[i] > 1,
        fattest(s, m) is None ==> forall|j: int| 0 <= j < m ==> #[trigger] s[j] <= 1,
    decreases m,
{
    if m > 0 {
        lemma_fattest(s, m - 1);
    }
}

/// Shares of one each sum to their number.
proof fn lemma_all_ones(s: Seq<u64>)
    requires
        forall|j: int| 0 <= j < s.len() ==> #[trigger] s[j] <= 1,
    ensures
        sum_of(s) <= s.len(),
    decreases s.len(),
{
    if s.len() > 0 {
        let head = s.drop_last();
        assert(s[s.len() - 1] <= 1);
        assert forall|j: int| 0 <= j < head.len() implies #[trigger] head[j] <= 1 by {
            assert(head[j] == s[j]);
        }
        lemma_all_ones(head);
    }
}

fn find_fattest(s: &Vec<u64>) -> (r: usize)
    requires
        s@.len() > 0,
    ensures
        r == shave_at(s@),
        r < s@.len(),
{
    let mut best: Option<usize> = None;
    let mut i: usize = 0;
    while i < s.len()
        invariant
            i <= s@.len(),
            match best {
                Some(b) => fattest(s@, i as int) == Some(b as int) && b < i,
                None => fattest(s@, i as int) is None,
            },
        decreases s@.len() - i,
    {
        if s[i] > 1 {
            match best {
                Some(b) => {
                    if s[i] >= s[b] {
                        best = Some(i);
                    }
                },
                None => {
                    best = Some(i);
                },
            }
        }
        i = i + 1;
    }
    match best {
        Some(b) => b,
        None => 0,
    }
}

/// Bring shares, each at least one, to sum to `count`: too few are raised in
/// turn from the first, too many are taken from the largest.
pub fn settle_counts(shares: Vec<u64>, count: u64) -> (r: Vec<u64>)
    requires
        shares@.len() > 0,
        forall|i: int| 0 <= i < shares@.len() ==> #[trigger] shares@[i] >= 1,
        sum_of(shares@) <= u64::MAX,
        shares@.len() <= count + 1,
    ensures
        r@ == settled(shares@, count as int),
        r@.len() == shares@.len(),
        sum_of(r@) == count,
        shares@.len() <= count ==> forall|i: int| 0 <= i < r@.len() ==> #[trigger] r@[i] >= 1,
{
    let ghost s0 = shares@;
    let mut alloc: Vec<u64> = shares;
    let n: usize = alloc.len();
    let mut assigned: u64 = 0;
    let mut j: usize = 0;
    assert(s0.take(0) =~= Seq::empty());
    while j < n
        invariant
            n == s0.len(),
            alloc@ == s0,
            j <= n,
            sum_of(s0) <= u64::MAX,
            assigned == sum_of(s0.take(j as int)),
        decreases n - j,
    {
        assert(s0.take(j + 1).drop_last() =~= s0.take(j as int));
        proof {
            lemma_sum_prefix(s0, j + 1);
        }
        assigned = assigned + alloc[j];
        j = j + 1;
    }
    assert(s0.take(n as int) =~= s0);
    let ghost total = assigned as int;
    let mut at: usize = 0;
    while assigned < count
        invariant
            n == s0.len(),
            n > 0,
            alloc@.len() == n,
            total == sum_of(s0),
            total <= count ==> assigned <= count,
            total > count ==> assigned == total,
            total <= assigned,
            assigned == sum_of(alloc@),
            alloc@ == raised(s0, assigned - total),
            at == (assigned - total) % (n as int),
            at < n,
            forall|k: int| 0 <= k < n ==> #[trigger] alloc@[k] >= 1,
        decreases count - assigned,
    {
        proof {
            lemma_sum_at_least(alloc@, at as int);
            lemma_sum_update(alloc@, at as int, (alloc@[at as int] + 1) as u64);
            lemma_next_turn(assigned - total, n as int);
        }
        alloc[at] = alloc[at] + 1;
        assigned = assigned + 1;
        at = if at + 1 < n {
            at + 1
        } else {
            0
        };
    }
    while assigned > count
        invariant
            n == s0.len(),
            n > 0,
            n <= count + 1,
            alloc@.len() == n,
            total == sum_of(s0),
            total <= count ==> assigned == count && alloc@ == raised(s0, count - total),
            total > count ==> count <= assigned <= total && alloc@ == shaved(
                s0,
                total - assigned,
            ),
            assigned == sum_of(alloc@),
            assigned >= n || assigned == count,
            assigned >= n ==> forall|k: int| 0 <= k < n ==> #[trigger] alloc@[k] >= 1,
        decreases assigned - count,
    {
        let idx: usize = find_fattest(&alloc);
        proof {
            lemma_fattest(alloc@, n as int);
            lemma_sum_at_least(alloc@, idx as int);
            lemma_sum_update(alloc@, idx as int, (alloc@[idx as int] - 1) as u64);
            if fattest(alloc@, n as int) is None {
                lemma_all_ones(alloc@);
            }
        }
        alloc[idx] = alloc[idx] - 1;
        assigned = assigned - 1;
    }
    alloc
}

proof fn lemma_sum_prefix(s: Seq<u64>, k: int)
    requires
        0 <= k <= s.len(),
    ensures
        0 <= sum_of(s.take(k)) <= sum_of(s),
    decreases s.len() - k,
{
    if k == s.len() {
        assert(s.take(k) =~= s);
        if k > 0 {
            lemma_sum_at_least(s, 0);
        }
    } else {
        lemma_sum_prefix(s, k + 1);
        assert(s.take(k + 1).drop_last() =~= s.take(k));
        if k > 0 {
            lemma_sum_at_least(s.take(k), 0);
        }
    }
}

proof fn lemma_next_turn(k: int, n: int)
    requires
        0 <= k,
        n > 0,
    ensures
        (k + 1) % n == (if k % n + 1 < n {
            k % n + 1
        } else {
            0
        }),
        0 <= k % n < n,
{
    let q = k / n;
    let r = k % n;
    assert(k == n * q + r && 0 <= r < n) by (nonlinear_arith)
        requires
            n > 0,
            q == k / n,
            r == k % n,
    ;
    assert(q * n == n * q && (q + 1) * n == n * q + n) by (nonlinear_arith);
    if r + 1 < n {
        vstd::arithmetic::div_mod::lemma_fundamental_div_mod_converse(k + 1, n, q, r + 1);
    } else {
        vstd::arithmetic::div_mod::lemma_fundamental_div_mod_converse(k + 1, n, q + 1, 0);
    }
}

// ---------------------------------------------------------------------------
// The walk
// ---------------------------------------------------------------------------

/// A gap of `1 + g` trading days, no less than one and no more than thirty.
pub fn short_gap(g: i64) -> (r: i64)
    requires
        g < i64::MAX,
    ensures
        r == (if g < 0 {
            1
        } else if g > 29 {
            30
        } else {
            1 + g
        }),
{
    if g < 0 {
        1
    } else if g > 29 {
        30
    } else {
        1 + g
    }
}

/// A long gap: at least a third of the calendar, and less than all of it.
pub fn long_gap(rng: &mut ChaCha8Rng, ndays: i64) -> (r: i64)
    requires
        ndays > 3,
    ensures
        ndays / 3 <= r < ndays,
        (r, *final(rng)) == range_draw(*old(rng), (ndays / 3) as i64, ndays),
{
    draw_below(rng, ndays / 3, ndays)
}

/// A venue, one of five.
pub fn draw_venue(rng: &mut ChaCha8Rng) -> (r: u8)
    ensures
        r == word_draw(*old(rng)).0 % 5,
        *final(rng) == word_draw(*old(rng)).1,
{
    (draw_u32(rng) % 5) as u8
}

/// What a walk is told of its next trade: how many trading days on, what was drawn for
/// its place within the session, whether a sell is called for, how many shares are
/// wanted, the price and the venue.
#[derive(Clone, Copy, Debug)]
pub struct Step {
    pub gap: i64,
    pub draw: i64,
    pub sell: bool,
    pub wanted: u64,
    pub price_ticks: i32,
    pub venue: u8,
}

/// The walk of one client in one symbol.
#[derive(Debug)]
pub struct SymbolWalk {
    pub client_id: u64,
    pub symbol_id: u32,
    /// The id of the next trade.
    pub next_id: u64,
    /// Trades still to come.
    pub left: u64,
    /// Place in the calendar.
    pub day_pos: i64,
    /// Day of the last trade, if there was one.
    pub last_z: Option<i64>,
    /// How far into its session the last trade was aimed, in microseconds.
    pub last_off: i64,
    /// Shares held.
    pub inv: u64,
    /// The trades of that day, at the times they were aimed at. Once no more trades
    /// fall on the day they are handed out, each at a time of its own.
    pub held: Vec<Trade>,
}

/// What a walk is.
pub struct WalkModel {
    pub client_id: u64,
    pub symbol_id: u32,
    pub next_id: int,
    pub left: int,
    pub day_pos: int,
    pub last_z: Option<i64>,
    pub last_off: int,
    pub inv: int,
    pub held: Seq<Trade>,
}

impl View for SymbolWalk {
    type V = WalkModel;

    open spec fn view(&self) -> WalkModel {
        WalkModel {
            client_id: self.client_id,
            symbol_id: self.symbol_id,
            next_id: self.next_id as int,
            left: self.left as int,
            day_pos: self.day_pos as int,
            last_z: self.last_z,
            last_off: self.last_off as int,
            inv: self.inv as int,
            held: self.held@,
        }
    }
}

/// The timestamps of day `z` fit 64 bits.
pub open spec fn day_fits(z: int) -> bool {
    i64::MIN <= ts_of(z, 0) && ts_of(z, SESSION_US as int) <= i64::MAX
}

/// The last time of the session of day `z`.
pub open spec fn close_of(z: int) -> int {
    ts_of(z, SESSION_US - 1)
}

/// Trades of one day, each at a time of its own: where it was aimed, or moved back to
/// where each of those that follow on that day still has a time before the close.
pub open spec fn spaced(held: Seq<Trade>, close: int) -> Seq<Trade> {
    Seq::new(
        held.len(),
        |i: int|
            Trade {
                ts_micros: (if held[i].ts_micros <= close - (held.len() - 1 - i) {
                    held[i].ts_micros as int
                } else {
                    close - (held.len() - 1 - i)
                }) as i64,
                ..held[i]
            },
    )
}

/// Times of day `z` as a walk aims them: within the session, and each after the one
/// before unless it is at the close.
pub open spec fn aimed(held: Seq<Trade>, z: int) -> bool {
    &&& held.len() <= SESSION_US
    &&& forall|i: int|
        0 <= i < held.len() ==> ts_of(z, i) <= (#[trigger] held[i]).ts_micros <= close_of(z)
    &&& forall|i: int, j: int|
        0 <= i < j < held.len() ==> (#[trigger] held[i]).ts_micros < (
        #[trigger] held[j]).ts_micros || held[j].ts_micros == close_of(z)
}

/// The side and the shares of a trade by one who holds `inv`: a sell only of what is
/// held.
pub open spec fn decided(inv: int, sell: bool, wanted: u64) -> (int, int) {
    if inv > 0 && sell {
        (-1, if wanted <= inv {
            wanted as int
        } else {
            inv
        })
    } else {
        (1, wanted as int)
    }
}

impl WalkModel {
    /// The walk stands on a day of the calendar, has ids for all its trades, and holds
    /// the trades of its last day as it aimed them.
    pub open spec fn wf(self, ndays: int) -> bool {
        &&& 0 <= self.day_pos < ndays
        &&& 0 <= self.left
        &&& 0 <= self.next_id
        &&& self.next_id + self.left <= u64::MAX
        &&& 0 <= self.inv
        &&& self.day_ok()
    }

    /// The trades held are of the last day, as they were aimed.
    pub open spec fn day_ok(self) -> bool {
        &&& 0 <= self.last_off < SESSION_US
        &&& match self.last_z {
            Some(z) => {
                &&& day_fits(z as int)
                &&& aimed(self.held, z as int)
                &&& self.held.len() > 0 ==> self.held.last().ts_micros == ts_of(
                    z as int,
                    self.last_off,
                )
                &&& self.held.len() <= self.last_off + 1 || self.last_off == SESSION_US - 1
            },
            None => self.held.len() == 0,
        }
    }

    /// The place in the calendar `gap` days on, or the last where that is nearer.
    pub open spec fn reached(self, gap: int, ndays: int) -> int {
        if self.day_pos + gap < ndays {
            self.day_pos + gap
        } else {
            ndays - 1
        }
    }

    /// The day on which a step places its trade.
    pub open spec fn day_of_step(self, cal: Seq<i64>, s: Step) -> i64 {
        cal[self.reached(s.gap as int, cal.len() as int)]
    }

    /// How far into the session of day `z` a trade is aimed, given a draw: on a new day
    /// the draw itself, on the same day the draw past the last trade, but no later than
    /// the close.
    pub open spec fn offset_of(self, z: i64, draw: int) -> int {
        if self.last_z == Some(z) {
            if self.last_off + draw < SESSION_US {
                self.last_off + draw
            } else {
                SESSION_US - 1
            }
        } else {
            draw
        }
    }

    /// Steps that a walk can take: not back, with a draw within the session, past the
    /// last trade where it is on the same day, and shares that can be counted.
    pub open spec fn can_step(self, cal: Seq<i64>, s: Step) -> bool {
        &&& self.left > 0
        &&& s.gap >= 0
        &&& 0 <= s.draw < SESSION_US
        &&& self.last_z == Some(self.day_of_step(cal, s)) ==> s.draw >= 1
        &&& self.inv + s.wanted <= u64::MAX
        &&& day_fits(self.day_of_step(cal, s) as int)
    }

    /// Whether the session of day `z` has a time left for one more trade.
    pub open spec fn has_room(self, z: i64) -> bool {
        self.last_z == Some(z) ==> self.held.len() < SESSION_US
    }

    /// The trade of a step, at the time it is aimed at. A quantity keeps its lowest 32
    /// bits.
    pub open spec fn trade_of(self, cal: Seq<i64>, s: Step) -> Trade {
        let z = self.day_of_step(cal, s);
        let d = decided(self.inv, s.sell, s.wanted);
        Trade {
            trade_id: self.next_id as u64,
            client_id: self.client_id,
            symbol_id: self.symbol_id,
            side: d.0 as i8,
            quantity: (d.1 % 0x1_0000_0000) as u32,
            price_ticks: s.price_ticks,
            ts_micros: ts_of(z as int, self.offset_of(z, s.draw as int)) as i64,
            venue: s.venue,
        }
    }

    /// The walk after a step.
    pub open spec fn stepped(self, cal: Seq<i64>, s: Step) -> WalkModel {
        let z = self.day_of_step(cal, s);
        let d = decided(self.inv, s.sell, s.wanted);
        WalkModel {
            next_id: self.next_id + 1,
            left: self.left - 1,
            day_pos: self.reached(s.gap as int, cal.len() as int),
            last_z: Some(z),
            last_off: self.offset_of(z, s.draw as int),
            inv: self.inv + d.0 * d.1,
            held: (if self.last_z == Some(z) {
                self.held
            } else {
                Seq::empty()
            }).push(self.trade_of(cal, s)),
            ..self
        }
    }

    /// The trades held, each at a time of its own.
    pub open spec fn settled_day(self) -> Seq<Trade> {
        match self.last_z {
            Some(z) => spaced(self.held, close_of(z as int)),
            None => Seq::empty(),
        }
    }

    /// The trades that a step hands out: those of the last day, where the step leaves it.
    pub open spec fn handed_out(self, cal: Seq<i64>, s: Step) -> Seq<Trade> {
        if self.last_z == Some(self.day_of_step(cal, s)) {
            Seq::empty()
        } else {
            self.settled_day()
        }
    }
}

impl SymbolWalk {
    /// A walk of `left` trades from a given place in the calendar, with ids from
    /// `first_id` on.
    pub fn start_at(
        client_id: u64,
        symbol_id: u32,
        day_pos: i64,
        ndays: i64,
        first_id: u64,
        left: u64,
    ) -> (r: Self)
        requires
            0 <= day_pos < ndays,
            first_id + left <= u64::MAX,
        ensures
            r@.wf(ndays as int),
            r@ == starting(client_id, symbol_id, day_pos as int, first_id as int, left as int),
            r.client_id == client_id,
            r.symbol_id == symbol_id,
            r.day_pos == day_pos,
            r.next_id == first_id,
            r.left == left,
            r.inv == 0,
            r.last_z is None,
            r.held@.len() == 0,
    {
        let held: Vec<Trade> = Vec::new();
        assert(held@ =~= Seq::empty());
        SymbolWalk {
            client_id,
            symbol_id,
            next_id: first_id,
            left,
            day_pos,
            last_z: None,
            last_off: 0,
            inv: 0,
            held,
        }
    }

    /// A walk that starts on any day of the calendar.
    pub fn start(
        rng: &mut ChaCha8Rng,
        client_id: u64,
        symbol_id: u32,
        ndays: i64,
        first_id: u64,
        left: u64,
    ) -> (r: Self)
        requires
            ndays > 0,
            first_id + left <= u64::MAX,
        ensures
            r@.wf(ndays as int),
            r@ == starting(
                client_id,
                symbol_id,
                range_draw(*old(rng), 0, ndays).0 as int,
                first_id as int,
                left as int,
            ),
            *final(rng) == range_draw(*old(rng), 0, ndays).1,
    {
        let day_pos: i64 = draw_below(rng, 0, ndays);
        Self::start_at(client_id, symbol_id, day_pos, ndays, first_id, left)
    }

    /// The place in the calendar `gap` days on, or the last where that is nearer.
    pub fn reach(&self, gap: i64, ndays: i64) -> (pos: i64)
        requires
            self@.wf(ndays as int),
            gap >= 0,
        ensures
            pos == self@.reached(gap as int, ndays as int),
            self.day_pos <= pos < ndays,
            self.day_pos + gap < ndays ==> pos == self.day_pos + gap,
            self.day_pos + gap >= ndays ==> pos == ndays - 1,
    {
        if gap < ndays - self.day_pos {
            self.day_pos + gap
        } else {
            ndays - 1
        }
    }

    /// What is drawn for the next trade's place within the session of day `z`, and
    /// the stream after the draw: on a new day any time of the first half, on the
    /// same day a step of up to an eighth of the session.
    pub open spec fn offset_draw(last_z: Option<i64>, rng: ChaCha8Rng, z: i64) -> (i64, ChaCha8Rng) {
        if last_z == Some(z) {
            range_draw(rng, 1, (SESSION_US / 8 + 1) as i64)
        } else {
            range_draw(rng, 0, (SESSION_US / 2) as i64)
        }
    }

    /// Draw the next trade's place within the session of day `z`.
    pub fn draw_offset(&self, rng: &mut ChaCha8Rng, z: i64) -> (draw: i64)
        ensures
            (draw, *final(rng)) == Self::offset_draw(self.last_z, *old(rng), z),
            self.last_z == Some(z) ==> (draw, *final(rng)) == range_draw(
                *old(rng),
                1,
                2_812_500_001,
            ),
            self.last_z != Some(z) ==> (draw, *final(rng)) == range_draw(
                *old(rng),
                0,
                11_250_000_000,
            ),
            0 <= draw < SESSION_US,
            self.last_z == Some(z) ==> draw >= 1,
    {
        let same = match self.last_z {
            Some(last) => last == z,
            None => false,
        };
        if same {
            draw_below(rng, 1, SESSION_US / 8 + 1)
        } else {
            draw_below(rng, 0, SESSION_US / 2)
        }
    }

    /// Whether the walk holds nothing, and so must buy.
    pub fn is_flat(&self) -> (r: bool)
        ensures
            r == (self.inv == 0),
    {
        self.inv == 0
    }

    /// Decide a trade: buy when nothing is held, else as `sell` says, and sell no more
    /// than is held.
    pub fn decide(&self, sell: bool, wanted: u64) -> (r: (i8, u64))
        ensures
            (r.0 as int, r.1 as int) == decided(self.inv as int, sell, wanted),
            self.inv > 0 && sell ==> r.0 == -1 && r.1 == (if wanted <= self.inv {
                wanted
            } else {
                self.inv
            }),
            self.inv == 0 || !sell ==> r.0 == 1 && r.1 == wanted,
    {
        if self.inv == 0 || !sell {
            (1, wanted)
        } else if wanted > self.inv {
            (-1, self.inv)
        } else {
            (-1, wanted)
        }
    }

    /// Hand out the trades of the last day, each at a time of its own. No more trades
    /// are to fall on that day.
    pub fn finish_day(&mut self) -> (r: Vec<Trade>)
        requires
            old(self)@.day_ok(),
        ensures
            r@ == old(self)@.settled_day(),
            final(self)@ == (WalkModel { held: Seq::empty(), ..old(self)@ }),
    {
        let mut r: Vec<Trade> = Vec::new();
        let ghost held = self.held@;
        match self.last_z {
            Some(z) => {
                let close: i64 = ts_micros(z, SESSION_US - 1);
                let n: usize = self.held.len();
                let mut i: usize = 0;
                while i < n
                    invariant
                        i <= n,
                        n == held.len(),
                        self@ == old(self)@,
                        held == self.held@,
                        day_fits(z as int),
                        aimed(held, z as int),
                        close == close_of(z as int),
                        r@ == spaced(held, close as int).take(i as int),
                    decreases n - i,
                {
                    let t: Trade = self.held[i];
                    let latest: i64 = close - (n - 1 - i) as i64;
                    let ts: i64 = if t.ts_micros <= latest {
                        t.ts_micros
                    } else {
                        latest
                    };
                    r.push(Trade { ts_micros: ts, ..t });
                    i = i + 1;
                    assert(r@ =~= spaced(held, close as int).take(i as int));
                }
                assert(r@ =~= spaced(held, close as int));
            },
            None => {
                assert(r@ =~= Seq::empty());
            },
        }
        self.held = Vec::new();
        assert(self.held@ =~= Seq::empty());
        r
    }

    /// Take a step: place its trade, and hand out those of the last day where the step
    /// leaves it. `None`, and no step, where the session of its day has no time left.
    pub fn step(&mut self, cal: &[i64], s: &Step) -> (r: Option<Vec<Trade>>)
        requires
            cal@.len() <= i64::MAX,
            old(self)@.wf(cal@.len() as int),
            old(self)@.can_step(cal@, *s),
        ensures
            final(self)@.wf(cal@.len() as int),
            r is Some <==> old(self)@.has_room(old(self)@.day_of_step(cal@, *s)),
            r is None ==> final(self)@ == old(self)@,
            r matches Some(done) ==> {
                &&& final(self)@ == old(self)@.stepped(cal@, *s)
                &&& done@ == old(self)@.handed_out(cal@, *s)
            },
    {
        let ghost was = self@;
        let ndays: i64 = cal.len() as i64;
        let pos: i64 = self.reach(s.gap, ndays);
        let z: i64 = cal[pos as usize];
        let same = match self.last_z {
            Some(last) => last == z,
            None => false,
        };
        if same && self.held.len() as u64 >= SESSION_US as u64 {
            return None;
        }
        let off: i64 = if same {
            if s.draw < SESSION_US - self.last_off {
                self.last_off + s.draw
            } else {
                SESSION_US - 1
            }
        } else {
            s.draw
        };
        let (side, qty): (i8, u64) = self.decide(s.sell, s.wanted);
        let done: Vec<Trade> = if same {
            Vec::new()
        } else {
            self.finish_day()
        };
        assert(same ==> done@ =~= Seq::empty());
        let t = Trade {
            trade_id: self.next_id,
            client_id: self.client_id,
            symbol_id: self.symbol_id,
            side,
            quantity: (qty % 0x1_0000_0000) as u32,
            price_ticks: s.price_ticks,
            ts_micros: ts_micros(z, off),
            venue: s.venue,
        };
        assert(t == was.trade_of(cal@, *s));
        self.held.push(t);
        self.next_id = self.next_id + 1;
        self.left = self.left - 1;
        self.day_pos = pos;
        self.last_z = Some(z);
        self.last_off = off;
        if side > 0 {
            self.inv = self.inv + qty;
        } else {
            self.inv = self.inv - qty;
        }
        proof {
            lemma_step_wf(was, cal@, *s);
            lemma_signed(side as int, qty as int);
            assert(self@.held =~= was.stepped(cal@, *s).held);
        }
        Some(done)
    }
}

/// A walk that has not set out.
pub open spec fn starting(client_id: u64, symbol_id: u32, day_pos: int, first_id: int, left: int)
    -> WalkModel {
    WalkModel {
        client_id,
        symbol_id,
        next_id: first_id,
        left,
        day_pos,
        last_z: None,
        last_off: 0,
        inv: 0,
        held: Seq::empty(),
    }
}

proof fn lemma_signed(side: int, qty: int)
    requires
        side == 1 || side == -1,
    ensures
        side * qty == (if side == 1 {
            qty
        } else {
            -qty
        }),
{
    assert(1 * qty == qty && (-1) * qty == -qty) by (nonlinear_arith);
}

proof fn lemma_step_wf(w: WalkModel, cal: Seq<i64>, s: Step)
    requires
        w.wf(cal.len() as int),
        w.can_step(cal, s),
        w.has_room(w.day_of_step(cal, s)),
    ensures
        w.stepped(cal, s).wf(cal.len() as int),
{
    let z = w.day_of_step(cal, s);
    let now = w.stepped(cal, s);
    let d = decided(w.inv, s.sell, s.wanted);
    lemma_signed(d.0, d.1);
    let held = now.held;
    let n = held.len() - 1;
    assert forall|i: int| 0 <= i < held.len() implies ts_of(z as int, i) <= (
    #[trigger] held[i]).ts_micros <= close_of(z as int) by {
        if i < n {
            assert(held[i] == w.held[i]);
        }
    }
    assert forall|i: int, j: int| 0 <= i < j < held.len() implies (#[trigger] held[i]).ts_micros < (
    #[trigger] held[j]).ts_micros || held[j].ts_micros == close_of(z as int) by {
        assert(held[i] == w.held[i]);
        if j < n {
            assert(held[j] == w.held[j]);
        } else {
            let last = w.held.len() - 1;
            assert(w.held[last] == w.held.last());
            if i < last {
                assert(w.held[i].ts_micros < w.held[last].ts_micros || w.held[last].ts_micros
                    == close_of(z as int));
            }
        }
    }
}

// ---------------------------------------------------------------------------
// Laws
// ---------------------------------------------------------------------------

/// What a walk holds after decisions taken one after the other.
pub open spec fn held_after(inv: int, sides: Seq<(int, int)>) -> int
    decreases sides.len(),
{
    if sides.len() == 0 {
        inv
    } else {
        held_after(inv, sides.drop_last()) + sides.last().0 * sides.last().1
    }
}

/// The decisions of one who holds `inv`, one after the other.
pub open spec fn decisions(inv: int, asks: Seq<(bool, u64)>) -> Seq<(int, int)>
    decreases asks.len(),
{
    if asks.len() == 0 {
        Seq::empty()
    } else {
        let before = decisions(inv, asks.drop_last());
        before.push(decided(held_after(inv, before), asks.last().0, asks.last().1))
    }
}

/// A walk never sells short: whatever is asked of it, what it holds stays at or
/// above zero.
pub proof fn lemma_walk_never_short(inv: int, asks: Seq<(bool, u64)>)
    requires
        inv >= 0,
    ensures
        held_after(inv, decisions(inv, asks)) >= 0,
    decreases asks.len(),
{
    if asks.len() > 0 {
        let head = asks.drop_last();
        lemma_walk_never_short(inv, head);
        let before = decisions(inv, head);
        let d = decided(held_after(inv, before), asks.last().0, asks.last().1);
        assert(decisions(inv, asks).drop_last() =~= before);
        lemma_signed(d.0, d.1);
    }
}

/// The calendar's days ascend.
pub open spec fn days_rise(cal: Seq<i64>) -> bool {
    forall|i: int, j: int| 0 <= i < j < cal.len() ==> cal[i] < cal[j]
}

/// The walk after the first `k` of its steps.
pub open spec fn walked(w: WalkModel, cal: Seq<i64>, steps: Seq<Step>, k: int) -> WalkModel
    decreases k,
{
    if k <= 0 {
        w
    } else {
        walked(w, cal, steps, k - 1).stepped(cal, steps[k - 1])
    }
}

/// The trades handed out over the first `k` steps.
pub open spec fn out_upto(w: WalkModel, cal: Seq<i64>, steps: Seq<Step>, k: int) -> Seq<Trade>
    decreases k,
{
    if k <= 0 {
        Seq::empty()
    } else {
        out_upto(w, cal, steps, k - 1) + walked(w, cal, steps, k - 1).handed_out(cal, steps[k - 1])
    }
}

/// All trades of a walk: those handed out by its steps, and those of its last day.
pub open spec fn book_of(w: WalkModel, cal: Seq<i64>, steps: Seq<Step>) -> Seq<Trade> {
    out_upto(w, cal, steps, steps.len() as int) + walked(
        w,
        cal,
        steps,
        steps.len() as int,
    ).settled_day()
}

/// The trade of step `k`, at the time it was aimed at.
pub open spec fn aim(w: WalkModel, cal: Seq<i64>, steps: Seq<Step>, k: int) -> Trade {
    walked(w, cal, steps, k).trade_of(cal, steps[k])
}

/// A walk that has not set out, of as many trades as there are steps, each of which it
/// can take, over a calendar whose days ascend. There are no more of them than a session
/// has microseconds, since all may fall on one day.
pub open spec fn whole_walk(w: WalkModel, cal: Seq<i64>, steps: Seq<Step>) -> bool {
    &&& w.wf(cal.len() as int)
    &&& w.last_z is None
    &&& w.left == steps.len()
    &&& steps.len() <= SESSION_US
    &&& days_rise(cal)
    &&& forall|k: int|
        0 <= k < steps.len() ==> (#[trigger] walked(w, cal, steps, k)).can_step(cal, steps[k])
}

/// Trades at ascending times.
pub open spec fn times_rise(ts: Seq<Trade>) -> bool {
    forall|i: int, j: int|
        0 <= i < j < ts.len() ==> (#[trigger] ts[i]).ts_micros < (#[trigger] ts[j]).ts_micros
}

proof fn lemma_later_day(z1: int, off1: int, z2: int, off2: int)
    requires
        z1 < z2,
        off1 < SESSION_US,
        0 <= off2,
    ensures
        ts_of(z1, off1) < ts_of(z2, off2),
{
    assert(z2 * 86_400 >= z1 * 86_400 + 86_400);
}

/// Spaced trades are within the session, at ascending times, and where they were aimed
/// at ascending times they stay there.
proof fn lemma_spaced(held: Seq<Trade>, z: int)
    requires
        aimed(held, z),
        day_fits(z),
    ensures
        spaced(held, close_of(z)).len() == held.len(),
        times_rise(spaced(held, close_of(z))),
        forall|i: int|
            0 <= i < held.len() ==> ts_of(z, 0) <= (#[trigger] spaced(held, close_of(z))[i]).ts_micros
                <= close_of(z),
        times_rise(held) ==> spaced(held, close_of(z)) == held,
{
    let close = close_of(z);
    let out = spaced(held, close);
    let n = held.len();
    assert forall|i: int| 0 <= i < n implies ts_of(z, 0) <= (#[trigger] out[i]).ts_micros <= close
        && out[i].ts_micros == (if held[i].ts_micros <= close - (n - 1 - i) {
        held[i].ts_micros as int
    } else {
        close - (n - 1 - i)
    }) by {
        assert(ts_of(z, i) <= held[i].ts_micros <= close);
    }
    assert forall|i: int, j: int| 0 <= i < j < n implies (#[trigger] out[i]).ts_micros < (
    #[trigger] out[j]).ts_micros by {
        assert(held[i].ts_micros < held[j].ts_micros || held[j].ts_micros == close);
    }
    if times_rise(held) {
        assert forall|i: int| 0 <= i < n implies out[i] == held[i] by {
            lemma_room_after(held, i, n - 1);
            assert(held[n - 1].ts_micros <= close);
        }
        assert(out =~= held);
    }
}

proof fn lemma_room_after(held: Seq<Trade>, i: int, j: int)
    requires
        times_rise(held),
        0 <= i <= j < held.len(),
    ensures
        held[i].ts_micros + (j - i) <= held[j].ts_micros,
    decreases j - i,
{
    if i < j {
        lemma_room_after(held, i, j - 1);
        assert(held[j - 1].ts_micros < held[j].ts_micros);
    }
}

/// The trades are those of the steps from `from` on, but for their times.
spec fn aims_but_times(ts: Seq<Trade>, w: WalkModel, cal: Seq<i64>, steps: Seq<Step>, from: int) -> bool {
    forall|i: int|
        0 <= i < ts.len() ==> (#[trigger] ts[i]) == (Trade {
            ts_micros: ts[i].ts_micros,
            ..aim(w, cal, steps, from + i)
        })
}

/// The trades are those of the steps from `from` on.
spec fn are_aims(ts: Seq<Trade>, w: WalkModel, cal: Seq<i64>, steps: Seq<Step>, from: int) -> bool {
    forall|i: int| 0 <= i < ts.len() ==> (#[trigger] ts[i]) == aim(w, cal, steps, from + i)
}

/// Every trade was aimed later than the one before.
pub open spec fn aims_rise(w: WalkModel, cal: Seq<i64>, steps: Seq<Step>) -> bool {
    forall|i: int, j: int|
        0 <= i < j < steps.len() ==> (#[trigger] aim(w, cal, steps, i)).ts_micros < (
        #[trigger] aim(w, cal, steps, j)).ts_micros
}

proof fn lemma_walk(w: WalkModel, cal: Seq<i64>, steps: Seq<Step>, k: int)
    requires
        whole_walk(w, cal, steps),
        0 <= k <= steps.len(),
    ensures
        ({
            let now = walked(w, cal, steps, k);
            let out = out_upto(w, cal, steps, k);
            &&& now.wf(cal.len() as int)
            &&& now.client_id == w.client_id
            &&& now.symbol_id == w.symbol_id
            &&& now.next_id == w.next_id + k
            &&& now.left == w.left - k
            &&& k == 0 ==> now.last_z is None
            &&& k > 0 ==> now.last_z == Some(cal[now.day_pos])
            &&& out.len() + now.held.len() == k
            &&& aims_but_times(out, w, cal, steps, 0)
            &&& are_aims(now.held, w, cal, steps, out.len() as int)
            &&& times_rise(out)
            &&& now.last_z matches Some(z) ==> forall|i: int|
                0 <= i < out.len() ==> (#[trigger] out[i]).ts_micros < ts_of(z as int, 0)
            &&& aims_rise(w, cal, steps) ==> are_aims(out, w, cal, steps, 0)
        }),
    decreases k,
{
    if k > 0 {
        lemma_walk(w, cal, steps, k - 1);
        let was = walked(w, cal, steps, k - 1);
        let s = steps[k - 1];
        assert(was.can_step(cal, s));
        let z = was.day_of_step(cal, s);
        lemma_step_wf(was, cal, s);
        let now = walked(w, cal, steps, k);
        let out0 = out_upto(w, cal, steps, k - 1);
        let out = out_upto(w, cal, steps, k);
        let more = was.handed_out(cal, s);
        assert(now.held.last() == aim(w, cal, steps, k - 1));
        if was.last_z == Some(z) {
            assert(out =~= out0);
            assert forall|i: int| 0 <= i < now.held.len() implies (#[trigger] now.held[i]) == aim(
                w,
                cal,
                steps,
                out.len() + i,
            ) by {
                if i < was.held.len() {
                    assert(now.held[i] == was.held[i]);
                }
            }
        } else {
            if let Some(last) = was.last_z {
                assert(last == cal[was.day_pos]);
                assert(was.day_pos < now.day_pos);
                assert(last < z);
                lemma_day_settles(w, cal, steps, was, out0);
                assert forall|i: int| 0 <= i < out.len() implies (#[trigger] out[i]).ts_micros
                    < ts_of(z as int, 0) by {
                    lemma_later_day(last as int, SESSION_US - 1, z as int, 0);
                    lemma_later_day(last as int, 0, z as int, 0);
                    if i < out0.len() {
                        assert(out[i] == out0[i]);
                    } else {
                        assert(out[i] == more[i - out0.len()]);
                    }
                }
            } else {
                assert(more =~= Seq::empty());
                assert(out =~= out0);
            }
            assert(now.held =~= seq![aim(w, cal, steps, k - 1)]);
        }
    } else {
        assert(out_upto(w, cal, steps, k) =~= Seq::empty());
    }
}

/// Handing out a day keeps times ascending and every trade what it was.
proof fn lemma_day_settles(
    w: WalkModel,
    cal: Seq<i64>,
    steps: Seq<Step>,
    now: WalkModel,
    out: Seq<Trade>,
)
    requires
        now.wf(cal.len() as int),
        now.last_z is Some,
        out.len() + now.held.len() <= steps.len(),
        aims_but_times(out, w, cal, steps, 0),
        are_aims(now.held, w, cal, steps, out.len() as int),
        times_rise(out),
        forall|i: int|
            0 <= i < out.len() ==> (#[trigger] out[i]).ts_micros < ts_of(now.last_z->0 as int, 0),
        aims_rise(w, cal, steps) ==> are_aims(out, w, cal, steps, 0),
    ensures
        ({
            let more = now.settled_day();
            let all = out + more;
            &&& more.len() == now.held.len()
            &&& times_rise(all)
            &&& aims_but_times(all, w, cal, steps, 0)
            &&& forall|i: int|
                0 <= i < more.len() ==> ts_of(now.last_z->0 as int, 0) <= (
                #[trigger] more[i]).ts_micros <= close_of(now.last_z->0 as int)
            &&& aims_rise(w, cal, steps) ==> are_aims(all, w, cal, steps, 0)
        }),
{
    let z = now.last_z->0 as int;
    let more = now.settled_day();
    let all = out + more;
    let n = out.len() as int;
    lemma_spaced(now.held, z);
    assert forall|i: int, j: int| 0 <= i < j < all.len() implies (#[trigger] all[i]).ts_micros < (
    #[trigger] all[j]).ts_micros by {
        if j < n {
            assert(out[i].ts_micros < out[j].ts_micros);
        } else if i < n {
            assert(out[i].ts_micros < ts_of(z, 0));
            assert(ts_of(z, 0) <= more[j - n].ts_micros);
        } else {
            assert(more[i - n].ts_micros < more[j - n].ts_micros);
        }
    }
    assert forall|i: int| 0 <= i < all.len() implies (#[trigger] all[i]) == (Trade {
        ts_micros: all[i].ts_micros,
        ..aim(w, cal, steps, i)
    }) by {
        if i < n {
            assert(all[i] == out[i]);
        } else {
            assert(all[i] == more[i - n]);
            assert(now.held[i - n] == aim(w, cal, steps, n + (i - n)));
        }
    }
    if aims_rise(w, cal, steps) {
        assert forall|i: int, j: int| 0 <= i < j < now.held.len() implies (
        #[trigger] now.held[i]).ts_micros < (#[trigger] now.held[j]).ts_micros by {
            assert(now.held[i] == aim(w, cal, steps, n + i));
            assert(now.held[j] == aim(w, cal, steps, n + j));
        }
        assert forall|i: int| 0 <= i < all.len() implies (#[trigger] all[i]) == aim(
            w,
            cal,
            steps,
            i,
        ) by {
            if i < n {
                assert(all[i] == out[i]);
            } else {
                assert(all[i] == now.held[i - n]);
            }
        }
    }
}

proof fn lemma_book(w: WalkModel, cal: Seq<i64>, steps: Seq<Step>)
    requires
        whole_walk(w, cal, steps),
    ensures
        book_of(w, cal, steps).len() == steps.len(),
        times_rise(book_of(w, cal, steps)),
        aims_but_times(book_of(w, cal, steps), w, cal, steps, 0),
        aims_rise(w, cal, steps) ==> are_aims(book_of(w, cal, steps), w, cal, steps, 0),
{
    let n = steps.len() as int;
    lemma_walk(w, cal, steps, n);
    let now = walked(w, cal, steps, n);
    let out = out_upto(w, cal, steps, n);
    if now.last_z is Some {
        lemma_day_settles(w, cal, steps, now, out);
    } else {
        assert(now.settled_day() =~= Seq::empty());
        assert(book_of(w, cal, steps) =~= out);
    }
}

/// A walk yields exactly its trades: one for each step, in their order, with ids that
/// follow each other, all of its client in its symbol, and each what its step makes it
/// but for its time. Every step finds a time.
pub proof fn lemma_book_is_complete(w: WalkModel, cal: Seq<i64>, steps: Seq<Step>)
    requires
        whole_walk(w, cal, steps),
    ensures
        book_of(w, cal, steps).len() == steps.len(),
        walked(w, cal, steps, steps.len() as int).left == 0,
        walked(w, cal, steps, steps.len() as int).next_id == w.next_id + steps.len(),
        forall|i: int|
            0 <= i < steps.len() ==> {
                let t = #[trigger] book_of(w, cal, steps)[i];
                &&& t.trade_id == w.next_id + i
                &&& t.client_id == w.client_id
                &&& t.symbol_id == w.symbol_id
                &&& t == (Trade { ts_micros: t.ts_micros, ..aim(w, cal, steps, i) })
            },
        forall|k: int|
            0 <= k < steps.len() ==> (#[trigger] walked(w, cal, steps, k)).has_room(
                walked(w, cal, steps, k).day_of_step(cal, steps[k]),
            ),
{
    lemma_book(w, cal, steps);
    lemma_walk(w, cal, steps, steps.len() as int);
    assert forall|k: int| 0 <= k < steps.len() implies (#[trigger] walked(
        w,
        cal,
        steps,
        k,
    )).has_room(walked(w, cal, steps, k).day_of_step(cal, steps[k])) by {
        lemma_walk(w, cal, steps, k);
    }
    assert forall|i: int| 0 <= i < steps.len() implies {
        let t = #[trigger] book_of(w, cal, steps)[i];
        &&& t.trade_id == w.next_id + i
        &&& t.client_id == w.client_id
        &&& t.symbol_id == w.symbol_id
        &&& t == (Trade { ts_micros: t.ts_micros, ..aim(w, cal, steps, i) })
    } by {
        lemma_walk(w, cal, steps, i);
        let t = book_of(w, cal, steps)[i];
        assert(t == (Trade { ts_micros: t.ts_micros, ..aim(w, cal, steps, 0 + i) }));
    }
}

/// The timestamps of a walk strictly increase, whatever its steps.
pub proof fn lemma_book_ascends(w: WalkModel, cal: Seq<i64>, steps: Seq<Step>, i: int, j: int)
    requires
        whole_walk(w, cal, steps),
        0 <= i < j < steps.len(),
    ensures
        book_of(w, cal, steps)[i].ts_micros < book_of(w, cal, steps)[j].ts_micros,
{
    lemma_book(w, cal, steps);
}

/// Where a walk aims its trades at ascending times, they are at those times.
pub proof fn lemma_book_keeps_aims(w: WalkModel, cal: Seq<i64>, steps: Seq<Step>)
    requires
        whole_walk(w, cal, steps),
        aims_rise(w, cal, steps),
    ensures
        book_of(w, cal, steps) == Seq::new(steps.len(), |i: int| aim(w, cal, steps, i)),
{
    lemma_book(w, cal, steps);
    assert forall|i: int| 0 <= i < steps.len() implies book_of(w, cal, steps)[i] == aim(
        w,
        cal,
        steps,
        i,
    ) by {
        assert(book_of(w, cal, steps)[i] == aim(w, cal, steps, 0 + i));
    }
    assert(book_of(w, cal, steps) =~= Seq::new(steps.len(), |i: int| aim(w, cal, steps, i)));
}

/// Shares that are too few are raised in turn, from the first on: after `k` rounds of
/// one each has its part of them, and the first ones what does not divide.
pub proof fn lemma_raised_in_turn(s: Seq<u64>, k: int, i: int)
    requires
        0 <= i < s.len(),
        0 <= k,
        forall|j: int| 0 <= j < s.len() ==> #[trigger] s[j] + k <= u64::MAX,
    ensures
        raised(s, k).len() == s.len(),
        raised(s, k)[i] == s[i] + k / (s.len() as int) + (if i < k % (s.len() as int) {
            1int
        } else {
            0int
        }),
    decreases k,
{
    let n = s.len() as int;
    if k == 0 {
        assert(0int / n == 0 && 0int % n == 0) by (nonlinear_arith)
            requires
                n > 0,
        ;
    } else {
        lemma_raised_in_turn(s, k - 1, i);
        let t = raised(s, k - 1);
        let at = (k - 1) % n;
        lemma_turns(k - 1, n);
        if i == at {
            assert(s[i] + k <= u64::MAX);
            assert(t[i] + 1 <= u64::MAX) by {
                assert((k - 1) / n <= k - 1) by (nonlinear_arith)
                    requires
                        n > 0,
                        k >= 1,
                ;
            }
        }
    }
}

proof fn lemma_turns(k: int, n: int)
    requires
        0 <= k,
        n > 0,
    ensures
        0 <= k % n < n,
        k % n + 1 < n ==> (k + 1) % n == k % n + 1 && (k + 1) / n == k / n,
        k % n + 1 == n ==> (k + 1) % n == 0 && (k + 1) / n == k / n + 1,
{
    let q = k / n;
    let r = k % n;
    assert(k == n * q + r && 0 <= r < n) by (nonlinear_arith)
        requires
            n > 0,
            q == k / n,
            r == k % n,
    ;
    assert(q * n == n * q && (q + 1) * n == n * q + n) by (nonlinear_arith);
    if r + 1 < n {
        vstd::arithmetic::div_mod::lemma_fundamental_div_mod_converse(k + 1, n, q, r + 1);
    } else {
        vstd::arithmetic::div_mod::lemma_fundamental_div_mod_converse(k + 1, n, q + 1, 0);
    }
}

proof fn lemma_fattest_is_largest(s: Seq<u64>, m: int)
    requires
        0 <= m <= s.len(),
    ensures
        match fattest(s, m) {
            Some(i) => 0 <= i < m && s[i] > 1 && (forall|j: int|
                0 <= j < m ==> #[trigger] s[j] <= s[i]) && (forall|j: int|
                i < j < m ==> #[trigger] s[j] < s[i]),
            None => forall|j: int| 0 <= j < m ==> #[trigger] s[j] <= 1,
        },
    decreases m,
{
    if m > 0 {
        lemma_fattest_is_largest(s, m - 1);
    }
}

/// Shares that are too many lose one at a time, each time the largest, the last of
/// them where several are, and the first where none is above one. No other changes.
pub proof fn lemma_shaved_from_largest(s: Seq<u64>, k: int) -> (at: int)
    requires
        s.len() > 0,
        0 <= k,
    ensures
        shaved(s, 0) == s,
        shaved(s, k).len() == s.len(),
        0 <= at < s.len(),
        ({
            let t = shaved(s, k);
            let u = shaved(s, k + 1);
            &&& forall|j: int| 0 <= j < s.len() && j != at ==> #[trigger] u[j] == t[j]
            &&& t[at] >= 1 ==> u[at] == t[at] - 1
            &&& t[at] > 1 ==> (forall|j: int| 0 <= j < s.len() ==> #[trigger] t[j] <= t[at]) && (
            forall|j: int| at < j < s.len() ==> #[trigger] t[j] < t[at])
            &&& t[at] <= 1 ==> at == 0 && forall|j: int| 0 <= j < s.len() ==> #[trigger] t[j] <= 1
        }),
    decreases k,
{
    lemma_shaved_len(s, k);
    let t = shaved(s, k);
    lemma_fattest_is_largest(t, t.len() as int);
    shave_at(t)
}

proof fn lemma_shaved_len(s: Seq<u64>, k: int)
    requires
        s.len() > 0,
    ensures
        shaved(s, k).len() == s.len(),
    decreases k,
{
    if k > 0 {
        lemma_shaved_len(s, k - 1);
        lemma_fattest_is_largest(shaved(s, k - 1), s.len() as int);
    }
}

/// Shares that sum to the count already are left as they are, those that sum to less
/// are raised by what is missing, and those that sum to more lose what is too much.
pub proof fn lemma_settled_by_sum(s: Seq<u64>, count: int)
    ensures
        sum_of(s) == count ==> settled(s, count) == s,
        sum_of(s) < count ==> settled(s, count) == raised(s, count - sum_of(s)),
        sum_of(s) > count ==> settled(s, count) == shaved(s, sum_of(s) - count),
{
}

/// A trade sells where something is held and a sell is called for, as many shares as
/// are wanted and no more than are held; else it buys as many as are wanted.
pub proof fn lemma_sells_what_is_held(inv: int, sell: bool, wanted: u64)
    ensures
        inv > 0 && sell ==> decided(inv, sell, wanted).0 == -1,
        inv > 0 && sell && wanted <= inv ==> decided(inv, sell, wanted).1 == wanted,
        inv > 0 && sell && wanted > inv ==> decided(inv, sell, wanted).1 == inv,
        inv <= 0 || !sell ==> decided(inv, sell, wanted).0 == 1 && decided(
            inv,
            sell,
            wanted,
        ).1 == wanted,
{
}

/// What a step makes: a trade with the next id, of the walk's client in its symbol, at
/// the step's price and venue, on the day that many trading days on, or the last of
/// the calendar. On a new day it is aimed at the time that was drawn, and on the same
/// day that long after the last trade, at the close at the latest.
pub proof fn lemma_step_makes_trade(w: WalkModel, cal: Seq<i64>, s: Step)
    requires
        w.wf(cal.len() as int),
        w.can_step(cal, s),
    ensures
        ({
            let now = w.stepped(cal, s);
            let t = now.held.last();
            let pos = if w.day_pos + s.gap < cal.len() {
                w.day_pos + s.gap
            } else {
                cal.len() - 1
            };
            let z = cal[pos];
            let same = w.last_z == Some(z);
            let off = if !same {
                s.draw as int
            } else if w.last_off + s.draw < 22_500_000_000 {
                w.last_off + s.draw
            } else {
                22_499_999_999
            };
            let sells = w.inv > 0 && s.sell;
            let shares = if sells && s.wanted > w.inv {
                w.inv
            } else {
                s.wanted as int
            };
            &&& t.trade_id == w.next_id
            &&& t.client_id == w.client_id
            &&& t.symbol_id == w.symbol_id
            &&& t.price_ticks == s.price_ticks
            &&& t.venue == s.venue
            &&& t.ts_micros == z * 86_400_000_000 + 13_500_000_000 + off
            &&& sells ==> t.side == -1 && now.inv == w.inv - shares
            &&& !sells ==> t.side == 1 && now.inv == w.inv + shares
            &&& t.quantity == shares % 0x1_0000_0000
            &&& now.next_id == w.next_id + 1
            &&& now.left == w.left - 1
            &&& now.day_pos == pos
            &&& now.last_z == Some(z)
            &&& now.last_off == off
            &&& now.client_id == w.client_id && now.symbol_id == w.symbol_id
            &&& same ==> now.held.drop_last() == w.held && w.handed_out(cal, s).len() == 0
            &&& !same ==> now.held.len() == 1 && w.handed_out(cal, s) == w.settled_day()
        }),
{
    let now = w.stepped(cal, s);
    let z = w.day_of_step(cal, s);
    let d = decided(w.inv, s.sell, s.wanted);
    lemma_signed(d.0, d.1);
    let off = w.offset_of(z, s.draw as int);
    crate::calendar::lemma_timestamp_of_session(z as int, off);
    crate::calendar::lemma_timestamp_of_session(z as int, 0);
    crate::calendar::lemma_timestamp_of_session(z as int, SESSION_US as int);
    if w.last_z == Some(z) {
        assert(now.held.drop_last() =~= w.held);
    }
}

/// A day's trades are handed out as they were made, in their order, but for their
/// times: each keeps its own unless those that follow on that day would then lack the
/// microseconds left before the session's close, and is else moved back to where they
/// just have them.
pub proof fn lemma_day_is_handed_out(w: WalkModel, i: int)
    requires
        w.day_ok(),
        w.last_z is Some,
        0 <= i < w.held.len(),
    ensures
        ({
            let was = w.held[i];
            let now = w.settled_day()[i];
            let close = w.last_z->0 * 86_400_000_000 + 35_999_999_999;
            let latest = close - (w.held.len() - 1 - i);
            &&& w.settled_day().len() == w.held.len()
            &&& now.trade_id == was.trade_id
            &&& now.client_id == was.client_id
            &&& now.symbol_id == was.symbol_id
            &&& now.side == was.side
            &&& now.quantity == was.quantity
            &&& now.price_ticks == was.price_ticks
            &&& now.venue == was.venue
            &&& was.ts_micros <= latest ==> now.ts_micros == was.ts_micros
            &&& was.ts_micros > latest ==> now.ts_micros == latest
            &&& i > 0 ==> w.settled_day()[i - 1].ts_micros < now.ts_micros
        }),
{
    let z = w.last_z->0 as int;
    lemma_spaced(w.held, z);
    crate::calendar::lemma_timestamp_of_session(z, SESSION_US - 1);
    crate::calendar::lemma_timestamp_of_session(z, 0);
    assert(ts_of(z, i) <= w.held[i].ts_micros <= close_of(z));
    let out = spaced(w.held, close_of(z));
    assert(ts_of(z, 0) <= out[i].ts_micros);
    if i > 0 {
        assert(out[i - 1].ts_micros < out[i].ts_micros);
    }
}

/// What is drawn for a trade's place in a session: on a new day any moment of its
/// first half, and on the same day a step of at least a microsecond and at most an
/// eighth of it.
pub proof fn lemma_draws_by_day(last_z: Option<i64>, rng: ChaCha8Rng, z: i64)
    ensures
        last_z == Some(z) ==> SymbolWalk::offset_draw(last_z, rng, z) == range_draw(
            rng,
            1,
            2_812_500_001,
        ),
        last_z != Some(z) ==> SymbolWalk::offset_draw(last_z, rng, z) == range_draw(
            rng,
            0,
            11_250_000_000,
        ),
{
}

/// A walk sets out with nothing held and no trade made, at the place, with the first
/// id and for the number of trades that it was given.
pub proof fn lemma_walk_sets_out(
    client_id: u64,
    symbol_id: u32,
    day_pos: int,
    first_id: int,
    left: int,
)
    ensures
        ({
            let w = starting(client_id, symbol_id, day_pos, first_id, left);
            &&& w.client_id == client_id
            &&& w.symbol_id == symbol_id
            &&& w.day_pos == day_pos
            &&& w.next_id == first_id
            &&& w.left == left
            &&& w.inv == 0
            &&& w.last_z is None
            &&& w.held.len() == 0
            &&& w.settled_day().len() == 0
        }),
{
}

} // verus!
