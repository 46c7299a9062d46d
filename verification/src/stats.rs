//! The shape of the trade counts per client.

use vstd::prelude::*;
use crate::order::{ascending_u64, sorted_u64};

verus! {

/// The sum of numbers.
pub open spec fn sum_of(s: Seq<u64>) -> int
    decreases s.len(),
{
    if s.len() == 0 {
        0
    } else {
        sum_of(s.drop_last()) + s.last()
    }
}

/// How many of the numbers lie from `lo` up to, but not including, `hi`.
pub open spec fn count_between(s: Seq<u64>, lo: int, hi: int) -> int
    decreases s.len(),
{
    if s.len() == 0 {
        0
    } else {
        count_between(s.drop_last(), lo, hi) + (if lo <= s.last() < hi {
            1int
        } else {
            0int
        })
    }
}

/// Two to the power of `i`.
pub open spec fn pow2(i: int) -> int
    decreases i,
{
    if i <= 0 {
        1
    } else {
        2 * pow2(i - 1)
    }
}

/// The counts of all clients, ascending.
#[derive(Debug)]
pub struct SkewCounts {
    pub counts: Vec<u64>,
}

proof fn lemma_sum_bound(s: Seq<u64>)
    ensures
        0 <= sum_of(s) <= s.len() * 0xffff_ffff_ffff_ffff,
    decreases s.len(),
{
    if s.len() > 0 {
        lemma_sum_bound(s.drop_last());
    }
}

fn sum_from(v: &Vec<u64>, from: usize) -> (t: u128)
    requires
        from <= v@.len(),
    ensures
        t == sum_of(v@.skip(from as int)),
{
    let mut t: u128 = 0;
    let mut i: usize = from;
    let ghost s = v@.skip(from as int);
    while i < v.len()
        invariant
            from <= i <= v@.len(),
            s == v@.skip(from as int),
            t == sum_of(s.take(i - from)),
        decreases v@.len() - i,
    {
        assert(s.take(i - from + 1).drop_last() =~= s.take(i - from));
        assert(s.take(i - from + 1).last() == v@[i as int]);
        proof {
            lemma_sum_bound(s.take(i - from + 1));
        }
        t = t + v[i] as u128;
        i = i + 1;
    }
    assert(s.take(i - from) =~= s);
    t
}

impl SkewCounts {
    pub open spec fn wf(self) -> bool {
        ascending_u64(self.counts@)
    }

    /// The counts, in whatever order they came.
    pub fn new(counts: Vec<u64>) -> (r: Self)
        ensures
            r.wf(),
            forall|i: int, j: int| 0 <= i <= j < r.counts@.len() ==> r.counts@[i] <= r.counts@[j],
            r.counts@.to_multiset() == counts@.to_multiset(),
            r.counts@.len() == counts@.len(),
    {
        SkewCounts { counts: sorted_u64(&counts) }
    }

    /// All trades.
    pub fn total(&self) -> (t: u128)
        ensures
            t == sum_of(self.counts@),
    {
        assert(self.counts@.skip(0) =~= self.counts@);
        sum_from(&self.counts, 0)
    }

    /// The trades of the `k` largest clients.
    pub fn top(&self, k: usize) -> (t: u128)
        requires
            k <= self.counts@.len(),
        ensures
            t == sum_of(self.counts@.skip(self.counts@.len() - k)),
    {
        sum_from(&self.counts, self.counts.len() - k)
    }

    /// The largest count.
    pub fn max(&self) -> (m: u64)
        requires
            self.wf(),
            self.counts@.len() > 0,
        ensures
            self.counts@.contains(m),
            forall|i: int| 0 <= i < self.counts@.len() ==> #[trigger] self.counts@[i] <= m,
    {
        let m: u64 = self.counts[self.counts.len() - 1];
        assert(self.counts@[self.counts@.len() - 1] == m);
        m
    }

    /// The count at place `i` from below; past the end, the largest.
    pub fn at(&self, i: usize) -> (c: u64)
        requires
            self.counts@.len() > 0,
        ensures
            c == (if i < self.counts@.len() {
                self.counts@[i as int]
            } else {
                self.counts@[self.counts@.len() - 1]
            }),
    {
        let n: usize = self.counts.len();
        if i < n {
            self.counts[i]
        } else {
            self.counts[n - 1]
        }
    }

    fn count_in(&self, lo: u64, hi: u64) -> (c: u64)
        ensures
            c == count_between(self.counts@, lo as int, hi as int),
    {
        let mut c: u64 = 0;
        let mut i: usize = 0;
        assert(self.counts@.take(0) =~= Seq::empty());
        while i < self.counts.len()
            invariant
                i <= self.counts@.len(),
                c <= i,
                c == count_between(self.counts@.take(i as int), lo as int, hi as int),
            decreases self.counts@.len() - i,
        {
            assert(self.counts@.take(i + 1).drop_last() =~= self.counts@.take(i as int));
            let v: u64 = self.counts[i];
            if v >= lo && v < hi {
                c = c + 1;
            }
            i = i + 1;
        }
        assert(self.counts@.take(self.counts@.len() as int) =~= self.counts@);
        c
    }

    /// The histogram by powers of two: for each power, from one up to the last
    /// that some client reaches, how many clients lie between it and the next.
    pub fn hist(&self) -> (h: Vec<(u64, u64)>)
        requires
            self.wf(),
            self.counts@.len() > 0,
            self.counts@[self.counts@.len() - 1] < u64::MAX,
        ensures
            h@.len() > 0,
            pow2(h@.len() as int) > self.counts@[self.counts@.len() - 1],
            h@.len() > 1 ==> pow2(h@.len() - 1) <= self.counts@[self.counts@.len() - 1],
            forall|i: int|
                0 <= i < h@.len() ==> (#[trigger] h@[i]).0 == pow2(i) && h@[i].1 == count_between(
                    self.counts@,
                    pow2(i),
                    pow2(i + 1),
                ),
            self.counts@[0] >= 1 ==> classed(h@, h@.len() as int) == self.counts@.len(),
    {
        let n: usize = self.counts.len();
        let max: u64 = self.counts[n - 1];
        let mut h: Vec<(u64, u64)> = Vec::new();
        let mut bound: u64 = 1;
        loop
            invariant_except_break
                self.wf(),
                n == self.counts@.len(),
                n > 0,
                max == self.counts@[n - 1],
                max < u64::MAX,
                bound == pow2(h@.len() as int),
                1 <= bound < u64::MAX,
                h@.len() > 0 ==> bound <= max,
                forall|i: int|
                    0 <= i < h@.len() ==> (#[trigger] h@[i]).0 == pow2(i) && h@[i].1
                        == count_between(self.counts@, pow2(i), pow2(i + 1)),
            ensures
                h@.len() > 0,
                pow2(h@.len() as int) > max,
                h@.len() > 1 ==> pow2(h@.len() - 1) <= max,
                forall|i: int|
                    0 <= i < h@.len() ==> (#[trigger] h@[i]).0 == pow2(i) && h@[i].1
                        == count_between(self.counts@, pow2(i), pow2(i + 1)),
            decreases u64::MAX - bound,
        {
            let lo: u64 = bound;
            let hi: u64 = if bound <= u64::MAX / 2 {
                bound * 2
            } else {
                u64::MAX
            };
            let ghost k = h@.len() as int;
            assert(pow2(k + 1) == 2 * bound);
            let c: u64 = self.count_in(lo, hi);
            proof {
                if hi < 2 * bound {
                    lemma_count_past_max(self.counts@, lo as int, hi as int, 2 * bound, max);
                }
            }
            h.push((lo, c));
            if hi > max {
                break ;
            }
            bound = hi;
        }
        proof {
            if self.counts@[0] >= 1 {
                assert forall|i: int| 0 <= i < n implies 1 <= #[trigger] self.counts@[i] < pow2(
                    h@.len() as int,
                ) by {
                    assert(self.counts@[0] <= self.counts@[i]);
                    assert(self.counts@[i] <= self.counts@[n - 1]);
                }
                lemma_classes_hold_all(self.counts@, h@);
            }
        }
        h
    }
}

/// Past the largest number there is nothing to count.
proof fn lemma_count_past_max(s: Seq<u64>, lo: int, a: int, b: int, max: u64)
    requires
        forall|i: int| 0 <= i < s.len() ==> #[trigger] s[i] <= max,
        max < a <= b,
    ensures
        count_between(s, lo, a) == count_between(s, lo, b),
    decreases s.len(),
{
    if s.len() > 0 {
        let head = s.drop_last();
        assert(s[s.len() - 1] <= max);
        assert forall|i: int| 0 <= i < head.len() implies #[trigger] head[i] <= max by {
            assert(head[i] == s[i]);
        }
        lemma_count_past_max(head, lo, a, b, max);
    }
}

/// The clients in the first `k` classes of a histogram.
pub open spec fn classed(h: Seq<(u64, u64)>, k: int) -> int
    decreases k,
{
    if k <= 0 {
        0
    } else {
        classed(h, k - 1) + h[k - 1].1
    }
}

proof fn lemma_count_joins(s: Seq<u64>, a: int, b: int, c: int)
    requires
        a <= b <= c,
    ensures
        count_between(s, a, b) + count_between(s, b, c) == count_between(s, a, c),
    decreases s.len(),
{
    if s.len() > 0 {
        lemma_count_joins(s.drop_last(), a, b, c);
    }
}

proof fn lemma_count_all(s: Seq<u64>, lo: int, hi: int)
    requires
        forall|i: int| 0 <= i < s.len() ==> lo <= #[trigger] s[i] < hi,
    ensures
        count_between(s, lo, hi) == s.len(),
    decreases s.len(),
{
    if s.len() > 0 {
        let head = s.drop_last();
        assert(lo <= s[s.len() - 1] < hi);
        assert forall|i: int| 0 <= i < head.len() implies lo <= #[trigger] head[i] < hi by {
            assert(head[i] == s[i]);
        }
        lemma_count_all(head, lo, hi);
    }
}

proof fn lemma_pow2_positive(i: int)
    ensures
        pow2(i) >= 1,
    decreases i,
{
    if i > 0 {
        lemma_pow2_positive(i - 1);
    }
}

proof fn lemma_classes_join(s: Seq<u64>, h: Seq<(u64, u64)>, k: int)
    requires
        0 <= k <= h.len(),
        forall|i: int|
            0 <= i < h.len() ==> (#[trigger] h[i]).1 == count_between(s, pow2(i), pow2(i + 1)),
    ensures
        classed(h, k) == count_between(s, 1, pow2(k)),
    decreases k,
{
    if k > 0 {
        lemma_classes_join(s, h, k - 1);
        lemma_pow2_positive(k - 1);
        assert(h[k - 1].1 == count_between(s, pow2(k - 1), pow2(k)));
        lemma_count_joins(s, 1, pow2(k - 1), pow2(k));
    } else {
        lemma_count_joins(s, 1, 1, 1);
    }
}

/// The classes of a histogram hold every client: where each has at least one trade,
/// they sum to the number of clients.
pub proof fn lemma_classes_hold_all(s: Seq<u64>, h: Seq<(u64, u64)>)
    requires
        forall|i: int|
            0 <= i < h.len() ==> (#[trigger] h[i]).1 == count_between(s, pow2(i), pow2(i + 1)),
        forall|i: int| 0 <= i < s.len() ==> 1 <= #[trigger] s[i] < pow2(h.len() as int),
    ensures
        classed(h, h.len() as int) == s.len(),
{
    lemma_classes_join(s, h, h.len() as int);
    lemma_count_all(s, 1, pow2(h.len() as int));
}

/// A sum of numbers, and one more.
pub proof fn lemma_sum_adds_up(s: Seq<u64>, x: u64)
    ensures
        sum_of(Seq::empty()) == 0,
        sum_of(s.push(x)) == sum_of(s) + x,
{
    assert(s.push(x).drop_last() =~= s);
}

/// A class counts the numbers within its bounds, the lower one included.
pub proof fn lemma_class_counts_members(s: Seq<u64>, lo: int, hi: int)
    ensures
        count_between(s, lo, hi) == s.filter(|x: u64| lo <= x < hi).len(),
    decreases s.len(),
{
    reveal(Seq::filter);
    if s.len() > 0 {
        lemma_class_counts_members(s.drop_last(), lo, hi);
    }
}

/// Each class starts where the one before it ends, at twice its start, and the first
/// at one.
pub proof fn lemma_classes_double(i: int)
    requires
        0 <= i,
    ensures
        pow2(0) == 1,
        pow2(i + 1) == pow2(i) + pow2(i),
{
}

proof fn lemma_sum_split(s: Seq<u64>, k: int)
    requires
        0 <= k <= s.len(),
    ensures
        sum_of(s) == sum_of(s.take(k)) + sum_of(s.skip(k)),
    decreases s.len(),
{
    if k == s.len() {
        assert(s.take(k) =~= s);
        assert(s.skip(k) =~= Seq::empty());
    } else {
        lemma_sum_split(s.drop_last(), k);
        assert(s.drop_last().take(k) =~= s.take(k));
        assert(s.drop_last().skip(k) =~= s.skip(k).drop_last());
    }
}

/// The trades of the largest clients and those of the others are all trades, and no
/// client among the others has more than one among the largest.
pub proof fn lemma_top_holds_largest(s: Seq<u64>, k: int, i: int, j: int)
    requires
        ascending_u64(s),
        0 <= k <= s.len(),
        0 <= i < s.len() - k <= j < s.len(),
    ensures
        sum_of(s.skip(s.len() - k)) == sum_of(s) - sum_of(s.take(s.len() - k)),
        s[i] <= s[j],
{
    lemma_sum_split(s, s.len() - k);
}

} // verus!
