//! Picking a client's symbols.

use vstd::prelude::*;

verus! {

pub open spec fn ascending(s: Seq<u32>) -> bool {
    forall|i: int, j: int| 0 <= i < j < s.len() ==> s[i] < s[j]
}

/// Gathers distinct symbols from draws that may repeat. Draws are bounded in
/// number; what is missing after them is filled from the most popular symbols.
#[derive(Debug)]
pub struct DistinctPicker {
    /// Number of symbols there are.
    pub n: u32,
    /// Number of symbols wanted, no more than there are.
    pub k: u32,
    /// Draws so far.
    pub attempts: u32,
    /// Symbols drawn so far, ascending.
    pub seen: Vec<u32>,
}

impl DistinctPicker {
    pub open spec fn wf(self) -> bool {
        &&& self.k <= self.n
        &&& self.k * 8 + 16 <= u32::MAX
        &&& self.attempts <= self.k * 8 + 16
        &&& self.seen@.len() <= self.k
        &&& ascending(self.seen@)
        &&& forall|i: int| 0 <= i < self.seen@.len() ==> #[trigger] self.seen@[i] < self.n
    }

    /// Pick `k` of `n` symbols, or all of them where there are fewer.
    pub fn new(n: u32, k: u32) -> (r: Self)
        requires
            k * 8 + 16 <= u32::MAX || n * 8 + 16 <= u32::MAX,
        ensures
            r.wf(),
            r.n == n,
            r.k == (if k <= n {
                k
            } else {
                n
            }),
            r.attempts == 0,
            r.seen@ == Seq::<u32>::empty(),
    {
        let k2: u32 = if k <= n {
            k
        } else {
            n
        };
        DistinctPicker { n, k: k2, attempts: 0, seen: Vec::new() }
    }

    /// Whether another draw is wanted.
    pub open spec fn wants(self) -> bool {
        self.seen@.len() < self.k && self.attempts < self.k * 8 + 16
    }

    /// Whether another draw is wanted: symbols are missing, and the draws are not
    /// used up.
    pub fn wants_more(&self) -> (r: bool)
        requires
            self.wf(),
        ensures
            r == self.wants(),
            r == (self.seen@.len() < self.k && self.attempts < 8 * self.k + 16),
    {
        self.seen.len() < self.k as usize && self.attempts < self.k * 8 + 16
    }

    /// Take a draw. One past the last symbol counts as the last; one seen before
    /// adds nothing.
    pub fn offer(&mut self, idx: u32)
        requires
            old(self).wf(),
            old(self).wants(),
        ensures
            final(self).wf(),
            final(self).n == old(self).n,
            final(self).k == old(self).k,
            final(self).attempts == old(self).attempts + 1,
            ({
                let x = if idx < old(self).n {
                    idx
                } else {
                    (old(self).n - 1) as u32
                };
                forall|y: u32| #[trigger]
                    final(self).seen@.contains(y) <==> (old(self).seen@.contains(y) || y == x)
            }),
    {
        let x: u32 = if idx < self.n {
            idx
        } else {
            self.n - 1
        };
        let ghost was = self.seen@;
        let mut i: usize = self.seen.len();
        while i > 0 && self.seen[i - 1] > x
            invariant
                self.seen@ == was,
                i <= was.len(),
                forall|j: int| i <= j < was.len() ==> was[j] > x,
            decreases i,
        {
            i = i - 1;
        }
        if i == 0 || self.seen[i - 1] != x {
            self.seen.insert(i, x);
        }
        self.attempts = self.attempts + 1;
        proof {
            let now = self.seen@;
            if i > 0 && was[i - 1] == x {
                assert(was.contains(x)) by {
                    assert(was[i - 1] == x);
                }
                assert forall|y: u32| #[trigger] now.contains(y) <==> (was.contains(y) || y
                    == x) by {}
            } else {
                assert(now == was.insert(i as int, x));
                assert(now[i as int] == x);
                assert forall|y: u32| #[trigger] now.contains(y) <==> (was.contains(y) || y
                    == x) by {
                    if was.contains(y) {
                        let j = choose|j: int| 0 <= j < was.len() && was[j] == y;
                        if j < i {
                            assert(now[j] == y);
                        } else {
                            assert(now[j + 1] == y);
                        }
                    }
                    if now.contains(y) && y != x {
                        let j = choose|j: int| 0 <= j < now.len() && now[j] == y;
                        if j < i {
                            assert(was[j] == y);
                        } else {
                            assert(was[j - 1] == y);
                        }
                    }
                }
                assert(ascending(now)) by {
                    assert forall|a: int, b: int| 0 <= a < b < now.len() implies now[a]
                        < now[b] by {
                        if i > 0 {
                            assert(a < i ==> was[a] <= was[i - 1]);
                        }
                    }
                }
            }
        }
    }

    /// The symbols picked, ascending: those drawn, and as many of the first ones
    /// as it takes to make `k`.
    pub fn finish(self) -> (r: Vec<u32>)
        requires
            self.wf(),
        ensures
            r@.len() == self.k,
            ascending(r@),
            forall|i: int, j: int| 0 <= i < j < r@.len() ==> r@[i] < r@[j],
            forall|i: int| 0 <= i < r@.len() ==> #[trigger] r@[i] < self.n,
            forall|x: u32| #[trigger] self.seen@.contains(x) ==> r@.contains(x),
            forall|x: u32, y: u32|
                #![trigger r@.contains(x), r@.contains(y)]
                r@.contains(x) && !self.seen@.contains(x) && y < x ==> r@.contains(y),
    {
        let k: usize = self.k as usize;
        let n: u32 = self.n;
        let ghost seen = self.seen@;
        let mut v: Vec<u32> = self.seen;
        let mut fill: u32 = 0;
        while v.len() < k
            invariant
                k <= n,
                v@.len() <= k,
                fill <= v@.len(),
                ascending(v@),
                forall|i: int| 0 <= i < v@.len() ==> #[trigger] v@[i] < n,
                forall|i: int| 0 <= i < fill ==> #[trigger] v@[i] == i,
                forall|x: u32| #[trigger] seen.contains(x) ==> v@.contains(x),
                forall|x: u32| #[trigger] v@.contains(x) && !seen.contains(x) ==> x < fill,
            decreases k - v@.len(), k - fill,
        {
            let ghost was = v@;
            let at: usize = fill as usize;
            if !(at < v.len() && v[at] == fill) {
                v.insert(at, fill);
                proof {
                    let now = v@;
                    assert(now[at as int] == fill);
                    assert forall|x: u32| #[trigger] seen.contains(x) implies now.contains(x) by {
                        assert(was.contains(x));
                        let j = choose|j: int| 0 <= j < was.len() && was[j] == x;
                        if j < at {
                            assert(now[j] == x);
                        } else {
                            assert(now[j + 1] == x);
                        }
                    }
                    assert forall|x: u32| #[trigger] now.contains(x) && !seen.contains(
                        x,
                    ) implies x < fill + 1 by {
                        let j = choose|j: int| 0 <= j < now.len() && now[j] == x;
                        if j < at {
                            assert(was[j] == x);
                            assert(was.contains(x));
                        } else if j > at {
                            assert(was[j - 1] == x);
                            assert(was.contains(x));
                        }
                    }
                    assert forall|a: int, b: int| 0 <= a < b < now.len() implies now[a]
                        < now[b] by {
                        if a == at && b > at {
                            assert(now[b] == was[b - 1]);
                            lemma_at_least(was, b - 1);
                            assert(was[at as int] != fill);
                            lemma_at_least(was, at as int);
                            if b - 1 > at {
                                assert(was[at as int] < was[b - 1]);
                            }
                        } else if a < at && b >= at {
                            assert(now[a] == a);
                            if b > at {
                                lemma_at_least(was, b - 1);
                            }
                        }
                    }
                }
            }
            fill = fill + 1;
        }
        proof {
            assert forall|x: u32, y: u32|
                #![trigger v@.contains(x), v@.contains(y)]
                v@.contains(x) && !seen.contains(x) && y < x implies v@.contains(y) by {
                assert(x < fill);
                assert(v@[y as int] == y);
            }
        }
        v
    }
}

/// Entry `i` of an ascending list is no less than `i`.
proof fn lemma_at_least(s: Seq<u32>, i: int)
    requires
        ascending(s),
        0 <= i < s.len(),
    ensures
        s[i] >= i,
    decreases i,
{
    if i > 0 {
        lemma_at_least(s, i - 1);
        assert(s[i - 1] < s[i]);
    }
}

/// Draws stop where the symbols wanted are all there, and at the latest after eight for
/// each of them and sixteen more.
pub proof fn lemma_draws_stop(p: DistinctPicker)
    ensures
        p.seen@.len() >= p.k ==> !p.wants(),
        p.attempts >= 8 * p.k + 16 ==> !p.wants(),
        p.seen@.len() < p.k && p.attempts < 8 * p.k + 16 ==> p.wants(),
{
}

} // verus!
