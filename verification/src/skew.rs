//! How many trades each client makes: the plan that resolves any one client.
//!
//! Small clients draw their counts. Whales share what is left of the total.

use vstd::prelude::*;

verus! {

/// What has been counted so far.
#[derive(Clone, Copy, Debug, PartialEq, Eq, Structural)]
pub struct SkewTally {
    pub sum_body: u128,
    pub n_whales: u64,
}

/// What a client's count is resolved from.
#[derive(Clone, Copy, Debug, PartialEq, Eq, Structural)]
pub struct SkewPlan {
    pub target_total: u64,
    /// Trades of all clients that are no whales.
    pub sum_body: u128,
    /// Trades that the whales share.
    pub whale_budget: u64,
    pub n_whales: u64,
}

impl SkewTally {
    pub fn new() -> (r: Self)
        ensures
            r.sum_body == 0,
            r.n_whales == 0,
    {
        SkewTally { sum_body: 0, n_whales: 0 }
    }

    /// Count one client that is no whale.
    pub fn add_body(&mut self, count: u64)
        requires
            old(self).sum_body + count <= u128::MAX,
        ensures
            final(self).sum_body == old(self).sum_body + count,
            final(self).n_whales == old(self).n_whales,
    {
        self.sum_body = self.sum_body + count as u128;
    }

    /// Count one whale.
    pub fn add_whale(&mut self)
        requires
            old(self).n_whales < u64::MAX,
        ensures
            final(self).sum_body == old(self).sum_body,
            final(self).n_whales == old(self).n_whales + 1,
    {
        self.n_whales = self.n_whales + 1;
    }

    /// The plan for a total of `target_total` trades: the whales get what the
    /// other clients leave of it, and nothing where they leave nothing.
    pub fn build_plan(&self, target_total: u64) -> (p: SkewPlan)
        ensures
            p.target_total == target_total,
            p.sum_body == self.sum_body,
            p.n_whales == self.n_whales,
            p.whale_budget == (if self.sum_body <= target_total {
                target_total - self.sum_body
            } else {
                0
            }),
    {
        let body_capped: u64 = if self.sum_body <= target_total as u128 {
            self.sum_body as u64
        } else {
            target_total
        };
        SkewPlan {
            target_total,
            sum_body: self.sum_body,
            whale_budget: target_total - body_capped,
            n_whales: self.n_whales,
        }
    }
}

} // verus!
