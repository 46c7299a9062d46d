//! One row of the tradebook.

use vstd::prelude::*;

verus! {

/// A trade, with its price in whole ticks.
#[derive(Clone, Copy, Debug, PartialEq, Eq, Structural)]
pub struct Trade {
    pub trade_id: u64,
    pub client_id: u64,
    pub symbol_id: u32,
    /// `+1` for a buy, `-1` for a sell.
    pub side: i8,
    pub quantity: u32,
    pub price_ticks: i32,
    pub ts_micros: i64,
    pub venue: u8,
}

} // verus!
