//! FIFO profit-and-loss over packed trade tables.
#![allow(unused_imports)]

pub mod baseline;
pub mod bench;
pub mod bytes;
pub mod calendar;
pub mod checkpoint;
pub mod config;
pub mod correction;
pub mod fifo;
pub mod generate;
pub mod gpu;
pub mod guard;
pub mod holding;
pub mod index;
pub mod lance_store;
pub mod manifest;
pub mod matching;
pub mod order;
pub mod pack;
pub mod packed;
pub mod policies;
pub mod query;
pub mod rollup;
pub mod router;
pub mod rows;
pub mod schema;
pub mod selection;
pub mod shares;
pub mod skew;
pub mod stats;
pub mod symbols;
pub mod text;
pub mod util;
pub mod writer;
