//! A single-instrument limit order book with price-time priority matching.
use vstd::prelude::*;

pub mod book;
pub mod common;
pub mod event;
pub mod order;
pub mod time;

verus! {

} // verus!
