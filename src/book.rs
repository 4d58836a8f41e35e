//! The book abstraction and its implementation.
use vstd::prelude::*;

use crate::order::{Order, OrderId};
use crate::common::{Price, Quantity};

pub mod btree_book;
pub mod ladder;
pub mod laws;

verus! {

/// Identifier of a book.
pub type BookId = u64;

/// Why a query has no answer. The book reports each of these as an absent
/// value rather than as a failure.
#[derive(Clone, Copy, Debug, PartialEq, Eq, Structural)]
pub enum BookError {
    /// No resting order has the id asked for (`order`, `cancel`).
    OrderNotFound,
    /// The side asked for has no resting order (`top`).
    SideEmpty,
    /// No trade has happened yet (`ltp`).
    NoTrades,
}

/// A limit order book over orders of type `T`.
pub trait Book<T: Order>: Sized {
    type Error;

    /// The invariants of the book hold.
    spec fn well_formed(&self) -> bool;

    /// `order` can be submitted without the resting depth of its side
    /// overflowing.
    spec fn admits(&self, order: &T) -> bool;

    fn id(&self) -> BookId;

    fn name(&self) -> String;

    fn ticker(&self) -> String;

    /// The resting order with `id`, if any.
    fn order(&self, id: OrderId) -> Option<T>;

    /// Submits an order: it rests if it does not cross, and trades otherwise.
    fn add(&mut self, order: T)
        requires
            old(self).well_formed(),
            old(self).admits(&order),
        ensures
            final(self).well_formed(),
    ;

    /// Withdraws the resting order with `id` and returns it.
    fn cancel(&mut self, order_id: OrderId) -> (r: Option<T>)
        requires
            old(self).well_formed(),
        ensures
            final(self).well_formed(),
    ;

    /// The price of the last trade.
    fn ltp(&self) -> Option<Price>;

    /// Resting quantity on each side, bids first.
    fn depth(&self) -> (Quantity, Quantity);

    /// Best bid and best ask.
    fn top(&self) -> (Option<Price>, Option<Price>);

    /// Whether the book is crossed: both sides present and the best ask at or
    /// below the best bid. A well-formed book never is.
    fn crossed(&self) -> bool;
}

} // verus!
