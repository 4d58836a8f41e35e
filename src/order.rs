//! Orders: the capabilities the book needs from an order, and one plain shape.
use vstd::prelude::*;

use crate::common::{Price, Quantity};
use crate::time::Timestamp;

pub mod plain;

pub use plain::PlainOrder;

verus! {

/// Identifier of an order, assigned by whoever submits it.
pub type OrderId = u128;

/// The side of the market an order is on.
#[derive(Clone, Copy, Debug, PartialEq, Eq, Structural)]
pub enum OrderKind {
    Bid,
    Ask,
}

impl OrderKind {
    pub open spec fn spec_opposite(self) -> OrderKind {
        match self {
            OrderKind::Bid => OrderKind::Ask,
            OrderKind::Ask => OrderKind::Bid,
        }
    }

    /// The other side of the market.
    pub fn opposite(&self) -> (r: Self)
        ensures
            r == self.spec_opposite(),
            r != *self,
            r.spec_opposite() == *self,
    {
        match self {
            Self::Bid => Self::Ask,
            Self::Ask => Self::Bid,
        }
    }
}

/// What the book reads and changes on an order.
pub trait Order: Sized {
    spec fn order_id(&self) -> OrderId;

    spec fn order_kind(&self) -> OrderKind;

    spec fn order_price(&self) -> Price;

    spec fn order_quantity(&self) -> Quantity;

    spec fn order_created_at(&self) -> Timestamp;

    spec fn order_modified_at(&self) -> Timestamp;

    spec fn order_cancelled_at(&self) -> Option<Timestamp>;

    /// This order with its remaining quantity replaced and all else kept.
    spec fn with_quantity(&self, quantity: Quantity) -> Self;

    proof fn lemma_with_quantity(&self, quantity: Quantity)
        ensures
            self.with_quantity(quantity).order_quantity() == quantity,
            self.with_quantity(quantity).order_id() == self.order_id(),
            self.with_quantity(quantity).order_kind() == self.order_kind(),
            self.with_quantity(quantity).order_price() == self.order_price(),
    ;

    fn id(&self) -> (r: OrderId)
        ensures
            r == self.order_id(),
    ;

    fn kind(&self) -> (r: OrderKind)
        ensures
            r == self.order_kind(),
    ;

    fn price(&self) -> (r: Price)
        ensures
            r == self.order_price(),
    ;

    fn quantity(&self) -> (r: Quantity)
        ensures
            r == self.order_quantity(),
    ;

    /// The remaining quantity, for fills to decrement in place.
    fn quantity_mut(&mut self) -> (r: &mut Quantity)
        ensures
            *r == old(self).order_quantity(),
            *final(self) == old(self).with_quantity(*final(r)),
    ;

    /// A copy of this order, as the journal keeps it.
    fn snapshot(&self) -> (r: Self)
        ensures
            r == *self,
    ;

    fn created_at(&self) -> (r: Timestamp)
        ensures
            r == self.order_created_at(),
    ;

    fn modified_at(&self) -> (r: Timestamp)
        ensures
            r == self.order_modified_at(),
    ;

    fn cancelled_at(&self) -> (r: Option<Timestamp>)
        ensures
            r == self.order_cancelled_at(),
    ;

    fn cancelled(&self) -> (r: bool)
        ensures
            r == self.order_cancelled_at() is Some,
    ;
}

} // verus!
