//! An order carrying exactly the fields the book needs.
use vstd::prelude::*;

use crate::order::{Order, OrderId, OrderKind};
use crate::common::{Price, Quantity};
use crate::time::Timestamp;

verus! {

/// An order whose fields are all plain values.
#[derive(Clone, Copy, Debug, PartialEq, Eq, Structural)]
pub struct PlainOrder {
    pub id: OrderId,
    pub kind: OrderKind,
    pub price: Price,
    pub quantity: Quantity,
    pub created: Timestamp,
    pub modified: Timestamp,
    pub cancelled: Option<Timestamp>,
}

impl Order for PlainOrder {
    open spec fn order_id(&self) -> OrderId {
        self.id
    }

    open spec fn order_kind(&self) -> OrderKind {
        self.kind
    }

    open spec fn order_price(&self) -> Price {
        self.price
    }

    open spec fn order_quantity(&self) -> Quantity {
        self.quantity
    }

    open spec fn order_created_at(&self) -> Timestamp {
        self.created
    }

    open spec fn order_modified_at(&self) -> Timestamp {
        self.modified
    }

    open spec fn order_cancelled_at(&self) -> Option<Timestamp> {
        self.cancelled
    }

    open spec fn with_quantity(&self, quantity: Quantity) -> Self {
        PlainOrder { quantity, ..*self }
    }

    proof fn lemma_with_quantity(&self, quantity: Quantity) {
    }

    fn id(&self) -> (r: OrderId) {
        self.id
    }

    fn kind(&self) -> (r: OrderKind) {
        self.kind
    }

    fn price(&self) -> (r: Price) {
        self.price
    }

    fn quantity(&self) -> (r: Quantity) {
        self.quantity
    }

    fn quantity_mut(&mut self) -> (r: &mut Quantity) {
        &mut self.quantity
    }

    fn snapshot(&self) -> (r: Self) {
        *self
    }

    fn created_at(&self) -> (r: Timestamp) {
        self.created
    }

    fn modified_at(&self) -> (r: Timestamp) {
        self.modified
    }

    fn cancelled_at(&self) -> (r: Option<Timestamp>) {
        self.cancelled
    }

    fn cancelled(&self) -> (r: bool) {
        self.cancelled.is_some()
    }
}

} // verus!
