//! The journal: one event per change of the book.
use vstd::prelude::*;

use crate::book::ladder::Fill;
use crate::common::Quantity;
use crate::time::{clock_now, Timestamp};

verus! {

/// A trade: the resting order as it stood before it, and the incoming
/// orders it traded with, each with the quantity traded.
#[derive(Clone, Debug, PartialEq, Eq)]
pub struct MatchInfo<T> {
    pub incumbent: T,
    pub others: Vec<(T, Quantity)>,
}

/// Whether a trade used up the resting order.
#[derive(Clone, Debug, PartialEq, Eq)]
pub enum Match<T> {
    Full(MatchInfo<T>),
    Partial(MatchInfo<T>),
}

#[derive(Clone, Debug, PartialEq, Eq)]
pub enum EventKind<T> {
    /// An order came to rest on its side.
    Post(T),
    /// An incoming order traded with a resting one.
    Match(Match<T>),
    /// A resting order was withdrawn.
    Cancel(T),
}

#[derive(Clone, Debug, PartialEq, Eq)]
pub struct Event<T> {
    pub timestamp: Timestamp,
    pub kind: EventKind<T>,
}

impl<T> EventKind<T> {
    /// This event records `fill` taken by `incoming`.
    pub open spec fn records_fill(self, fill: Fill<T>, incoming: T) -> bool {
        match self {
            EventKind::Match(Match::Full(info)) => {
                &&& fill.full
                &&& info.incumbent == fill.incumbent
                &&& info.others@ == seq![(incoming, fill.traded)]
            },
            EventKind::Match(Match::Partial(info)) => {
                &&& !fill.full
                &&& info.incumbent == fill.incumbent
                &&& info.others@ == seq![(incoming, fill.traded)]
            },
            _ => false,
        }
    }
}

impl<T> Event<T> {
    /// An event of `kind` stamped with the current time.
    pub fn new(kind: EventKind<T>) -> (r: Self)
        ensures
            r.kind == kind,
    {
        Event { timestamp: clock_now(), kind }
    }
}

} // verus!
