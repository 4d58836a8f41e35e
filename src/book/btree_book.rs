//! A limit order book whose sides are price-ordered ladders of FIFO levels.
use vstd::prelude::*;

use crate::book::ladder::{
    better, fill_front, fills, first_with_id, holds_id, is_within_limit, lemma_posted_front,
    lemma_posted_queue, lemma_queue_append, lemma_queue_pos, lemma_queue_split, lemma_total_append,
    lemma_total_nonneg, lemma_total_remove, lemma_total_update, locate, post, posted, queue,
    queue_pos, remove_at, rest, side_wf, total, view_levels, within_limit, Fill, Level,
};
use crate::book::{Book, BookError, BookId};
use crate::common::{Price, Quantity};
use crate::event::{Event, EventKind, Match, MatchInfo};
use crate::order::{Order, OrderId, OrderKind};
use crate::time::{clock_now, Timestamp};

verus! {

broadcast use Price::lemma_key_injective;

/// Aggregate quantity per price on each side, lowest price first.
#[derive(Clone, Debug)]
pub struct Levels {
    pub bids: Vec<(Price, Quantity)>,
    pub asks: Vec<(Price, Quantity)>,
}

/// Information about the market a book represents.
#[derive(Clone, Debug, PartialEq, Eq)]
pub struct Metadata {
    /// A unique identifier for the book
    pub id: BookId,
    /// The human-readable name of the market
    pub name: String,
    /// The abbreviated, human-readable identifier of the market
    pub ticker: String,
}

/// Limit order book. Each side is a ladder of price levels kept best price
/// first (bids highest first, asks lowest first); each level is a FIFO queue.
#[derive(Clone, Debug, PartialEq, Eq)]
pub struct BTreeBook<T> {
    metadata: Metadata,
    events: Vec<Event<T>>,
    bids: Vec<Level<T>>,
    asks: Vec<Level<T>>,
    ltp: Option<Price>,
    bid_depth: Quantity,
    ask_depth: Quantity,
}

/// The abstract state of a book.
pub struct BookView<T> {
    pub metadata: Metadata,
    pub bids: Seq<(Price, Seq<T>)>,
    pub asks: Seq<(Price, Seq<T>)>,
    pub ltp: Option<Price>,
    /// `(bid depth, ask depth)`
    pub depth: (Quantity, Quantity),
    pub events: Seq<Event<T>>,
}

/// Journal timestamps never go backwards.
pub open spec fn journal_ordered<T>(events: Seq<Event<T>>) -> bool {
    forall|i: int|
        0 <= i < events.len() - 1 ==> (#[trigger] events[i]).timestamp.spec_le(
            events[i + 1].timestamp,
        )
}

impl<T: Order> BookView<T> {
    pub open spec fn side(self, kind: OrderKind) -> Seq<(Price, Seq<T>)> {
        match kind {
            OrderKind::Bid => self.bids,
            OrderKind::Ask => self.asks,
        }
    }

    pub open spec fn side_depth(self, kind: OrderKind) -> Quantity {
        match kind {
            OrderKind::Bid => self.depth.0,
            OrderKind::Ask => self.depth.1,
        }
    }

    /// Best bid and best ask are both present and the ask is strictly higher,
    /// or one side is empty.
    pub open spec fn uncrossed(self) -> bool {
        self.bids.len() > 0 && self.asks.len() > 0 ==> self.bids[0].0.key() < self.asks[0].0.key()
    }

    pub open spec fn wf(self) -> bool {
        &&& side_wf(self.bids, OrderKind::Bid)
        &&& side_wf(self.asks, OrderKind::Ask)
        &&& self.depth.0 == total(queue(self.bids))
        &&& self.depth.1 == total(queue(self.asks))
        &&& self.uncrossed()
        &&& journal_ordered(self.events)
    }

    /// An incoming order of `kind` at `price` would trade with the best
    /// order of the other side.
    pub open spec fn crosses(self, price: Price, kind: OrderKind) -> bool {
        let opp = self.side(kind.spec_opposite());
        opp.len() > 0 && within_limit(kind, price, opp[0].0)
    }

    /// The time given to events appended when the clock reads `now`: never
    /// earlier than the last event.
    pub open spec fn stamp(self, now: Timestamp) -> Timestamp {
        if self.events.len() == 0 || self.events.last().timestamp.spec_le(now) {
            now
        } else {
            self.events.last().timestamp
        }
    }

    /// `order` crosses the book (and so never rests), or posting it cannot
    /// overflow the depth of its side.
    pub open spec fn admits(self, order: T) -> bool {
        self.crosses(order.order_price(), order.order_kind()) || self.side_depth(
            order.order_kind(),
        ) + order.order_quantity() <= Quantity::MAX
    }

    /// `new` is this book after `order`, which crosses it, traded at time
    /// `t`: the other side's queue lost what the trades took, one event per
    /// trade was appended, and the last trade set the last traded price.
    /// Whatever of `order` is left untraded is dropped.
    pub open spec fn matched_into(self, new: BookView<T>, order: T, t: Timestamp) -> bool {
        let kind = order.order_kind();
        let opp = kind.spec_opposite();
        let limit = order.order_price();
        let units = order.order_quantity() as nat;
        let fs = fills(queue(self.side(opp)), kind, limit, units);
        &&& fs.len() > 0
        &&& new.metadata == self.metadata
        &&& new.side(kind) == self.side(kind)
        &&& new.side_depth(kind) == self.side_depth(kind)
        &&& side_wf(new.side(opp), opp)
        &&& queue(new.side(opp)) == rest(queue(self.side(opp)), kind, limit, units)
        &&& new.side_depth(opp) == total(queue(new.side(opp)))
        &&& new.ltp == Some(fs.last().incumbent.order_price())
        &&& new.events.len() == self.events.len() + fs.len()
        &&& forall|i: int| 0 <= i < self.events.len() ==> new.events[i] == self.events[i]
        &&& forall|i: int|
            0 <= i < fs.len() ==> {
                &&& (#[trigger] new.events[self.events.len() + i]).timestamp == t
                &&& new.events[self.events.len() + i].kind.records_fill(fs[i], order)
            }
    }

    /// `new` is this book after `add(order)` with events stamped `t`: an
    /// order with nothing to trade is ignored, one that does not cross
    /// comes to rest, and one that crosses trades.
    pub open spec fn added(self, new: BookView<T>, order: T, t: Timestamp) -> bool {
        if order.order_quantity() == 0 {
            new == self
        } else if !self.crosses(order.order_price(), order.order_kind()) {
            new == self.with_posted(order, t)
        } else {
            self.matched_into(new, order, t)
        }
    }

    /// `r` is the first order with `id` in the queue of the side of `kind`.
    pub open spec fn first_on(self, kind: OrderKind, id: OrderId, r: T) -> bool {
        let q = queue(self.side(kind));
        exists|k: int| #[trigger] first_with_id(q, id, k) && r == q[k]
    }

    /// `r` is what a lookup of `id` finds: the first order with that id on
    /// the bid side, else on the ask side, else nothing.
    pub open spec fn lookup(self, id: OrderId, r: Option<T>) -> bool {
        if holds_id(queue(self.bids), id) {
            r is Some && self.first_on(OrderKind::Bid, id, r->0)
        } else if holds_id(queue(self.asks), id) {
            r is Some && self.first_on(OrderKind::Ask, id, r->0)
        } else {
            r is None
        }
    }

    /// `new` is this book after the order at position `k` of the queue of
    /// the side of `kind` (the first with `id`) was withdrawn at time `t` and
    /// returned as `r`.
    pub open spec fn withdrawn_at(
        self,
        new: BookView<T>,
        kind: OrderKind,
        id: OrderId,
        t: Timestamp,
        r: Option<T>,
        k: int,
    ) -> bool {
        let q = queue(self.side(kind));
        let opp = kind.spec_opposite();
        &&& first_with_id(q, id, k)
        &&& r == Some(q[k])
        &&& side_wf(new.side(kind), kind)
        &&& queue(new.side(kind)) == q.remove(k)
        &&& new.side_depth(kind) == self.side_depth(kind) - q[k].order_quantity()
        &&& new.side(opp) == self.side(opp)
        &&& new.side_depth(opp) == self.side_depth(opp)
        &&& new.ltp == self.ltp
        &&& new.metadata == self.metadata
        &&& new.events == self.events.push(Event { timestamp: t, kind: EventKind::Cancel(q[k]) })
    }

    /// `new` is this book after the first order with `id` on the side of
    /// `kind` was withdrawn at time `t` and returned as `r`.
    pub open spec fn withdrawn_into(
        self,
        new: BookView<T>,
        kind: OrderKind,
        id: OrderId,
        t: Timestamp,
        r: Option<T>,
    ) -> bool {
        exists|k: int| #[trigger] self.withdrawn_at(new, kind, id, t, r, k)
    }

    /// `new` and `r` are this book and the result after `cancel(id)` with
    /// the event stamped `t`. An unknown id changes nothing.
    pub open spec fn cancelled(self, new: BookView<T>, id: OrderId, t: Timestamp, r: Option<T>) -> bool {
        if holds_id(queue(self.bids), id) {
            self.withdrawn_into(new, OrderKind::Bid, id, t, r)
        } else if holds_id(queue(self.asks), id) {
            self.withdrawn_into(new, OrderKind::Ask, id, t, r)
        } else {
            r is None && new == self
        }
    }

    /// The book after `order` comes to rest at time `t`.
    pub open spec fn with_posted(self, order: T, t: Timestamp) -> BookView<T> {
        let e = Event { timestamp: t, kind: EventKind::Post(order) };
        match order.order_kind() {
            OrderKind::Bid => BookView {
                bids: posted(self.bids, OrderKind::Bid, order),
                depth: ((self.depth.0 + order.order_quantity()) as Quantity, self.depth.1),
                events: self.events.push(e),
                ..self
            },
            OrderKind::Ask => BookView {
                asks: posted(self.asks, OrderKind::Ask, order),
                depth: (self.depth.0, (self.depth.1 + order.order_quantity()) as Quantity),
                events: self.events.push(e),
                ..self
            },
        }
    }
}

/// Appends the event of one trade.
fn record_fill<T: Order>(
    events: &mut Vec<Event<T>>,
    incumbent: T,
    order: &T,
    traded: Quantity,
    full: bool,
    t: Timestamp,
)
    requires
        journal_ordered(old(events)@),
        old(events)@.len() > 0 ==> old(events)@.last().timestamp.spec_le(t),
    ensures
        final(events)@.len() == old(events)@.len() + 1,
        forall|i: int| 0 <= i < old(events)@.len() ==> final(events)@[i] == old(events)@[i],
        final(events)@.last().timestamp == t,
        final(events)@.last().kind.records_fill(Fill { incumbent, traded, full }, *order),
        journal_ordered(final(events)@),
{
    let mut others: Vec<(T, Quantity)> = Vec::new();
    others.push((order.snapshot(), traded));
    let info = MatchInfo { incumbent, others };
    let kind = if full {
        EventKind::Match(Match::Full(info))
    } else {
        EventKind::Match(Match::Partial(info))
    };
    events.push(Event { timestamp: t, kind });
    proof {
        assert(others@ =~= seq![(*order, traded)]);
    }
}

/// One trade at the front of a queue, unfolded.
proof fn lemma_fill_step<T: Order>(
    q: Seq<T>,
    kind: OrderKind,
    limit: Price,
    remaining: nat,
    next: Seq<T>,
    f: Fill<T>,
)
    requires
        q.len() > 0,
        within_limit(kind, limit, q[0].order_price()),
        remaining > 0,
        f.incumbent == q[0],
        q[0].order_quantity() > remaining ==> {
            &&& f.traded == remaining
            &&& !f.full
            &&& next == q.update(
                0,
                q[0].with_quantity((q[0].order_quantity() - remaining) as Quantity),
            )
        },
        q[0].order_quantity() <= remaining ==> {
            &&& f.traded == q[0].order_quantity()
            &&& f.full
            &&& next == q.drop_first()
        },
    ensures
        f.traded <= remaining,
        f.traded <= total(q),
        fills(q, kind, limit, remaining) == seq![f] + fills(
            next,
            kind,
            limit,
            (remaining - f.traded) as nat,
        ),
        rest(q, kind, limit, remaining) == rest(next, kind, limit, (remaining - f.traded) as nat),
        total(next) == total(q) - f.traded,
{
    lemma_total_nonneg(q.drop_first());
    if q[0].order_quantity() > remaining {
        let o = q[0].with_quantity((q[0].order_quantity() - remaining) as Quantity);
        lemma_total_update(q, 0, o);
        q[0].lemma_with_quantity((q[0].order_quantity() - remaining) as Quantity);
        assert(fills(next, kind, limit, 0) =~= Seq::<Fill<T>>::empty());
        assert(fills(q, kind, limit, remaining) =~= seq![f] + fills(next, kind, limit, 0));
    }
}

/// Trades `order` against `side`, the other side of the book, appending one
/// event per trade stamped `t`.
fn run_fills<T: Order>(
    side: &mut Vec<Level<T>>,
    side_depth: &mut Quantity,
    events: &mut Vec<Event<T>>,
    ltp: &mut Option<Price>,
    order: &T,
    t: Timestamp,
)
    requires
        side_wf(view_levels(old(side)@), order.order_kind().spec_opposite()),
        *old(side_depth) == total(queue(view_levels(old(side)@))),
        journal_ordered(old(events)@),
        old(events)@.len() > 0 ==> old(events)@.last().timestamp.spec_le(t),
    ensures
        ({
            let kind = order.order_kind();
            let fs = fills(
                queue(view_levels(old(side)@)),
                kind,
                order.order_price(),
                order.order_quantity() as nat,
            );
            let n = old(events)@.len();
            &&& queue(view_levels(final(side)@)) == rest(
                queue(view_levels(old(side)@)),
                kind,
                order.order_price(),
                order.order_quantity() as nat,
            )
            &&& final(events)@.len() == n + fs.len()
            &&& forall|i: int| 0 <= i < n ==> final(events)@[i] == old(events)@[i]
            &&& forall|i: int|
                0 <= i < fs.len() ==> {
                    &&& (#[trigger] final(events)@[n + i]).timestamp == t
                    &&& final(events)@[n + i].kind.records_fill(fs[i], *order)
                }
            &&& *final(ltp) == if fs.len() > 0 {
                Some(fs.last().incumbent.order_price())
            } else {
                *old(ltp)
            }
        }),
        side_wf(view_levels(final(side)@), order.order_kind().spec_opposite()),
        *final(side_depth) == total(queue(view_levels(final(side)@))),
        journal_ordered(final(events)@),
        old(side)@.len() > 0 ==> forall|i: int|
            0 <= i < final(side)@.len() ==> !better(
                order.order_kind().spec_opposite(),
                #[trigger] final(side)@[i].price,
                old(side)@[0].price,
            ),
{
    let kind = order.kind();
    let opp = kind.opposite();
    let limit = order.price();
    let mut remaining = order.quantity();
    let ghost q0 = queue(view_levels(side@));
    let ghost r0 = remaining as nat;
    let ghost old_events = events@;
    let ghost n = events@.len();
    let ghost old_ltp = *ltp;
    let ghost mut done: Seq<Fill<T>> = Seq::empty();
    proof {
        let levels = view_levels(side@);
        assert forall|i: int| 0 <= i < side@.len() implies !better(
            opp,
            #[trigger] side@[i].price,
            side@[0].price,
        ) by {
            if i > 0 {
                assert(better(opp, levels[0].0, levels[i].0));
            }
        }
    }
    while remaining > 0 && side.len() > 0 && is_within_limit(kind, limit, side[0].price)
        invariant
            kind == order.order_kind(),
            opp == kind.spec_opposite(),
            limit == order.order_price(),
            side_wf(view_levels(side@), opp),
            *side_depth == total(queue(view_levels(side@))),
            fills(q0, kind, limit, r0) == done + fills(
                queue(view_levels(side@)),
                kind,
                limit,
                remaining as nat,
            ),
            rest(q0, kind, limit, r0) == rest(
                queue(view_levels(side@)),
                kind,
                limit,
                remaining as nat,
            ),
            events@.len() == n + done.len(),
            forall|i: int| 0 <= i < n ==> events@[i] == old_events[i],
            forall|i: int|
                0 <= i < done.len() ==> {
                    &&& (#[trigger] events@[n + i]).timestamp == t
                    &&& events@[n + i].kind.records_fill(done[i], *order)
                },
            journal_ordered(events@),
            events@.len() > 0 ==> events@.last().timestamp.spec_le(t),
            *ltp == if done.len() > 0 {
                Some(done.last().incumbent.order_price())
            } else {
                old_ltp
            },
            old(side)@.len() > 0 ==> forall|i: int|
                0 <= i < side@.len() ==> !better(
                    opp,
                    #[trigger] side@[i].price,
                    old(side)@[0].price,
                ),
        decreases queue(view_levels(side@)).len() + remaining,
    {
        let ghost levels = view_levels(side@);
        let ghost q = queue(levels);
        let ghost before = side@;
        proof {
            lemma_queue_pos(levels, 0, 0);
        }
        let (incumbent, traded, full) = fill_front(side, opp, remaining);
        proof {
            let f = Fill { incumbent, traded, full };
            lemma_fill_step(q, kind, limit, remaining as nat, queue(view_levels(side@)), f);
            let tail = fills(queue(view_levels(side@)), kind, limit, (remaining - traded) as nat);
            assert(done + seq![f] + tail =~= done + (seq![f] + tail));
            assert forall|i: int|
                0 <= i < side@.len() && old(side)@.len() > 0 implies !better(
                opp,
                #[trigger] side@[i].price,
                old(side)@[0].price,
            ) by {
                assert(!better(opp, side@[i].price, before[0].price));
                assert(!better(opp, before[0].price, old(side)@[0].price));
            }
        }
        *side_depth = *side_depth - traded;
        remaining = remaining - traded;
        let price = incumbent.price();
        let ghost f = Fill { incumbent, traded, full };
        let ghost prev_events = events@;
        let ghost prev_done = done;
        record_fill(events, incumbent, order, traded, full, t);
        *ltp = Some(price);
        proof {
            done = done.push(f);
            assert forall|i: int|
                0 <= i < done.len() implies {
                &&& (#[trigger] events@[n + i]).timestamp == t
                &&& events@[n + i].kind.records_fill(done[i], *order)
            } by {
                if i < done.len() - 1 {
                    assert(events@[n + i] == prev_events[n + i]);
                    assert(done[i] == prev_done[i]);
                }
            }
        }
    }
    proof {
        let levels = view_levels(side@);
        if side@.len() > 0 {
            lemma_queue_pos(levels, 0, 0);
        }
        assert(fills(queue(levels), kind, limit, remaining as nat) =~= Seq::<Fill<T>>::empty());
        assert(done + Seq::<Fill<T>>::empty() =~= done);
    }
}

/// Removes order `b` of level `a` from `side` and journals its cancellation.
fn withdraw<T: Order>(
    side: &mut Vec<Level<T>>,
    side_depth: &mut Quantity,
    events: &mut Vec<Event<T>>,
    kind: OrderKind,
    a: usize,
    b: usize,
    t: Timestamp,
) -> (r: T)
    requires
        side_wf(view_levels(old(side)@), kind),
        *old(side_depth) == total(queue(view_levels(old(side)@))),
        a < old(side).len(),
        b < old(side)@[a as int].orders.len(),
        journal_ordered(old(events)@),
        old(events)@.len() > 0 ==> old(events)@.last().timestamp.spec_le(t),
    ensures
        ({
            let q = queue(view_levels(old(side)@));
            let k = queue_pos(view_levels(old(side)@), a as int, b as int);
            &&& r == q[k]
            &&& queue(view_levels(final(side)@)) == q.remove(k)
            &&& *final(side_depth) == *old(side_depth) - q[k].order_quantity()
            &&& final(events)@ == old(events)@.push(
                Event { timestamp: t, kind: EventKind::Cancel(q[k]) },
            )
        }),
        side_wf(view_levels(final(side)@), kind),
        *final(side_depth) == total(queue(view_levels(final(side)@))),
        journal_ordered(final(events)@),
        forall|i: int|
            0 <= i < final(side)@.len() ==> !better(
                kind,
                #[trigger] final(side)@[i].price,
                old(side)@[0].price,
            ),
{
    let ghost levels = view_levels(side@);
    proof {
        lemma_queue_pos(levels, a as int, b as int);
        let k = queue_pos(levels, a as int, b as int);
        lemma_total_remove(queue(levels), k);
        lemma_total_nonneg(queue(levels).remove(k));
    }
    let order = remove_at(side, kind, a, b);
    *side_depth = *side_depth - order.quantity();
    events.push(Event { timestamp: t, kind: EventKind::Cancel(order.snapshot()) });
    order
}

impl<T: Order> View for BTreeBook<T> {
    type V = BookView<T>;

    closed spec fn view(&self) -> BookView<T> {
        BookView {
            metadata: self.metadata,
            bids: view_levels(self.bids@),
            asks: view_levels(self.asks@),
            ltp: self.ltp,
            depth: (self.bid_depth, self.ask_depth),
            events: self.events@,
        }
    }
}

impl<T: Order> BTreeBook<T> {
    /// An empty book for the market described by `id`, `name` and `ticker`.
    pub fn new(id: BookId, name: String, ticker: String) -> (r: Self)
        ensures
            r.well_formed(),
            r@.metadata == (Metadata { id, name, ticker }),
            r@.bids.len() == 0,
            r@.asks.len() == 0,
            r@.ltp is None,
            r@.depth == (0u64, 0u64),
            r@.events.len() == 0,
    {
        Self::meta(Metadata { id, name, ticker })
    }

    /// An empty book for the market described by `metadata`.
    pub fn meta(metadata: Metadata) -> (r: Self)
        ensures
            r.well_formed(),
            r@.metadata == metadata,
            r@.bids.len() == 0,
            r@.asks.len() == 0,
            r@.ltp is None,
            r@.depth == (0u64, 0u64),
            r@.events.len() == 0,
    {
        let r = BTreeBook {
            metadata,
            events: Vec::new(),
            bids: Vec::new(),
            asks: Vec::new(),
            ltp: None,
            bid_depth: 0,
            ask_depth: 0,
        };
        proof {
            assert(view_levels(r.bids@) =~= Seq::empty());
            assert(view_levels(r.asks@) =~= Seq::empty());
        }
        r
    }

    /// The journal, oldest event first.
    pub fn events(&self) -> (r: &Vec<Event<T>>)
        ensures
            r@ == self@.events,
    {
        &self.events
    }

    /// The time for events appended now: `now`, or the last event's time if
    /// the clock reads earlier than that.
    fn stamp(&self, now: Timestamp) -> (r: Timestamp)
        ensures
            r == self@.stamp(now),
    {
        let n = self.events.len();
        if n == 0 {
            now
        } else {
            let last = self.events[n - 1].timestamp;
            if last.le(&now) {
                now
            } else {
                last
            }
        }
    }

    /// Given the price and side of an incoming order, would it trade with the
    /// best order of the other side?
    pub fn crosses(&self, price: Price, kind: OrderKind) -> (r: bool)
        ensures
            r == self@.crosses(price, kind),
    {
        match kind {
            OrderKind::Bid => self.asks.len() > 0 && is_within_limit(kind, price, self.asks[0].price),
            OrderKind::Ask => self.bids.len() > 0 && is_within_limit(kind, price, self.bids[0].price),
        }
    }

    /// Trades `order`, which crosses the book, against the other side.
    fn match_incoming(&mut self, order: T, t: Timestamp)
        requires
            old(self).well_formed(),
            order.order_quantity() > 0,
            old(self)@.crosses(order.order_price(), order.order_kind()),
            old(self)@.events.len() > 0 ==> old(self)@.events.last().timestamp.spec_le(t),
        ensures
            old(self)@.matched_into(final(self)@, order, t),
            final(self).well_formed(),
    {
        let ghost v = self@;
        match order.kind() {
            OrderKind::Bid => run_fills(
                &mut self.asks,
                &mut self.ask_depth,
                &mut self.events,
                &mut self.ltp,
                &order,
                t,
            ),
            OrderKind::Ask => run_fills(
                &mut self.bids,
                &mut self.bid_depth,
                &mut self.events,
                &mut self.ltp,
                &order,
                t,
            ),
        }
        proof {
            let kind = order.order_kind();
            let opp = kind.spec_opposite();
            let levels = v.side(opp);
            lemma_queue_pos(levels, 0, 0);
            let fs = fills(queue(levels), kind, order.order_price(), order.order_quantity() as nat);
            assert(fs.len() > 0);
            if self@.bids.len() > 0 && self@.asks.len() > 0 {
                assert(!better(opp, self@.side(opp)[0].0, levels[0].0));
            }
        }
    }

    /// Submits `order` with the clock reading `now`: an order with nothing
    /// to trade is ignored, one that does not cross comes to rest, one that
    /// crosses trades and its remainder is dropped.
    pub fn add_at(&mut self, order: T, now: Timestamp)
        requires
            old(self).well_formed(),
            old(self)@.admits(order),
        ensures
            final(self).well_formed(),
            old(self)@.added(final(self)@, order, old(self)@.stamp(now)),
    {
        let t = self.stamp(now);
        if order.quantity() == 0 {
            return ;
        }
        if !self.crosses(order.price(), order.kind()) {
            self.add_order(order, t);
        } else {
            self.match_incoming(order, t);
        }
    }

    /// Cancels the first resting order with `id` (bids searched first), with
    /// the clock reading `now`.
    pub fn cancel_at(&mut self, id: OrderId, now: Timestamp) -> (r: Option<T>)
        requires
            old(self).well_formed(),
        ensures
            final(self).well_formed(),
            old(self)@.cancelled(final(self)@, id, old(self)@.stamp(now), r),
    {
        let ghost v = self@;
        let t = self.stamp(now);
        match locate(&self.bids, id) {
            Some((a, b)) => {
                let r = withdraw(
                    &mut self.bids,
                    &mut self.bid_depth,
                    &mut self.events,
                    OrderKind::Bid,
                    a,
                    b,
                    t,
                );
                proof {
                    let k = queue_pos(v.bids, a as int, b as int);
                    assert(first_with_id(queue(v.bids), id, k));
                    assert(v.withdrawn_at(self@, OrderKind::Bid, id, t, Some(r), k));
                    assert(self@.bids.len() > 0 && self@.asks.len() > 0 ==> self@.bids[0].0.key()
                        <= v.bids[0].0.key());
                }
                Some(r)
            },
            None => match locate(&self.asks, id) {
                Some((a, b)) => {
                    let r = withdraw(
                        &mut self.asks,
                        &mut self.ask_depth,
                        &mut self.events,
                        OrderKind::Ask,
                        a,
                        b,
                        t,
                    );
                    proof {
                        let k = queue_pos(v.asks, a as int, b as int);
                        assert(first_with_id(queue(v.asks), id, k));
                        assert(v.withdrawn_at(self@, OrderKind::Ask, id, t, Some(r), k));
                        assert(self@.bids.len() > 0 && self@.asks.len() > 0 ==> self@.asks[0].0.key()
                            >= v.asks[0].0.key());
                    }
                    Some(r)
                },
                None => None,
            },
        }
    }

    /// Puts `order` to rest at the tail of its price level.
    fn add_order(&mut self, order: T, t: Timestamp)
        requires
            old(self).well_formed(),
            old(self)@.admits(order),
            order.order_quantity() > 0,
            !old(self)@.crosses(order.order_price(), order.order_kind()),
            old(self)@.events.len() > 0 ==> old(self)@.events.last().timestamp.spec_le(t),
        ensures
            final(self)@ == old(self)@.with_posted(order, t),
            final(self).well_formed(),
    {
        let ghost v = self@;
        let snapshot = order.snapshot();
        let q = order.quantity();
        match order.kind() {
            OrderKind::Bid => {
                post(&mut self.bids, OrderKind::Bid, order);
                self.bid_depth = self.bid_depth + q;
            },
            OrderKind::Ask => {
                post(&mut self.asks, OrderKind::Ask, order);
                self.ask_depth = self.ask_depth + q;
            },
        }
        self.events.push(Event { timestamp: t, kind: EventKind::Post(snapshot) });
        proof {
            let kind = order.order_kind();
            let levels = v.side(kind);
            lemma_posted_queue(levels, kind, order);
            assert(self@ =~= v.with_posted(order, t));
            assert(self@.uncrossed()) by {
                lemma_posted_front(levels, kind, order);
            }
        }
    }
}

impl<T: Order> BTreeBook<T> {
    /// The metadata of the market.
    pub fn metadata(&self) -> (r: &Metadata)
        ensures
            *r == self@.metadata,
    {
        &self.metadata
    }

    /// Aggregate resting quantity per price level on each side, both sides
    /// lowest price first.
    pub fn levels(&self) -> (r: Levels)
        requires
            self.well_formed(),
        ensures
            r.bids@.len() == self@.bids.len(),
            r.asks@.len() == self@.asks.len(),
            forall|i: int|
                0 <= i < r.bids@.len() ==> {
                    let lv = self@.bids[self@.bids.len() - 1 - i];
                    #[trigger] r.bids@[i] == (lv.0, total(lv.1) as Quantity)
                },
            forall|i: int|
                0 <= i < r.asks@.len() ==> {
                    let lv = self@.asks[i];
                    #[trigger] r.asks@[i] == (lv.0, total(lv.1) as Quantity)
                },
    {
        let mut bids: Vec<(Price, Quantity)> = Vec::new();
        let mut i: usize = self.bids.len();
        while i > 0
            invariant
                self.well_formed(),
                0 <= i <= self.bids.len(),
                bids@.len() == self.bids.len() - i,
                forall|j: int|
                    0 <= j < bids@.len() ==> {
                        let lv = self@.bids[self@.bids.len() - 1 - j];
                        #[trigger] bids@[j] == (lv.0, total(lv.1) as Quantity)
                    },
            decreases i,
        {
            i = i - 1;
            proof {
                lemma_level_within_depth(self@.bids, i as int);
            }
            let level = &self.bids[i];
            bids.push((level.price, level_total(&level.orders)));
        }
        let mut asks: Vec<(Price, Quantity)> = Vec::new();
        let mut i: usize = 0;
        while i < self.asks.len()
            invariant
                self.well_formed(),
                0 <= i <= self.asks.len(),
                asks@.len() == i,
                forall|j: int|
                    0 <= j < asks@.len() ==> {
                        let lv = self@.asks[j];
                        #[trigger] asks@[j] == (lv.0, total(lv.1) as Quantity)
                    },
            decreases self.asks.len() - i,
        {
            proof {
                lemma_level_within_depth(self@.asks, i as int);
            }
            let level = &self.asks[i];
            asks.push((level.price, level_total(&level.orders)));
            i = i + 1;
        }
        Levels { bids, asks }
    }
}

/// A copy of the first order with `id` on `side`.
fn find_on<T: Order>(side: &Vec<Level<T>>, id: OrderId) -> (r: Option<T>)
    ensures
        ({
            let q = queue(view_levels(side@));
            match r {
                None => !holds_id(q, id),
                Some(o) => exists|k: int| #[trigger] first_with_id(q, id, k) && o == q[k],
            }
        }),
{
    match locate(side, id) {
        Some((a, b)) => {
            let ghost levels = view_levels(side@);
            let ghost k = queue_pos(levels, a as int, b as int);
            proof {
                lemma_queue_pos(levels, a as int, b as int);
            }
            let r = side[a].orders[b].snapshot();
            proof {
                assert(levels[a as int].1[b as int] == r);
                assert(first_with_id(queue(levels), id, k));
            }
            Some(r)
        },
        None => None,
    }
}

impl<T: Order> BTreeBook<T> {
    /// Aggregate resting quantity per price level for display: both sides
    /// highest price first, so the best ask is the last ask row and the best
    /// bid the first bid row.
    pub fn display_levels(&self) -> (r: Levels)
        requires
            self.well_formed(),
        ensures
            r.bids@.len() == self@.bids.len(),
            r.asks@.len() == self@.asks.len(),
            forall|i: int|
                0 <= i < r.bids@.len() ==> {
                    let lv = self@.bids[i];
                    #[trigger] r.bids@[i] == (lv.0, total(lv.1) as Quantity)
                },
            forall|i: int|
                0 <= i < r.asks@.len() ==> {
                    let lv = self@.asks[self@.asks.len() - 1 - i];
                    #[trigger] r.asks@[i] == (lv.0, total(lv.1) as Quantity)
                },
    {
        let mut bids: Vec<(Price, Quantity)> = Vec::new();
        let mut i: usize = 0;
        while i < self.bids.len()
            invariant
                self.well_formed(),
                0 <= i <= self.bids.len(),
                bids@.len() == i,
                forall|j: int|
                    0 <= j < bids@.len() ==> {
                        let lv = self@.bids[j];
                        #[trigger] bids@[j] == (lv.0, total(lv.1) as Quantity)
                    },
            decreases self.bids.len() - i,
        {
            proof {
                lemma_level_within_depth(self@.bids, i as int);
            }
            let level = &self.bids[i];
            bids.push((level.price, level_total(&level.orders)));
            i = i + 1;
        }
        let mut asks: Vec<(Price, Quantity)> = Vec::new();
        let mut i: usize = self.asks.len();
        while i > 0
            invariant
                self.well_formed(),
                0 <= i <= self.asks.len(),
                asks@.len() == self.asks.len() - i,
                forall|j: int|
                    0 <= j < asks@.len() ==> {
                        let lv = self@.asks[self@.asks.len() - 1 - j];
                        #[trigger] asks@[j] == (lv.0, total(lv.1) as Quantity)
                    },
            decreases i,
        {
            i = i - 1;
            proof {
                lemma_level_within_depth(self@.asks, i as int);
            }
            let level = &self.asks[i];
            asks.push((level.price, level_total(&level.orders)));
        }
        Levels { bids, asks }
    }
}

impl<T: Order> BTreeBook<T> {
    /// Copies of the resting orders of the side of `kind`, in the order they
    /// would be filled: best price first, oldest first within a price.
    pub fn resting_orders(&self, kind: OrderKind) -> (r: Vec<T>)
        ensures
            r@ == queue(self@.side(kind)),
    {
        let side = match kind {
            OrderKind::Bid => &self.bids,
            OrderKind::Ask => &self.asks,
        };
        let ghost levels = view_levels(side@);
        assert(levels == self@.side(kind));
        let mut r: Vec<T> = Vec::new();
        let mut a: usize = 0;
        while a < side.len()
            invariant
                0 <= a <= side.len(),
                levels == view_levels(side@),
                r@ == queue(levels.take(a as int)),
            decreases side.len() - a,
        {
            let orders = &side[a].orders;
            let ghost start = r@;
            let mut b: usize = 0;
            while b < orders.len()
                invariant
                    0 <= b <= orders.len(),
                    orders@ == levels[a as int].1,
                    r@ == start + orders@.take(b as int),
                decreases orders.len() - b,
            {
                r.push(orders[b].snapshot());
                proof {
                    assert(start + orders@.take(b + 1) =~= start + orders@.take(b as int) + seq![
                        orders@[b as int],
                    ]);
                }
                b = b + 1;
            }
            proof {
                let one = seq![levels[a as int]];
                assert(levels.take(a + 1) =~= levels.take(a as int) + one);
                lemma_queue_append(levels.take(a as int), one);
                assert(one.drop_first() =~= Seq::<(Price, Seq<T>)>::empty());
                assert(queue(Seq::<(Price, Seq<T>)>::empty()) =~= Seq::<T>::empty());
                assert(queue(one) =~= levels[a as int].1);
                assert(orders@.take(b as int) =~= orders@);
            }
            a = a + 1;
        }
        proof {
            assert(levels.take(a as int) =~= levels);
        }
        r
    }
}

/// A level holds no more than its whole side.
proof fn lemma_level_within_depth<T: Order>(levels: Seq<(Price, Seq<T>)>, i: int)
    requires
        0 <= i < levels.len(),
    ensures
        0 <= total(levels[i].1) <= total(queue(levels)),
{
    lemma_queue_split(levels, i);
    let pre = queue(levels.take(i));
    let post = queue(levels.skip(i + 1));
    lemma_total_append(pre + levels[i].1, post);
    lemma_total_append(pre, levels[i].1);
    lemma_total_nonneg(pre);
    lemma_total_nonneg(post);
    lemma_total_nonneg(levels[i].1);
}

/// Sum of the remaining quantities of `orders`.
fn level_total<T: Order>(orders: &Vec<T>) -> (r: Quantity)
    requires
        total(orders@) <= Quantity::MAX,
    ensures
        r == total(orders@),
{
    let mut sum: Quantity = 0;
    let mut i: usize = 0;
    while i < orders.len()
        invariant
            0 <= i <= orders.len(),
            sum == total(orders@.take(i as int)),
            total(orders@) <= Quantity::MAX,
        decreases orders.len() - i,
    {
        proof {
            let s = orders@;
            assert(s.take(i + 1) =~= s.take(i as int) + seq![s[i as int]]);
            lemma_total_append(s.take(i as int), seq![s[i as int]]);
            assert(seq![s[i as int]].drop_first() =~= Seq::<T>::empty());
            assert(total(Seq::<T>::empty()) == 0);
            assert(total(seq![s[i as int]]) == s[i as int].order_quantity());
            assert(s =~= s.take(i + 1) + s.skip(i + 1));
            lemma_total_append(s.take(i + 1), s.skip(i + 1));
            lemma_total_nonneg(s.skip(i + 1));
        }
        sum = sum + orders[i].quantity();
        i = i + 1;
    }
    proof {
        assert(orders@.take(i as int) =~= orders@);
    }
    sum
}

impl<T: Order> Book<T> for BTreeBook<T> {
    type Error = BookError;

    open spec fn well_formed(&self) -> bool {
        self@.wf()
    }

    open spec fn admits(&self, order: &T) -> bool {
        self@.admits(*order)
    }

    fn id(&self) -> (r: BookId)
        ensures
            r == self@.metadata.id,
    {
        self.metadata.id
    }

    fn name(&self) -> (r: String)
        ensures
            r == self@.metadata.name,
    {
        self.metadata.name.clone()
    }

    fn ticker(&self) -> (r: String)
        ensures
            r == self@.metadata.ticker,
    {
        self.metadata.ticker.clone()
    }

    fn order(&self, id: OrderId) -> (r: Option<T>)
        ensures
            self@.lookup(id, r),
    {
        match find_on(&self.bids, id) {
            Some(o) => {
                proof {
                    let q = queue(self@.bids);
                    let k = choose|k: int| #[trigger] first_with_id(q, id, k) && o == q[k];
                    assert(q[k].order_id() == id);
                    assert(holds_id(q, id));
                    assert(self@.side(OrderKind::Bid) == self@.bids);
                    assert(self@.first_on(OrderKind::Bid, id, o));
                }
                Some(o)
            },
            None => {
                let r = find_on(&self.asks, id);
                proof {
                    if r is Some {
                        let q = queue(self@.asks);
                        let k = choose|k: int| #[trigger] first_with_id(q, id, k) && r->0 == q[k];
                        assert(q[k].order_id() == id);
                        assert(holds_id(q, id));
                        assert(self@.side(OrderKind::Ask) == self@.asks);
                        assert(self@.first_on(OrderKind::Ask, id, r->0));
                    }
                }
                r
            },
        }
    }

    fn add(&mut self, order: T)
        ensures
            exists|t: Timestamp| old(self)@.added(final(self)@, order, t),
    {
        let ghost v = self@;
        let now = clock_now();
        self.add_at(order, now);
        assert(v.added(self@, order, v.stamp(now)));
    }

    fn cancel(&mut self, order_id: OrderId) -> (r: Option<T>)
        ensures
            exists|t: Timestamp| old(self)@.cancelled(final(self)@, order_id, t, r),
    {
        let ghost v = self@;
        let now = clock_now();
        let r = self.cancel_at(order_id, now);
        assert(v.cancelled(self@, order_id, v.stamp(now), r));
        r
    }

    fn ltp(&self) -> (r: Option<Price>)
        ensures
            r == self@.ltp,
    {
        self.ltp
    }

    fn depth(&self) -> (r: (Quantity, Quantity))
        ensures
            r == self@.depth,
    {
        (self.bid_depth, self.ask_depth)
    }

    fn top(&self) -> (r: (Option<Price>, Option<Price>))
        ensures
            r.0 == if self@.bids.len() > 0 {
                Some(self@.bids[0].0)
            } else {
                None
            },
            r.1 == if self@.asks.len() > 0 {
                Some(self@.asks[0].0)
            } else {
                None
            },
    {
        let best_bid = if self.bids.len() > 0 {
            Some(self.bids[0].price)
        } else {
            None
        };
        let best_ask = if self.asks.len() > 0 {
            Some(self.asks[0].price)
        } else {
            None
        };
        (best_bid, best_ask)
    }

    fn crossed(&self) -> (r: bool)
        ensures
            r == (self@.bids.len() > 0 && self@.asks.len() > 0 && self@.asks[0].0.key()
                <= self@.bids[0].0.key()),
    {
        match self.top() {
            (Some(best_bid), Some(best_ask)) => best_ask.order_key() <= best_bid.order_key(),
            _ => false,
        }
    }
}

} // verus!
