//! Properties of the book that hold for every input, proved from the
//! contracts of its operations.
use vstd::prelude::*;

use crate::book::btree_book::{journal_ordered, BookView};
use crate::book::ladder::{
    lemma_front_not_better, lemma_posted_front, lemma_posted_wf, lemma_remove_prices,
    lemma_rest_prices, lemma_total_remove, rest, total, within_limit, better, fills, holds_id, lemma_posted_queue, lemma_queue_member, lemma_queue_pos,
    lemma_slot_ahead, lemma_slot_bound, posted, posted_pos, queue, side_wf, slot, Fill,
};
use crate::event::EventKind;
use crate::order::{Order, OrderId, OrderKind};
use crate::common::Price;
use crate::time::Timestamp;

verus! {

broadcast use Price::lemma_key_injective;

proof fn lemma_side_wf_tail<T: Order>(levels: Seq<(Price, Seq<T>)>, kind: OrderKind)
    requires
        side_wf(levels, kind),
        levels.len() > 0,
    ensures
        side_wf(levels.drop_first(), kind),
{
    let d = levels.drop_first();
    assert forall|i: int, j: int| 0 <= i < j < d.len() implies better(
        kind,
        #[trigger] d[i].0,
        #[trigger] d[j].0,
    ) by {
        assert(d[i] == levels[i + 1] && d[j] == levels[j + 1]);
    }
    assert forall|i: int| 0 <= i < d.len() implies (#[trigger] d[i]).1.len() > 0 by {
        assert(d[i] == levels[i + 1]);
    }
    assert forall|i: int, j: int|
        0 <= i < d.len() && 0 <= j < d[i].1.len() implies {
        let o = #[trigger] d[i].1[j];
        &&& o.order_price() == d[i].0
        &&& o.order_kind() == kind
        &&& o.order_quantity() > 0
    } by {
        assert(d[i] == levels[i + 1]);
    }
}

/// Every order of a well-formed side is an order of that side, at a level's
/// price, with quantity left.
pub proof fn law_resting_orders_have_quantity<T: Order>(
    levels: Seq<(Price, Seq<T>)>,
    kind: OrderKind,
    k: int,
)
    requires
        side_wf(levels, kind),
        0 <= k < queue(levels).len(),
    ensures
        queue(levels)[k].order_quantity() > 0,
        queue(levels)[k].order_kind() == kind,
{
    lemma_queue_member(levels, k);
}

/// Price priority within the queue: an order never waits behind an order at
/// a worse price. Orders at one price wait in one level, in arrival order.
pub proof fn law_queue_in_price_order<T: Order>(
    levels: Seq<(Price, Seq<T>)>,
    kind: OrderKind,
    j: int,
    k: int,
)
    requires
        side_wf(levels, kind),
        0 <= j < k < queue(levels).len(),
    ensures
        !better(kind, queue(levels)[k].order_price(), queue(levels)[j].order_price()),
    decreases levels.len(),
{
    let q = queue(levels);
    let d = levels.drop_first();
    let n0 = levels[0].1.len();
    assert(q == levels[0].1 + queue(d));
    if k < n0 {
        assert(q[j] == levels[0].1[j] && q[k] == levels[0].1[k]);
    } else if j < n0 {
        assert(q[j] == levels[0].1[j]);
        lemma_queue_member(d, k - n0);
        let (a, b) = choose|a: int, b: int|
            0 <= a < d.len() && 0 <= b < d[a].1.len() && queue(d)[k - n0] == #[trigger] d[a].1[b];
        assert(d[a] == levels[a + 1]);
        assert(better(kind, levels[0].0, levels[a + 1].0));
    } else {
        lemma_side_wf_tail(levels, kind);
        law_queue_in_price_order(d, kind, j - n0, k - n0);
    }
}

/// Time priority on the way in: a posted order joins the queue behind every
/// order at its price or a better one, and ahead of every order at a worse
/// price; the others keep their order.
pub proof fn law_post_joins_behind_its_price<T: Order>(
    levels: Seq<(Price, Seq<T>)>,
    kind: OrderKind,
    order: T,
)
    requires
        side_wf(levels, kind),
    ensures
        ({
            let q = queue(levels);
            let n = posted_pos(levels, kind, order);
            let p = order.order_price();
            &&& 0 <= n <= q.len()
            &&& queue(posted(levels, kind, order)) == q.insert(n, order)
            &&& forall|j: int| 0 <= j < n ==> !better(kind, p, (#[trigger] q[j]).order_price())
            &&& forall|j: int| n <= j < q.len() ==> better(kind, p, (#[trigger] q[j]).order_price())
        }),
{
    lemma_posted_queue(levels, kind, order);
    let q = queue(levels);
    let p = order.order_price();
    let i = slot(levels, kind, p);
    lemma_slot_bound(levels, kind, p);
    lemma_slot_ahead(levels, kind, p);
    let n = posted_pos(levels, kind, order);
    let m = if i < levels.len() && levels[i].0 == p {
        i + 1
    } else {
        i
    };
    assert(n == queue(levels.take(m)).len());
    assert(levels =~= levels.take(m) + levels.skip(m));
    crate::book::ladder::lemma_queue_append(levels.take(m), levels.skip(m));
    assert forall|j: int| 0 <= j < n implies !better(kind, p, (#[trigger] q[j]).order_price()) by {
        let pre = levels.take(m);
        assert(q[j] == queue(pre)[j]);
        lemma_queue_member(pre, j);
        let (a, b) = choose|a: int, b: int|
            0 <= a < pre.len() && 0 <= b < pre[a].1.len() && queue(pre)[j] == #[trigger] pre[a].1[b];
        assert(pre[a] == levels[a]);
        if a < i {
            assert(better(kind, levels[a].0, p));
        }
    }
    assert forall|j: int| n <= j < q.len() implies better(kind, p, (#[trigger] q[j]).order_price()) by {
        let post = levels.skip(m);
        assert(q[j] == queue(post)[j - n]);
        lemma_queue_member(post, j - n);
        let (a, b) = choose|a: int, b: int|
            0 <= a < post.len() && 0 <= b < post[a].1.len() && queue(post)[j - n]
                == #[trigger] post[a].1[b];
        assert(post[a] == levels[a + m]);
        assert(!better(kind, levels[i].0, p));
        if a + m > i {
            assert(better(kind, levels[i].0, levels[a + m].0));
        }
    }
}

/// Matching takes the queue front first: the `i`-th trade is against the
/// `i`-th order of the queue, and every trade but the last uses its order up.
pub proof fn law_fills_follow_queue<T: Order>(
    q: Seq<T>,
    kind: OrderKind,
    limit: Price,
    units: nat,
)
    ensures
        fills(q, kind, limit, units).len() <= q.len(),
        forall|i: int|
            0 <= i < fills(q, kind, limit, units).len() ==> (#[trigger] fills(
                q,
                kind,
                limit,
                units,
            )[i]).incumbent == q[i],
        forall|i: int|
            0 <= i < fills(q, kind, limit, units).len() - 1 ==> (#[trigger] fills(
                q,
                kind,
                limit,
                units,
            )[i]).full,
    decreases q.len(),
{
    if units == 0 || q.len() == 0 || !crate::book::ladder::within_limit(
        kind,
        limit,
        q[0].order_price(),
    ) {
    } else if q[0].order_quantity() > units {
    } else {
        let rest_units = (units - q[0].order_quantity()) as nat;
        law_fills_follow_queue(q.drop_first(), kind, limit, rest_units);
        let fs = fills(q, kind, limit, units);
        let tail = fills(q.drop_first(), kind, limit, rest_units);
        assert forall|i: int| 0 <= i < fs.len() implies (#[trigger] fs[i]).incumbent == q[i] by {
            if i > 0 {
                assert(fs[i] == tail[i - 1]);
            }
        }
        assert forall|i: int| 0 <= i < fs.len() - 1 implies (#[trigger] fs[i]).full by {
            if i > 0 {
                assert(fs[i] == tail[i - 1]);
            }
        }
    }
}

/// The best level of a side holds the best price on it: no resting order
/// of the side is at a price ahead of it (so `top` gives the highest bid and
/// the lowest ask).
pub proof fn law_top_is_best_price<T: Order>(v: BookView<T>, kind: OrderKind, k: int)
    requires
        v.wf(),
        0 <= k < queue(v.side(kind)).len(),
    ensures
        !better(kind, queue(v.side(kind))[k].order_price(), v.side(kind)[0].0),
{
    let levels = v.side(kind);
    lemma_queue_pos(levels, 0, 0);
    if k > 0 {
        law_queue_in_price_order(levels, kind, 0, k);
    }
}

/// The depth of each side is the sum of the quantities resting on it.
pub proof fn law_depth_is_resting_quantity<T: Order>(v: BookView<T>)
    requires
        v.wf(),
    ensures
        v.depth.0 == total(queue(v.bids)),
        v.depth.1 == total(queue(v.asks)),
{
}

/// No price level of either side is empty.
pub proof fn law_no_empty_levels<T: Order>(v: BookView<T>, kind: OrderKind, i: int)
    requires
        v.wf(),
        0 <= i < v.side(kind).len(),
    ensures
        v.side(kind)[i].1.len() > 0,
{
}

/// Every resting order has quantity left.
pub proof fn law_no_empty_orders<T: Order>(v: BookView<T>, kind: OrderKind, k: int)
    requires
        v.wf(),
        0 <= k < queue(v.side(kind)).len(),
    ensures
        queue(v.side(kind))[k].order_quantity() > 0,
{
    law_resting_orders_have_quantity(v.side(kind), kind, k);
}

/// The book is never crossed: when both sides have orders, the best ask is
/// strictly above the best bid, so `crossed()` is false.
pub proof fn law_book_never_crossed<T: Order>(v: BookView<T>)
    requires
        v.wf(),
    ensures
        v.bids.len() > 0 && v.asks.len() > 0 ==> v.asks[0].0.key() > v.bids[0].0.key(),
        !(v.bids.len() > 0 && v.asks.len() > 0 && v.asks[0].0.key() <= v.bids[0].0.key()),
{
}

/// Journal timestamps never decrease.
pub proof fn law_journal_in_time_order<T: Order>(v: BookView<T>, i: int, j: int)
    requires
        v.wf(),
        0 <= i <= j < v.events.len(),
    ensures
        v.events[i].timestamp.spec_le(v.events[j].timestamp),
    decreases j - i,
{
    if i < j {
        law_journal_in_time_order(v, i + 1, j);
        assert(v.events[i].timestamp.spec_le(v.events[i + 1].timestamp));
    }
}

/// Once there is a last traded price, an `add` never takes it away.
pub proof fn law_ltp_stays_set_on_add<T: Order>(
    old: BookView<T>,
    new: BookView<T>,
    order: T,
    t: Timestamp,
)
    requires
        old.added(new, order, t),
        old.ltp is Some,
    ensures
        new.ltp is Some,
{
}

/// A `cancel` never changes the last traded price.
pub proof fn law_ltp_kept_on_cancel<T: Order>(
    old: BookView<T>,
    new: BookView<T>,
    id: OrderId,
    t: Timestamp,
    r: Option<T>,
)
    requires
        old.cancelled(new, id, t, r),
    ensures
        new.ltp == old.ltp,
{
    if holds_id(queue(old.bids), id) {
        let k = choose|k: int| #[trigger] old.withdrawn_at(new, OrderKind::Bid, id, t, r, k);
    } else if holds_id(queue(old.asks), id) {
        let k = choose|k: int| #[trigger] old.withdrawn_at(new, OrderKind::Ask, id, t, r, k);
    }
}

/// On an empty book an order with quantity rests: one `Post` event, nothing
/// traded.
pub proof fn law_add_to_empty_book_posts<T: Order>(
    old: BookView<T>,
    new: BookView<T>,
    order: T,
    t: Timestamp,
)
    requires
        old.bids.len() == 0,
        old.asks.len() == 0,
        order.order_quantity() > 0,
        old.added(new, order, t),
    ensures
        new == old.with_posted(order, t),
        new.events.len() == old.events.len() + 1,
        new.events.last().kind == EventKind::Post(order),
        new.ltp == old.ltp,
{
}

/// Cancelling an id that rests nowhere returns nothing and changes nothing,
/// the journal included.
pub proof fn law_cancel_unknown_id_is_no_op<T: Order>(
    old: BookView<T>,
    new: BookView<T>,
    id: OrderId,
    t: Timestamp,
    r: Option<T>,
)
    requires
        !holds_id(queue(old.bids), id),
        !holds_id(queue(old.asks), id),
        old.cancelled(new, id, t, r),
    ensures
        r is None,
        new == old,
{
}

/// An incoming order with zero quantity produces no event and changes
/// nothing.
pub proof fn law_zero_quantity_order_is_ignored<T: Order>(
    old: BookView<T>,
    new: BookView<T>,
    order: T,
    t: Timestamp,
)
    requires
        order.order_quantity() == 0,
        old.added(new, order, t),
    ensures
        new == old,
{
}

/// An incoming order that crosses and meets a resting order of exactly its
/// quantity at the front of the other side trades once, fully, and that
/// resting order leaves the book.
pub proof fn law_equal_quantity_fills_fully<T: Order>(
    old: BookView<T>,
    new: BookView<T>,
    order: T,
    t: Timestamp,
)
    requires
        old.wf(),
        order.order_quantity() > 0,
        old.crosses(order.order_price(), order.order_kind()),
        queue(old.side(order.order_kind().spec_opposite()))[0].order_quantity()
            == order.order_quantity(),
        old.added(new, order, t),
    ensures
        ({
            let opp = order.order_kind().spec_opposite();
            let q = queue(old.side(opp));
            &&& new.events.len() == old.events.len() + 1
            &&& new.events.last().kind.records_fill(
                Fill { incumbent: q[0], traded: order.order_quantity(), full: true },
                order,
            )
            &&& queue(new.side(opp)) == q.drop_first()
            &&& new.ltp == Some(q[0].order_price())
        }),
{
    let kind = order.order_kind();
    let opp = kind.spec_opposite();
    let levels = old.side(opp);
    let q = queue(levels);
    lemma_queue_pos(levels, 0, 0);
    let units = order.order_quantity() as nat;
    let limit = order.order_price();
    assert(within_limit(kind, limit, q[0].order_price()));
    assert(fills(q.drop_first(), kind, limit, 0) =~= Seq::<Fill<T>>::empty());
    let f = Fill { incumbent: q[0], traded: order.order_quantity(), full: true };
    assert(fills(q, kind, limit, units) =~= seq![f]);
    assert(rest(q.drop_first(), kind, limit, 0) == q.drop_first());
    assert(rest(q, kind, limit, units) == q.drop_first());
    assert(new.events[old.events.len() + 0int] == new.events.last());
}

/// Every `add` on a well-formed book leaves it well formed: each level
/// non-empty, every resting order with quantity left, depth equal to the
/// resting quantity of each side, best ask above best bid, and the journal
/// in time order with the old journal as its prefix.
pub proof fn law_add_keeps_book_well_formed<T: Order>(
    old: BookView<T>,
    new: BookView<T>,
    order: T,
    t: Timestamp,
)
    requires
        old.wf(),
        old.admits(order),
        old.events.len() > 0 ==> old.events.last().timestamp.spec_le(t),
        old.added(new, order, t),
    ensures
        new.wf(),
        new.events.len() >= old.events.len(),
        forall|i: int| 0 <= i < old.events.len() ==> new.events[i] == old.events[i],
{
    let kind = order.order_kind();
    let opp = kind.spec_opposite();
    if order.order_quantity() == 0 {
    } else if !old.crosses(order.order_price(), kind) {
        let own = old.side(kind);
        lemma_posted_wf(own, kind, order);
        lemma_posted_queue(own, kind, order);
        lemma_posted_front(own, kind, order);
        assert(journal_ordered(new.events)) by {
            assert forall|i: int| 0 <= i < new.events.len() - 1 implies (
            #[trigger] new.events[i]).timestamp.spec_le(new.events[i + 1].timestamp) by {
                assert(new.events[i] == old.events[i]);
                if i + 1 < old.events.len() {
                    assert(new.events[i + 1] == old.events[i + 1]);
                } else {
                    assert(old.events[i] == old.events.last());
                }
            }
        }
    } else {
        let before = old.side(opp);
        let after = new.side(opp);
        let units = order.order_quantity() as nat;
        let fs = fills(queue(before), kind, order.order_price(), units);
        if after.len() > 0 {
            lemma_rest_prices(queue(before), kind, order.order_price(), units);
            lemma_front_not_better(before, after, opp);
        }
        let n = old.events.len() as int;
        assert(journal_ordered(new.events)) by {
            assert forall|i: int| 0 <= i < new.events.len() - 1 implies (
            #[trigger] new.events[i]).timestamp.spec_le(new.events[i + 1].timestamp) by {
                if i + 1 < n {
                    assert(new.events[i] == old.events[i]);
                    assert(new.events[i + 1] == old.events[i + 1]);
                } else if i + 1 == n {
                    assert(new.events[i] == old.events.last());
                    assert(new.events[n + 0] == new.events[i + 1]);
                } else {
                    assert(new.events[n + (i - n)] == new.events[i]);
                    assert(new.events[n + (i + 1 - n)] == new.events[i + 1]);
                }
            }
        }
    }
}

/// Every `cancel` on a well-formed book leaves it well formed, with the old
/// journal as a prefix of the new one.
pub proof fn law_cancel_keeps_book_well_formed<T: Order>(
    old: BookView<T>,
    new: BookView<T>,
    id: OrderId,
    t: Timestamp,
    r: Option<T>,
)
    requires
        old.wf(),
        old.events.len() > 0 ==> old.events.last().timestamp.spec_le(t),
        old.cancelled(new, id, t, r),
    ensures
        new.wf(),
        new.events.len() >= old.events.len(),
        forall|i: int| 0 <= i < old.events.len() ==> new.events[i] == old.events[i],
{
    let kind = if holds_id(queue(old.bids), id) {
        OrderKind::Bid
    } else {
        OrderKind::Ask
    };
    if holds_id(queue(old.bids), id) || holds_id(queue(old.asks), id) {
        let k = choose|k: int| #[trigger] old.withdrawn_at(new, kind, id, t, r, k);
        let q = queue(old.side(kind));
        lemma_total_remove(q, k);
        if new.side(kind).len() > 0 {
            lemma_remove_prices(q, k);
            lemma_front_not_better(old.side(kind), new.side(kind), kind);
        }
        assert(journal_ordered(new.events)) by {
            assert forall|i: int| 0 <= i < new.events.len() - 1 implies (
            #[trigger] new.events[i]).timestamp.spec_le(new.events[i + 1].timestamp) by {
                assert(new.events[i] == old.events[i]);
                if i + 1 < old.events.len() {
                    assert(new.events[i + 1] == old.events[i + 1]);
                } else {
                    assert(old.events[i] == old.events.last());
                }
            }
        }
    }
}

/// Price-time priority through `add`: when an incoming order trades with a
/// resting order `b`, every resting order `a` ahead of `b` on that side (at
/// a better price, or at `b`'s price and earlier) traded first, in an
/// earlier event, and was used up.
pub proof fn law_add_fills_in_priority<T: Order>(
    old: BookView<T>,
    new: BookView<T>,
    order: T,
    t: Timestamp,
    a: int,
    b: int,
)
    requires
        old.wf(),
        order.order_quantity() > 0,
        old.crosses(order.order_price(), order.order_kind()),
        old.added(new, order, t),
        0 <= a < queue(old.side(order.order_kind().spec_opposite())).len(),
        0 <= b < queue(old.side(order.order_kind().spec_opposite())).len(),
        ({
            let q = queue(old.side(order.order_kind().spec_opposite()));
            better(order.order_kind().spec_opposite(), q[a].order_price(), q[b].order_price())
                || a < b
        }),
        b < fills(
            queue(old.side(order.order_kind().spec_opposite())),
            order.order_kind(),
            order.order_price(),
            order.order_quantity() as nat,
        ).len(),
    ensures
        ({
            let opp = order.order_kind().spec_opposite();
            let q = queue(old.side(opp));
            let fs = fills(q, order.order_kind(), order.order_price(), order.order_quantity() as nat);
            let n = old.events.len();
            &&& a < b
            &&& fs[a].incumbent == q[a]
            &&& fs[a].full
            &&& fs[b].incumbent == q[b]
            &&& new.events[n + a].kind.records_fill(fs[a], order)
            &&& new.events[n + b].kind.records_fill(fs[b], order)
        }),
{
    let kind = order.order_kind();
    let opp = kind.spec_opposite();
    let q = queue(old.side(opp));
    if b < a {
        law_queue_in_price_order(old.side(opp), opp, b, a);
    }
    law_fills_follow_queue(q, kind, order.order_price(), order.order_quantity() as nat);
}

} // verus!
