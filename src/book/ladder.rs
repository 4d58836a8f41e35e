//! One side of the book: price levels held best price first, each a FIFO
//! queue of resting orders.
//!
//! The abstract view of a side is the sequence of its levels as
//! `(price, orders)` pairs. Reading the levels front to back and each level
//! front to back gives the side's *queue*: the order in which incoming
//! liquidity consumes it.
use vstd::prelude::*;

use crate::order::{Order, OrderId, OrderKind};
use crate::common::{Price, Quantity};

verus! {

broadcast use Price::lemma_key_injective;

/// A price level: every order in it rests at `price`, oldest first.
#[derive(Clone, Debug, PartialEq, Eq)]
pub struct Level<T> {
    pub price: Price,
    pub orders: Vec<T>,
}

/// The levels of a side as `(price, orders)` pairs.
pub open spec fn view_levels<T>(v: Seq<Level<T>>) -> Seq<(Price, Seq<T>)> {
    Seq::new(v.len(), |i: int| (v[i].price, v[i].orders@))
}

/// On the side of `kind`, a price `a` is strictly ahead of `b`: higher for
/// bids, lower for asks.
pub open spec fn better(kind: OrderKind, a: Price, b: Price) -> bool {
    match kind {
        OrderKind::Bid => a.key() > b.key(),
        OrderKind::Ask => a.key() < b.key(),
    }
}

/// An incoming order of `kind` limited at `limit` may trade with a resting
/// order at `resting`.
pub open spec fn within_limit(kind: OrderKind, limit: Price, resting: Price) -> bool {
    match kind {
        OrderKind::Bid => resting.key() <= limit.key(),
        OrderKind::Ask => resting.key() >= limit.key(),
    }
}

/// The resting orders of a side in the order they are filled.
pub open spec fn queue<T>(levels: Seq<(Price, Seq<T>)>) -> Seq<T>
    decreases levels.len(),
{
    if levels.len() == 0 {
        Seq::empty()
    } else {
        levels[0].1 + queue(levels.drop_first())
    }
}

/// Sum of the remaining quantities of `orders`.
pub open spec fn total<T: Order>(orders: Seq<T>) -> int
    decreases orders.len(),
{
    if orders.len() == 0 {
        0
    } else {
        orders[0].order_quantity() + total(orders.drop_first())
    }
}

/// A well-formed side of `kind`: levels strictly ordered best first, none
/// empty, and every order in a level of this side, at the level's price and
/// with quantity left.
pub open spec fn side_wf<T: Order>(levels: Seq<(Price, Seq<T>)>, kind: OrderKind) -> bool {
    &&& forall|i: int, j: int|
        0 <= i < j < levels.len() ==> better(kind, #[trigger] levels[i].0, #[trigger] levels[j].0)
    &&& forall|i: int| 0 <= i < levels.len() ==> (#[trigger] levels[i]).1.len() > 0
    &&& forall|i: int, j: int|
        0 <= i < levels.len() && 0 <= j < levels[i].1.len() ==> {
            let o = #[trigger] levels[i].1[j];
            &&& o.order_price() == levels[i].0
            &&& o.order_kind() == kind
            &&& o.order_quantity() > 0
        }
}

/// Index of the first level that is not strictly ahead of `price`.
pub open spec fn slot<T>(levels: Seq<(Price, Seq<T>)>, kind: OrderKind, price: Price) -> int
    decreases levels.len(),
{
    if levels.len() == 0 || !better(kind, levels[0].0, price) {
        0
    } else {
        1 + slot(levels.drop_first(), kind, price)
    }
}

/// The levels after `order` is appended at the tail of its price level,
/// opening that level if there is none.
pub open spec fn posted<T: Order>(levels: Seq<(Price, Seq<T>)>, kind: OrderKind, order: T) -> Seq<
    (Price, Seq<T>),
> {
    let p = order.order_price();
    let i = slot(levels, kind, p);
    if i < levels.len() && levels[i].0 == p {
        levels.update(i, (p, levels[i].1.push(order)))
    } else {
        levels.insert(i, (p, seq![order]))
    }
}

/// One trade against a resting order: the order as it was before the trade,
/// the quantity traded, and whether it left the resting order empty.
pub struct Fill<T> {
    pub incumbent: T,
    pub traded: Quantity,
    pub full: bool,
}

/// The trades an incoming order of `kind` at `limit` with `remaining` units
/// makes against `queue`: resting orders are taken front first while they are
/// within the limit and units remain.
pub open spec fn fills<T: Order>(queue: Seq<T>, kind: OrderKind, limit: Price, remaining: nat) -> Seq<
    Fill<T>,
>
    decreases queue.len(),
{
    if remaining == 0 || queue.len() == 0 || !within_limit(kind, limit, queue[0].order_price()) {
        Seq::empty()
    } else if queue[0].order_quantity() > remaining {
        seq![Fill { incumbent: queue[0], traded: remaining as Quantity, full: false }]
    } else {
        seq![Fill { incumbent: queue[0], traded: queue[0].order_quantity(), full: true }] + fills(
            queue.drop_first(),
            kind,
            limit,
            (remaining - queue[0].order_quantity()) as nat,
        )
    }
}

/// What is left of `queue` after those trades.
pub open spec fn rest<T: Order>(queue: Seq<T>, kind: OrderKind, limit: Price, remaining: nat) -> Seq<T>
    decreases queue.len(),
{
    if remaining == 0 || queue.len() == 0 || !within_limit(kind, limit, queue[0].order_price()) {
        queue
    } else if queue[0].order_quantity() > remaining {
        queue.update(0, queue[0].with_quantity((queue[0].order_quantity() - remaining) as Quantity))
    } else {
        rest(queue.drop_first(), kind, limit, (remaining - queue[0].order_quantity()) as nat)
    }
}

pub proof fn lemma_queue_append<T>(a: Seq<(Price, Seq<T>)>, b: Seq<(Price, Seq<T>)>)
    ensures
        queue(a + b) == queue(a) + queue(b),
    decreases a.len(),
{
    if a.len() == 0 {
        assert(a + b =~= b);
    } else {
        assert((a + b).drop_first() =~= a.drop_first() + b);
        lemma_queue_append(a.drop_first(), b);
        assert(queue(a + b) =~= queue(a) + queue(b));
    }
}

pub proof fn lemma_total_append<T: Order>(a: Seq<T>, b: Seq<T>)
    ensures
        total(a + b) == total(a) + total(b),
    decreases a.len(),
{
    if a.len() == 0 {
        assert(a + b =~= b);
    } else {
        assert((a + b).drop_first() =~= a.drop_first() + b);
        lemma_total_append(a.drop_first(), b);
    }
}

pub proof fn lemma_total_nonneg<T: Order>(a: Seq<T>)
    ensures
        total(a) >= 0,
    decreases a.len(),
{
    if a.len() > 0 {
        lemma_total_nonneg(a.drop_first());
    }
}

/// The queue of a side split around level `i`.
pub proof fn lemma_queue_split<T>(levels: Seq<(Price, Seq<T>)>, i: int)
    requires
        0 <= i < levels.len(),
    ensures
        queue(levels) == queue(levels.take(i)) + levels[i].1 + queue(levels.skip(i + 1)),
{
    assert(levels =~= levels.take(i) + (seq![levels[i]] + levels.skip(i + 1)));
    lemma_queue_append(levels.take(i), seq![levels[i]] + levels.skip(i + 1));
    assert((seq![levels[i]] + levels.skip(i + 1)).drop_first() =~= levels.skip(i + 1));
    assert(queue(levels) =~= queue(levels.take(i)) + levels[i].1 + queue(levels.skip(i + 1)));
}

/// Replacing level `i` changes the queue only in that level's stretch.
pub proof fn lemma_queue_update<T>(levels: Seq<(Price, Seq<T>)>, i: int, lv: (Price, Seq<T>))
    requires
        0 <= i < levels.len(),
    ensures
        queue(levels.update(i, lv)) == queue(levels.take(i)) + lv.1 + queue(levels.skip(i + 1)),
{
    let u = levels.update(i, lv);
    lemma_queue_split(u, i);
    assert(u.take(i) =~= levels.take(i));
    assert(u.skip(i + 1) =~= levels.skip(i + 1));
}

/// Inserting a level at `i` puts its orders between those of the levels
/// before and after it.
pub proof fn lemma_queue_insert<T>(levels: Seq<(Price, Seq<T>)>, i: int, lv: (Price, Seq<T>))
    requires
        0 <= i <= levels.len(),
    ensures
        queue(levels.insert(i, lv)) == queue(levels.take(i)) + lv.1 + queue(levels.skip(i)),
{
    let u = levels.insert(i, lv);
    lemma_queue_split(u, i);
    assert(u.take(i) =~= levels.take(i));
    assert(u.skip(i + 1) =~= levels.skip(i));
}

/// Removing level `i` removes its stretch of the queue.
pub proof fn lemma_queue_remove<T>(levels: Seq<(Price, Seq<T>)>, i: int)
    requires
        0 <= i < levels.len(),
    ensures
        queue(levels.remove(i)) == queue(levels.take(i)) + queue(levels.skip(i + 1)),
{
    let u = levels.remove(i);
    assert(u =~= levels.take(i) + levels.skip(i + 1));
    lemma_queue_append(levels.take(i), levels.skip(i + 1));
}

/// The total of a queue with one element removed.
pub proof fn lemma_total_remove<T: Order>(q: Seq<T>, k: int)
    requires
        0 <= k < q.len(),
    ensures
        total(q.remove(k)) == total(q) - q[k].order_quantity(),
{
    assert(q =~= q.take(k) + (seq![q[k]] + q.skip(k + 1)));
    lemma_total_append(q.take(k), seq![q[k]] + q.skip(k + 1));
    assert((seq![q[k]] + q.skip(k + 1)).drop_first() =~= q.skip(k + 1));
    assert(q.remove(k) =~= q.take(k) + q.skip(k + 1));
    lemma_total_append(q.take(k), q.skip(k + 1));
}

/// The total of a queue with one element replaced.
pub proof fn lemma_total_update<T: Order>(q: Seq<T>, k: int, o: T)
    requires
        0 <= k < q.len(),
    ensures
        total(q.update(k, o)) == total(q) - q[k].order_quantity() + o.order_quantity(),
{
    let u = q.update(k, o);
    lemma_total_remove(q, k);
    lemma_total_remove(u, k);
    assert(u.remove(k) =~= q.remove(k));
}

/// `slot` is the length of the run of levels strictly ahead of `price`.
pub proof fn lemma_slot_is_run<T>(levels: Seq<(Price, Seq<T>)>, kind: OrderKind, price: Price, i: int)
    requires
        0 <= i <= levels.len(),
        forall|j: int| 0 <= j < i ==> better(kind, #[trigger] levels[j].0, price),
        i == levels.len() || !better(kind, levels[i].0, price),
    ensures
        slot(levels, kind, price) == i,
    decreases i,
{
    if i > 0 {
        let d = levels.drop_first();
        assert forall|j: int| 0 <= j < i - 1 implies better(kind, #[trigger] d[j].0, price) by {
            assert(d[j] == levels[j + 1]);
        }
        lemma_slot_is_run(d, kind, price, i - 1);
    }
}

/// Whether `a` is strictly ahead of `b` on the side of `kind`.
pub fn is_better(kind: OrderKind, a: Price, b: Price) -> (r: bool)
    ensures
        r == better(kind, a, b),
{
    match kind {
        OrderKind::Bid => a.order_key() > b.order_key(),
        OrderKind::Ask => a.order_key() < b.order_key(),
    }
}

/// Whether a resting price is within an incoming order's limit.
pub fn is_within_limit(kind: OrderKind, limit: Price, resting: Price) -> (r: bool)
    ensures
        r == within_limit(kind, limit, resting),
{
    match kind {
        OrderKind::Bid => resting.order_key() <= limit.order_key(),
        OrderKind::Ask => resting.order_key() >= limit.order_key(),
    }
}

/// Appends `order` to the tail of its price level on `side`.
pub fn post<T: Order>(side: &mut Vec<Level<T>>, kind: OrderKind, order: T)
    requires
        side_wf(view_levels(old(side)@), kind),
        order.order_kind() == kind,
        order.order_quantity() > 0,
    ensures
        view_levels(final(side)@) == posted(view_levels(old(side)@), kind, order),
        side_wf(view_levels(final(side)@), kind),
{
    let ghost old_levels = view_levels(side@);
    let price = order.price();
    let mut i: usize = 0;
    while i < side.len() && is_better(kind, side[i].price, price)
        invariant
            0 <= i <= side.len(),
            side@ == old(side)@,
            forall|j: int| 0 <= j < i ==> better(kind, #[trigger] side@[j].price, price),
        decreases side.len() - i,
    {
        i = i + 1;
    }
    proof {
        assert forall|j: int| 0 <= j < i implies better(kind, #[trigger] old_levels[j].0, price) by {
            assert(old_levels[j].0 == side@[j].price);
        }
        lemma_slot_is_run(old_levels, kind, price, i as int);
    }
    if i < side.len() && side[i].price.order_key() == price.order_key() {
        let mut level = side.remove(i);
        level.orders.push(order);
        side.insert(i, level);
        proof {
            assert(view_levels(side@) =~= posted(old_levels, kind, order));
        }
    } else {
        let mut orders: Vec<T> = Vec::new();
        orders.push(order);
        side.insert(i, Level { price, orders });
        proof {
            assert(view_levels(side@) =~= posted(old_levels, kind, order));
            let nl = view_levels(side@);
            assert forall|a: int, b: int| 0 <= a < b < nl.len() implies better(
                kind,
                #[trigger] nl[a].0,
                #[trigger] nl[b].0,
            ) by {
                if b == i {
                    assert(nl[a] == old_levels[a]);
                } else if a == i {
                    assert(nl[b] == old_levels[b - 1]);
                    if b - 1 > i {
                        assert(better(kind, old_levels[i as int].0, old_levels[b - 1].0));
                    }
                } else {
                }
            }
        }
    }
}

/// Trades up to `remaining` units against the front order of `side`. Returns
/// the front order as it was, the quantity traded, and whether the front
/// order was used up (and so left the side).
pub fn fill_front<T: Order>(side: &mut Vec<Level<T>>, kind: OrderKind, remaining: Quantity) -> (r: (
    T,
    Quantity,
    bool,
))
    requires
        side_wf(view_levels(old(side)@), kind),
        old(side).len() > 0,
        remaining > 0,
    ensures
        ({
            let q = queue(view_levels(old(side)@));
            let front = q[0];
            &&& r.0 == front
            &&& front.order_price() == old(side)@[0].price
            &&& front.order_quantity() > remaining ==> {
                &&& r.1 == remaining
                &&& !r.2
                &&& queue(view_levels(final(side)@)) == q.update(
                    0,
                    front.with_quantity((front.order_quantity() - remaining) as Quantity),
                )
            }
            &&& front.order_quantity() <= remaining ==> {
                &&& r.1 == front.order_quantity()
                &&& r.2
                &&& queue(view_levels(final(side)@)) == q.drop_first()
            }
        }),
        side_wf(view_levels(final(side)@), kind),
        forall|i: int|
            0 <= i < final(side)@.len() ==> !better(
                kind,
                #[trigger] final(side)@[i].price,
                old(side)@[0].price,
            ),
{
    let ghost old_levels = view_levels(side@);
    let mut level = side.remove(0);
    let ghost lv0 = old_levels[0];
    assert(queue(old_levels) == lv0.1 + queue(old_levels.drop_first()));
    assert(old_levels.drop_first() =~= view_levels(side@));
    let mut incumbent = level.orders.remove(0);
    let snapshot = incumbent.snapshot();
    let have = incumbent.quantity();
    let traded: Quantity;
    let full: bool;
    if have > remaining {
        proof {
            incumbent.lemma_with_quantity((have - remaining) as Quantity);
        }
        *incumbent.quantity_mut() = have - remaining;
        level.orders.insert(0, incumbent);
        traded = remaining;
        full = false;
    } else {
        traded = have;
        full = true;
    }
    if level.orders.len() > 0 {
        side.insert(0, level);
        proof {
            let nl = view_levels(side@);
            assert(nl =~= old_levels.update(0, (lv0.0, level.orders@)));
            assert(nl.drop_first() =~= old_levels.drop_first());
            if full {
                assert(level.orders@ =~= lv0.1.drop_first());
                assert(queue(nl) =~= queue(old_levels).drop_first());
            } else {
                assert(level.orders@ =~= lv0.1.update(0, incumbent));
                assert(queue(nl) =~= queue(old_levels).update(0, incumbent));
            }
            assert forall|i: int| 0 <= i < nl.len() implies (#[trigger] nl[i]).1.len() > 0 by {
                if i > 0 {
                    assert(nl[i] == old_levels[i]);
                }
            }
            assert forall|i: int, j: int|
                0 <= i < nl.len() && 0 <= j < nl[i].1.len() implies {
                let o = #[trigger] nl[i].1[j];
                &&& o.order_price() == nl[i].0
                &&& o.order_kind() == kind
                &&& o.order_quantity() > 0
            } by {
                if i > 0 {
                    assert(nl[i] == old_levels[i]);
                } else if full {
                    assert(nl[0].1[j] == lv0.1[j + 1]);
                } else if j > 0 {
                    assert(nl[0].1[j] == lv0.1[j]);
                }
            }
            assert forall|a: int, b: int| 0 <= a < b < nl.len() implies better(
                kind,
                #[trigger] nl[a].0,
                #[trigger] nl[b].0,
            ) by {
                assert(nl[b] == old_levels[b]);
                if a > 0 {
                    assert(nl[a] == old_levels[a]);
                }
            }
            assert forall|i: int| 0 <= i < side@.len() implies !better(
                kind,
                #[trigger] side@[i].price,
                old(side)@[0].price,
            ) by {
                if i > 0 {
                    assert(old_levels[i].0 == side@[i].price);
                    assert(better(kind, old_levels[0].0, old_levels[i].0));
                }
            }
        }
    } else {
        proof {
            let nl = view_levels(side@);
            assert(lv0.1.len() == 1);
            assert(lv0.1 =~= seq![snapshot]);
            assert(queue(nl) =~= queue(old_levels).drop_first());
            assert forall|i: int| 0 <= i < nl.len() implies (#[trigger] nl[i]) == old_levels[i + 1] by {
            }
            assert forall|i: int| 0 <= i < side@.len() implies !better(
                kind,
                #[trigger] side@[i].price,
                old(side)@[0].price,
            ) by {
                assert(old_levels[i + 1].0 == side@[i].price);
                assert(better(kind, old_levels[0].0, old_levels[i + 1].0));
            }
        }
    }
    (snapshot, traded, full)
}

/// `k` is the first position of `q` holding an order with `id`.
pub open spec fn first_with_id<T: Order>(q: Seq<T>, id: OrderId, k: int) -> bool {
    &&& 0 <= k < q.len()
    &&& q[k].order_id() == id
    &&& forall|j: int| 0 <= j < k ==> (#[trigger] q[j]).order_id() != id
}

/// Some order of `q` has `id`.
pub open spec fn holds_id<T: Order>(q: Seq<T>, id: OrderId) -> bool {
    exists|k: int| 0 <= k < q.len() && (#[trigger] q[k]).order_id() == id
}

/// Where order `b` of level `a` stands in the queue.
pub open spec fn queue_pos<T>(levels: Seq<(Price, Seq<T>)>, a: int, b: int) -> int {
    queue(levels.take(a)).len() + b
}

pub proof fn lemma_queue_pos<T>(levels: Seq<(Price, Seq<T>)>, a: int, b: int)
    requires
        0 <= a < levels.len(),
        0 <= b < levels[a].1.len(),
    ensures
        0 <= queue_pos(levels, a, b) < queue(levels).len(),
        queue(levels)[queue_pos(levels, a, b)] == levels[a].1[b],
{
    lemma_queue_split(levels, a);
}

/// Every order of the queue sits in some level.
pub proof fn lemma_queue_member<T>(levels: Seq<(Price, Seq<T>)>, k: int)
    requires
        0 <= k < queue(levels).len(),
    ensures
        exists|a: int, b: int|
            0 <= a < levels.len() && 0 <= b < levels[a].1.len() && queue(levels)[k]
                == #[trigger] levels[a].1[b],
    decreases levels.len(),
{
    if levels.len() > 0 {
        let q = queue(levels);
        if k < levels[0].1.len() {
            assert(q[k] == levels[0].1[k]);
        } else {
            let d = levels.drop_first();
            lemma_queue_member(d, k - levels[0].1.len());
            let (a, b) = choose|a: int, b: int|
                0 <= a < d.len() && 0 <= b < d[a].1.len() && queue(d)[k - levels[0].1.len()]
                    == #[trigger] d[a].1[b];
            assert(levels[a + 1] == d[a]);
            assert(q[k] == levels[a + 1].1[b]);
        }
    }
}

/// Finds the first order with `id` on `side`, as level and position in it.
pub fn locate<T: Order>(side: &Vec<Level<T>>, id: OrderId) -> (r: Option<(usize, usize)>)
    ensures
        ({
            let levels = view_levels(side@);
            match r {
                None => !holds_id(queue(levels), id),
                Some((a, b)) => {
                    &&& a < levels.len()
                    &&& b < levels[a as int].1.len()
                    &&& first_with_id(queue(levels), id, queue_pos(levels, a as int, b as int))
                },
            }
        }),
{
    let ghost levels = view_levels(side@);
    let mut a: usize = 0;
    while a < side.len()
        invariant
            0 <= a <= side.len(),
            levels == view_levels(side@),
            forall|x: int, y: int|
                0 <= x < a && 0 <= y < levels[x].1.len() ==> (#[trigger] levels[x].1[y]).order_id()
                    != id,
        decreases side.len() - a,
    {
        let orders = &side[a].orders;
        let mut b: usize = 0;
        while b < orders.len()
            invariant
                0 <= b <= orders.len(),
                a < side.len(),
                orders@ == levels[a as int].1,
                levels == view_levels(side@),
                forall|y: int| 0 <= y < b ==> (#[trigger] orders@[y]).order_id() != id,
                forall|x: int, y: int|
                    0 <= x < a && 0 <= y < levels[x].1.len() ==> (#[trigger] levels[x].1[y]).order_id()
                        != id,
            decreases orders.len() - b,
        {
            if orders[b].id() == id {
                proof {
                    lemma_queue_pos(levels, a as int, b as int);
                    let q = queue(levels);
                    let k = queue_pos(levels, a as int, b as int);
                    lemma_queue_split(levels, a as int);
                    assert forall|j: int| 0 <= j < k implies (#[trigger] q[j]).order_id() != id by {
                        let pre = levels.take(a as int);
                        if j < queue(pre).len() {
                            assert(q[j] == queue(pre)[j]);
                            lemma_queue_member(pre, j);
                            let (x, y) = choose|x: int, y: int|
                                0 <= x < pre.len() && 0 <= y < pre[x].1.len() && queue(pre)[j]
                                    == #[trigger] pre[x].1[y];
                            assert(pre[x] == levels[x]);
                            assert(levels[x].1[y].order_id() != id);
                        } else {
                            assert(q[j] == orders@[j - queue(pre).len()]);
                            assert(orders@[j - queue(pre).len()].order_id() != id);
                        }
                    }
                }
                return Some((a, b));
            }
            b = b + 1;
        }
        a = a + 1;
    }
    proof {
        let q = queue(levels);
        assert forall|k: int| 0 <= k < q.len() implies (#[trigger] q[k]).order_id() != id by {
            lemma_queue_member(levels, k);
        }
    }
    None
}

/// Removes order `b` of level `a`, dropping the level if it empties.
pub fn remove_at<T: Order>(side: &mut Vec<Level<T>>, kind: OrderKind, a: usize, b: usize) -> (r: T)
    requires
        side_wf(view_levels(old(side)@), kind),
        a < old(side).len(),
        b < old(side)@[a as int].orders.len(),
    ensures
        r == view_levels(old(side)@)[a as int].1[b as int],
        queue(view_levels(final(side)@)) == queue(view_levels(old(side)@)).remove(
            queue_pos(view_levels(old(side)@), a as int, b as int),
        ),
        side_wf(view_levels(final(side)@), kind),
        forall|i: int|
            0 <= i < final(side)@.len() ==> !better(
                kind,
                #[trigger] final(side)@[i].price,
                old(side)@[0].price,
            ),
{
    let ghost old_levels = view_levels(side@);
    let ghost lv = old_levels[a as int];
    let mut level = side.remove(a);
    let r = level.orders.remove(b);
    proof {
        lemma_queue_split(old_levels, a as int);
        lemma_queue_pos(old_levels, a as int, b as int);
    }
    if level.orders.len() > 0 {
        side.insert(a, level);
        proof {
            let nl = view_levels(side@);
            assert(nl =~= old_levels.update(a as int, (lv.0, lv.1.remove(b as int))));
            lemma_queue_update(old_levels, a as int, (lv.0, lv.1.remove(b as int)));
            let pre = queue(old_levels.take(a as int));
            let post = queue(old_levels.skip(a + 1));
            assert(queue(nl) =~= queue(old_levels).remove(queue_pos(old_levels, a as int, b as int)));
            assert forall|i: int| 0 <= i < nl.len() implies (#[trigger] nl[i]).1.len() > 0 by {
                if i != a {
                    assert(nl[i] == old_levels[i]);
                }
            }
            assert forall|i: int, j: int|
                0 <= i < nl.len() && 0 <= j < nl[i].1.len() implies {
                let o = #[trigger] nl[i].1[j];
                &&& o.order_price() == nl[i].0
                &&& o.order_kind() == kind
                &&& o.order_quantity() > 0
            } by {
                if i != a {
                    assert(nl[i] == old_levels[i]);
                } else if j < b {
                    assert(nl[i].1[j] == lv.1[j]);
                } else {
                    assert(nl[i].1[j] == lv.1[j + 1]);
                }
            }
            assert forall|x: int, y: int| 0 <= x < y < nl.len() implies better(
                kind,
                #[trigger] nl[x].0,
                #[trigger] nl[y].0,
            ) by {
                assert(nl[x].0 == old_levels[x].0);
                assert(nl[y].0 == old_levels[y].0);
            }
            assert forall|i: int| 0 <= i < side@.len() implies !better(
                kind,
                #[trigger] side@[i].price,
                old(side)@[0].price,
            ) by {
                assert(side@[i].price == old_levels[i].0);
                if i > 0 {
                    assert(better(kind, old_levels[0].0, old_levels[i].0));
                }
            }
        }
    } else {
        proof {
            let nl = view_levels(side@);
            assert(nl =~= old_levels.remove(a as int));
            lemma_queue_remove(old_levels, a as int);
            assert(lv.1.len() == 1);
            assert(queue(nl) =~= queue(old_levels).remove(queue_pos(old_levels, a as int, b as int)));
            assert forall|i: int| 0 <= i < nl.len() implies (#[trigger] nl[i]) == old_levels[if i < a {
                i
            } else {
                i + 1
            }] by {}
            assert forall|x: int, y: int| 0 <= x < y < nl.len() implies better(
                kind,
                #[trigger] nl[x].0,
                #[trigger] nl[y].0,
            ) by {
                let x1 = if x < a { x } else { x + 1 };
                let y1 = if y < a { y } else { y + 1 };
                assert(nl[x] == old_levels[x1]);
                assert(nl[y] == old_levels[y1]);
            }
            assert forall|i: int| 0 <= i < side@.len() implies !better(
                kind,
                #[trigger] side@[i].price,
                old(side)@[0].price,
            ) by {
                let i1 = if i < a { i } else { i + 1 };
                assert(side@[i].price == old_levels[i1].0);
                if i1 > 0 {
                    assert(better(kind, old_levels[0].0, old_levels[i1].0));
                }
            }
        }
    }
    r
}

/// Where a posted order lands in the queue: after every order at its price
/// or ahead of it.
pub open spec fn posted_pos<T: Order>(levels: Seq<(Price, Seq<T>)>, kind: OrderKind, order: T) -> int {
    let i = slot(levels, kind, order.order_price());
    if i < levels.len() && levels[i].0 == order.order_price() {
        queue(levels.take(i + 1)).len() as int
    } else {
        queue(levels.take(i)).len() as int
    }
}

pub proof fn lemma_slot_bound<T>(levels: Seq<(Price, Seq<T>)>, kind: OrderKind, price: Price)
    ensures
        0 <= slot(levels, kind, price) <= levels.len(),
    decreases levels.len(),
{
    if levels.len() > 0 {
        lemma_slot_bound(levels.drop_first(), kind, price);
    }
}

/// Posting inserts the order into the queue at `posted_pos`.
pub proof fn lemma_posted_queue<T: Order>(levels: Seq<(Price, Seq<T>)>, kind: OrderKind, order: T)
    ensures
        0 <= posted_pos(levels, kind, order) <= queue(levels).len(),
        queue(posted(levels, kind, order)) == queue(levels).insert(
            posted_pos(levels, kind, order),
            order,
        ),
        total(queue(posted(levels, kind, order))) == total(queue(levels)) + order.order_quantity(),
{
    let p = order.order_price();
    let i = slot(levels, kind, p);
    lemma_slot_bound(levels, kind, p);
    let q = queue(levels);
    let n = posted_pos(levels, kind, order);
    if i < levels.len() && levels[i].0 == p {
        lemma_queue_update(levels, i, (p, levels[i].1.push(order)));
        lemma_queue_split(levels, i);
        assert(levels.take(i + 1) =~= levels.take(i) + seq![levels[i]]);
        lemma_queue_append(levels.take(i), seq![levels[i]]);
        assert(queue(seq![levels[i]]) =~= levels[i].1) by {
            let one = seq![levels[i]];
            let none = Seq::<(Price, Seq<T>)>::empty();
            assert(one.drop_first() =~= none);
            assert(queue(none) =~= Seq::<T>::empty());
        }
        assert(queue(posted(levels, kind, order)) =~= q.insert(n, order));
    } else {
        lemma_queue_insert(levels, i, (p, seq![order]));
        assert(levels =~= levels.take(i) + levels.skip(i));
        lemma_queue_append(levels.take(i), levels.skip(i));
        assert(queue(posted(levels, kind, order)) =~= q.insert(n, order));
    }
    let u = q.insert(n, order);
    assert(u.len() == q.len() + 1);
    lemma_total_remove(u, n);
    assert(u.remove(n) =~= q);
}

/// After posting, the best level is the old best one or the order's own.
pub proof fn lemma_posted_front<T: Order>(levels: Seq<(Price, Seq<T>)>, kind: OrderKind, order: T)
    ensures
        posted(levels, kind, order).len() > 0,
        posted(levels, kind, order)[0].0 == order.order_price() || (levels.len() > 0 && posted(
            levels,
            kind,
            order,
        )[0].0 == levels[0].0),
{
    lemma_slot_bound(levels, kind, order.order_price());
}

/// Levels before `slot` are strictly ahead of `price`; the one at `slot` is not.
pub proof fn lemma_slot_ahead<T>(levels: Seq<(Price, Seq<T>)>, kind: OrderKind, price: Price)
    ensures
        forall|a: int| 0 <= a < slot(levels, kind, price) ==> better(kind, #[trigger] levels[a].0, price),
        slot(levels, kind, price) < levels.len() ==> !better(
            kind,
            levels[slot(levels, kind, price)].0,
            price,
        ),
    decreases levels.len(),
{
    if levels.len() > 0 && better(kind, levels[0].0, price) {
        let d = levels.drop_first();
        lemma_slot_ahead(d, kind, price);
        lemma_slot_bound(d, kind, price);
        let s = slot(d, kind, price);
        if s < d.len() {
            assert(levels[s + 1] == d[s]);
        }
        assert forall|a: int| 0 <= a < slot(levels, kind, price) implies better(
            kind,
            #[trigger] levels[a].0,
            price,
        ) by {
            if a > 0 {
                assert(levels[a] == d[a - 1]);
            }
        }
    }
}

/// Posting keeps a side well formed.
pub proof fn lemma_posted_wf<T: Order>(levels: Seq<(Price, Seq<T>)>, kind: OrderKind, order: T)
    requires
        side_wf(levels, kind),
        order.order_kind() == kind,
        order.order_quantity() > 0,
    ensures
        side_wf(posted(levels, kind, order), kind),
{
    let p = order.order_price();
    let i = slot(levels, kind, p);
    lemma_slot_bound(levels, kind, p);
    lemma_slot_ahead(levels, kind, p);
    let nl = posted(levels, kind, order);
    if i < levels.len() && levels[i].0 == p {
        assert forall|a: int, b: int| 0 <= a < b < nl.len() implies better(
            kind,
            #[trigger] nl[a].0,
            #[trigger] nl[b].0,
        ) by {
            assert(nl[a].0 == levels[a].0 && nl[b].0 == levels[b].0);
        }
        assert forall|a: int| 0 <= a < nl.len() implies (#[trigger] nl[a]).1.len() > 0 by {
            if a != i {
                assert(nl[a] == levels[a]);
            }
        }
        assert forall|a: int, j: int|
            0 <= a < nl.len() && 0 <= j < nl[a].1.len() implies {
            let o = #[trigger] nl[a].1[j];
            &&& o.order_price() == nl[a].0
            &&& o.order_kind() == kind
            &&& o.order_quantity() > 0
        } by {
            if a != i {
                assert(nl[a] == levels[a]);
            } else if j < levels[i].1.len() {
                assert(nl[a].1[j] == levels[i].1[j]);
            }
        }
    } else {
        if i < levels.len() {
            assert(levels[i].0.key() != p.key());
        }
        assert forall|a: int, b: int| 0 <= a < b < nl.len() implies better(
            kind,
            #[trigger] nl[a].0,
            #[trigger] nl[b].0,
        ) by {
            let a1 = if a < i { a } else { a - 1 };
            let b1 = if b < i { b } else { b - 1 };
            if b == i {
                assert(nl[a] == levels[a]);
            } else if a == i {
                assert(nl[b] == levels[b1]);
                if b1 > i {
                    assert(better(kind, levels[i].0, levels[b1].0));
                }
            } else {
                assert(nl[a] == levels[a1]);
                assert(nl[b] == levels[b1]);
            }
        }
        assert forall|a: int| 0 <= a < nl.len() implies (#[trigger] nl[a]).1.len() > 0 by {
            if a < i {
                assert(nl[a] == levels[a]);
            } else if a > i {
                assert(nl[a] == levels[a - 1]);
            }
        }
        assert forall|a: int, j: int|
            0 <= a < nl.len() && 0 <= j < nl[a].1.len() implies {
            let o = #[trigger] nl[a].1[j];
            &&& o.order_price() == nl[a].0
            &&& o.order_kind() == kind
            &&& o.order_quantity() > 0
        } by {
            if a < i {
                assert(nl[a] == levels[a]);
            } else if a > i {
                assert(nl[a] == levels[a - 1]);
            }
        }
    }
}

/// Some order of `q` is at `price`.
pub open spec fn has_price<T: Order>(q: Seq<T>, price: Price) -> bool {
    exists|j: int| 0 <= j < q.len() && (#[trigger] q[j]).order_price() == price
}

/// Every price in `after` is a price of `before`.
pub open spec fn prices_from<T: Order>(after: Seq<T>, before: Seq<T>) -> bool {
    forall|i: int| 0 <= i < after.len() ==> has_price(before, (#[trigger] after[i]).order_price())
}

/// A side whose orders all come from an older side has no better best price.
pub proof fn lemma_front_not_better<T: Order>(
    before: Seq<(Price, Seq<T>)>,
    after: Seq<(Price, Seq<T>)>,
    kind: OrderKind,
)
    requires
        side_wf(before, kind),
        side_wf(after, kind),
        after.len() > 0,
        prices_from(queue(after), queue(before)),
    ensures
        before.len() > 0,
        !better(kind, after[0].0, before[0].0),
{
    lemma_queue_pos(after, 0, 0);
    let qa = queue(after);
    let qb = queue(before);
    assert(qa[0].order_price() == after[0].0);
    assert(has_price(qb, qa[0].order_price()));
    let j = choose|j: int| 0 <= j < qb.len() && (#[trigger] qb[j]).order_price() == qa[0].order_price();
    lemma_queue_member(before, j);
    let (a, b) = choose|a: int, b: int|
        0 <= a < before.len() && 0 <= b < before[a].1.len() && qb[j] == #[trigger] before[a].1[b];
    if a > 0 {
        assert(better(kind, before[0].0, before[a].0));
    }
}

/// Trades leave only prices that were already on the side.
pub proof fn lemma_rest_prices<T: Order>(q: Seq<T>, kind: OrderKind, limit: Price, units: nat)
    ensures
        prices_from(rest(q, kind, limit, units), q),
    decreases q.len(),
{
    let r = rest(q, kind, limit, units);
    if units == 0 || q.len() == 0 || !within_limit(kind, limit, q[0].order_price()) {
        assert forall|i: int| 0 <= i < r.len() implies has_price(q, (#[trigger] r[i]).order_price()) by {
            assert(r[i] == q[i]);
        }
    } else if q[0].order_quantity() > units {
        q[0].lemma_with_quantity((q[0].order_quantity() - units) as Quantity);
        assert forall|i: int| 0 <= i < r.len() implies has_price(q, (#[trigger] r[i]).order_price()) by {
            assert(r[i].order_price() == q[i].order_price());
        }
    } else {
        let d = q.drop_first();
        lemma_rest_prices(d, kind, limit, (units - q[0].order_quantity()) as nat);
        assert forall|i: int| 0 <= i < r.len() implies has_price(q, (#[trigger] r[i]).order_price()) by {
            assert(has_price(d, r[i].order_price()));
            let j = choose|j: int| 0 <= j < d.len() && (#[trigger] d[j]).order_price() == r[i].order_price();
            assert(d[j] == q[j + 1]);
        }
    }
}

/// Removing an order leaves only prices that were already on the side.
pub proof fn lemma_remove_prices<T: Order>(q: Seq<T>, k: int)
    requires
        0 <= k < q.len(),
    ensures
        prices_from(q.remove(k), q),
{
    let r = q.remove(k);
    assert(r.len() == q.len() - 1);
    assert forall|i: int| 0 <= i < r.len() implies has_price(q, (#[trigger] r[i]).order_price()) by {
        let j = if i < k { i } else { i + 1 };
        assert(r[i] == q[j]);
        assert(0 <= j < q.len() && r[i].order_price() == q[j].order_price());
    }
    assert(prices_from(r, q));
}

} // verus!
