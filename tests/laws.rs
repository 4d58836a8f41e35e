use ironlobe::book::btree_book::{BTreeBook, Metadata};
use ironlobe::book::Book;
use ironlobe::common::{Price, Quantity};
use ironlobe::event::{Event, EventKind, Match, MatchInfo};
use ironlobe::order::{Order, OrderKind, PlainOrder};
use ironlobe::time::Timestamp;

fn at(secs: i64) -> Timestamp {
    Timestamp { secs, nanos: 0 }
}

fn price(p: f64) -> Price {
    Price::from_bits(p.to_bits()).unwrap()
}

fn order(id: u128, kind: OrderKind, p: f64, quantity: Quantity) -> PlainOrder {
    PlainOrder {
        id,
        kind,
        price: price(p),
        quantity,
        created: at(1),
        modified: at(1),
        cancelled: None,
    }
}

fn book() -> BTreeBook<PlainOrder> {
    BTreeBook::new(7, "Lobe".to_string(), "LOB".to_string())
}

fn kinds(book: &BTreeBook<PlainOrder>) -> Vec<EventKind<PlainOrder>> {
    book.events().iter().map(|e| e.kind.clone()).collect()
}

fn full(incumbent: PlainOrder, incoming: PlainOrder, traded: Quantity) -> EventKind<PlainOrder> {
    EventKind::Match(Match::Full(MatchInfo { incumbent, others: vec![(incoming, traded)] }))
}

#[test]
fn metadata_is_kept() {
    let b = book();
    assert_eq!(b.id(), 7);
    assert_eq!(b.name(), "Lobe");
    assert_eq!(b.ticker(), "LOB");
    assert_eq!(
        *b.metadata(),
        Metadata { id: 7, name: "Lobe".to_string(), ticker: "LOB".to_string() }
    );
    assert_eq!(b.top(), (None, None));
    assert_eq!(b.depth(), (0, 0));
    assert!(b.events().is_empty());
}

#[test]
fn better_price_is_filled_first() {
    let mut b = book();
    let a1 = order(1, OrderKind::Ask, 11.0, 5);
    let a2 = order(2, OrderKind::Ask, 10.0, 5);
    let bid = order(3, OrderKind::Bid, 11.0, 5);
    b.add(a1);
    b.add(a2);
    b.add(bid);
    assert_eq!(kinds(&b)[2], full(a2, bid, 5));
    assert_eq!(b.levels().asks, vec![(price(11.0), 5)]);
    assert_eq!(b.ltp(), Some(price(10.0)));
}

#[test]
fn earlier_order_at_a_price_is_filled_first() {
    let mut b = book();
    let b1 = order(1, OrderKind::Bid, 12.0, 5);
    let b2 = order(2, OrderKind::Bid, 12.0, 5);
    let ask = order(3, OrderKind::Ask, 12.0, 7);
    b.add(b1);
    b.add(b2);
    b.add(ask);
    let partial = EventKind::Match(Match::Partial(MatchInfo { incumbent: b2, others: vec![(ask, 2)] }));
    assert_eq!(kinds(&b)[2..].to_vec(), vec![full(b1, ask, 5), partial]);
    assert_eq!(b.order(1), None);
    assert_eq!(b.order(2).map(|o| o.quantity), Some(3));
    assert_eq!(b.depth(), (3, 0));
}

#[test]
fn fill_stops_at_the_limit() {
    let mut b = book();
    b.add(order(1, OrderKind::Ask, 10.0, 5));
    b.add(order(2, OrderKind::Ask, 12.0, 5));
    b.add(order(3, OrderKind::Bid, 11.0, 8));
    assert_eq!(b.levels().asks, vec![(price(12.0), 5)]);
    assert!(b.levels().bids.is_empty());
    assert_eq!(b.depth(), (0, 5));
    assert_eq!(b.events().len(), 3);
}

#[test]
fn depth_matches_levels() {
    let mut b = book();
    b.add(order(1, OrderKind::Bid, 10.0, 120));
    b.add(order(2, OrderKind::Bid, 10.0, 300));
    b.add(order(3, OrderKind::Bid, 15.0, 300));
    b.add(order(4, OrderKind::Ask, 16.0, 100));
    b.add(order(5, OrderKind::Ask, 14.0, 50));
    let levels = b.levels();
    let bids: Quantity = levels.bids.iter().map(|l| l.1).sum();
    let asks: Quantity = levels.asks.iter().map(|l| l.1).sum();
    assert_eq!(b.depth(), (bids, asks));
    assert_eq!(b.depth(), (670, 100));
    assert_eq!(levels.bids, vec![(price(10.0), 420), (price(15.0), 250)]);
}

#[test]
fn display_levels_are_highest_first() {
    let mut b = book();
    b.add(order(1, OrderKind::Bid, 10.0, 1));
    b.add(order(2, OrderKind::Bid, 11.0, 2));
    b.add(order(3, OrderKind::Ask, 13.0, 3));
    b.add(order(4, OrderKind::Ask, 12.0, 4));
    let shown = b.display_levels();
    assert_eq!(shown.bids, vec![(price(11.0), 2), (price(10.0), 1)]);
    assert_eq!(shown.asks, vec![(price(13.0), 3), (price(12.0), 4)]);
    let listed = b.levels();
    assert_eq!(listed.bids, vec![(price(10.0), 1), (price(11.0), 2)]);
    assert_eq!(listed.asks, vec![(price(12.0), 4), (price(13.0), 3)]);
}

#[test]
fn no_empty_level_or_order_is_left() {
    let mut b = book();
    b.add(order(1, OrderKind::Bid, 10.0, 5));
    b.add(order(2, OrderKind::Bid, 9.0, 5));
    b.add(order(3, OrderKind::Ask, 10.0, 5));
    assert_eq!(b.levels().bids, vec![(price(9.0), 5)]);
    assert_eq!(b.order(1), None);
    assert!(b.levels().bids.iter().all(|l| l.1 > 0));
}

#[test]
fn top_and_crossed() {
    let mut b = book();
    b.add(order(1, OrderKind::Bid, 10.0, 1));
    assert_eq!(b.top(), (Some(price(10.0)), None));
    assert!(!b.crossed());
    b.add(order(2, OrderKind::Bid, 15.0, 1));
    b.add(order(3, OrderKind::Ask, 20.5, 1));
    b.add(order(4, OrderKind::Ask, 16.0, 1));
    assert_eq!(b.top(), (Some(price(15.0)), Some(price(16.0))));
    // Best ask strictly above best bid, as after every add.
    assert!(!b.crossed());
}

#[test]
fn journal_times_never_decrease() {
    let mut b = book();
    b.add_at(order(1, OrderKind::Bid, 10.0, 5), at(100));
    b.add_at(order(2, OrderKind::Bid, 11.0, 5), at(50));
    b.add_at(order(3, OrderKind::Ask, 11.0, 2), at(200));
    b.cancel_at(1, at(10));
    let times: Vec<Timestamp> = b.events().iter().map(|e| e.timestamp).collect();
    assert_eq!(times, vec![at(100), at(100), at(200), at(200)]);
    let mut live = book();
    live.add(order(1, OrderKind::Bid, 10.0, 5));
    live.add(order(2, OrderKind::Ask, 10.0, 2));
    live.cancel(1);
    let ev = live.events();
    assert!(ev.windows(2).all(|w| w[0].timestamp.le(&w[1].timestamp)));
}

#[test]
fn ltp_stays_set() {
    let mut b = book();
    assert_eq!(b.ltp(), None);
    b.add(order(1, OrderKind::Bid, 10.0, 5));
    b.add(order(2, OrderKind::Ask, 10.0, 2));
    assert_eq!(b.ltp(), Some(price(10.0)));
    b.add(order(3, OrderKind::Ask, 12.0, 2));
    b.cancel(1);
    b.cancel(3);
    assert_eq!(b.ltp(), Some(price(10.0)));
}

#[test]
fn add_to_empty_book_posts() {
    let mut b = book();
    let ask = order(1, OrderKind::Ask, 3.5, 1000);
    b.add(ask);
    assert_eq!(kinds(&b), vec![EventKind::Post(ask)]);
    assert_eq!(b.depth(), (0, 1000));
    assert_eq!(b.ltp(), None);
}

#[test]
fn cancel_unknown_id_is_no_op() {
    let mut b = book();
    b.add(order(1, OrderKind::Bid, 10.0, 5));
    assert_eq!(b.cancel(99), None);
    assert_eq!(b.events().len(), 1);
    assert_eq!(b.depth(), (5, 0));
    assert_eq!(b.order(99), None);
}

#[test]
fn cancel_finds_asks_too() {
    let mut b = book();
    let ask = order(4, OrderKind::Ask, 16.0, 100);
    b.add(order(1, OrderKind::Bid, 10.0, 5));
    b.add(ask);
    assert_eq!(b.order(4), Some(ask));
    assert_eq!(b.cancel(4), Some(ask));
    assert_eq!(kinds(&b)[2], EventKind::Cancel(ask));
    assert_eq!(b.depth(), (5, 0));
    assert_eq!(b.top(), (Some(price(10.0)), None));
}

#[test]
fn cancel_partially_filled_order_removes_remainder() {
    let mut b = book();
    b.add(order(4, OrderKind::Bid, 12.0, 100));
    b.add(order(5, OrderKind::Ask, 12.0, 12));
    let cancelled = b.cancel(4).unwrap();
    assert_eq!(cancelled.quantity(), 88);
    assert_eq!(b.depth(), (0, 0));
    assert!(b.levels().bids.is_empty());
    assert_eq!(kinds(&b).last(), Some(&EventKind::Cancel(cancelled)));
}

#[test]
fn zero_quantity_order_is_ignored() {
    let mut b = book();
    b.add(order(1, OrderKind::Bid, 10.0, 0));
    assert!(b.events().is_empty());
    assert_eq!(b.top(), (None, None));
    b.add(order(2, OrderKind::Bid, 10.0, 5));
    b.add(order(3, OrderKind::Ask, 9.0, 0));
    assert_eq!(b.events().len(), 1);
    assert_eq!(b.ltp(), None);
    assert_eq!(b.depth(), (5, 0));
}

#[test]
fn equal_quantity_fills_fully_once() {
    let mut b = book();
    let bid = order(2, OrderKind::Bid, 12.0, 10);
    let ask = order(3, OrderKind::Ask, 11.0, 10);
    b.add(bid);
    b.add(order(4, OrderKind::Bid, 12.0, 7));
    b.add(ask);
    assert_eq!(kinds(&b)[2..].to_vec(), vec![full(bid, ask, 10)]);
    assert_eq!(b.order(2), None);
    assert_eq!(b.levels().bids, vec![(price(12.0), 7)]);
    assert_eq!(b.ltp(), Some(price(12.0)));
}

#[test]
fn remainder_of_crossing_order_is_dropped() {
    let mut b = book();
    b.add(order(1, OrderKind::Ask, 10.0, 5));
    b.add(order(2, OrderKind::Bid, 10.0, 8));
    assert_eq!(b.top(), (None, None));
    assert_eq!(b.depth(), (0, 0));
    assert_eq!(b.order(2), None);
}

#[test]
fn event_new_keeps_kind() {
    let o = order(1, OrderKind::Bid, 1.0, 1);
    let e: Event<PlainOrder> = Event::new(EventKind::Post(o));
    assert_eq!(e.kind, EventKind::Post(o));
}

#[test]
fn plain_order_accessors() {
    let mut o = order(1, OrderKind::Ask, 2.5, 4);
    o.cancelled = Some(at(9));
    assert_eq!(o.id(), 1);
    assert_eq!(o.kind(), OrderKind::Ask);
    assert_eq!(o.price(), price(2.5));
    assert_eq!(o.created_at(), at(1));
    assert_eq!(o.modified_at(), at(1));
    assert_eq!(o.cancelled_at(), Some(at(9)));
    assert!(o.cancelled());
    *o.quantity_mut() = 3;
    assert_eq!(o.quantity(), 3);
}

#[test]
fn partial_then_repost_keeps_arrival_order() {
    let mut b = book();
    let bid4 = order(4, OrderKind::Bid, 12.0, 100);
    let ask5 = order(5, OrderKind::Ask, 12.0, 12);
    let bid6 = order(6, OrderKind::Bid, 12.0, 100);
    b.add(bid4);
    b.add(ask5);
    b.add(bid6);
    assert_eq!(b.levels().bids, vec![(price(12.0), 188)]);
    assert_eq!(b.depth(), (188, 0));
    assert_eq!(b.order(4).map(|o| o.quantity), Some(88));
    assert_eq!(b.order(6), Some(bid6));
    assert_eq!(kinds(&b).last(), Some(&EventKind::Post(bid6)));
    // The partly filled order keeps its place ahead of the later one.
    let ask7 = order(7, OrderKind::Ask, 12.0, 90);
    b.add(ask7);
    let partial = EventKind::Match(Match::Partial(MatchInfo {
        incumbent: bid6,
        others: vec![(ask7, 2)],
    }));
    assert_eq!(kinds(&b)[3..].to_vec(), vec![full(with_qty(bid4, 88), ask7, 88), partial]);
    assert_eq!(b.depth(), (98, 0));
}

fn with_qty(o: PlainOrder, quantity: Quantity) -> PlainOrder {
    let mut r = o;
    *r.quantity_mut() = quantity;
    r
}

#[test]
fn resting_orders_come_in_fill_order() {
    let mut b = book();
    let b1 = order(1, OrderKind::Bid, 10.0, 1);
    let b2 = order(2, OrderKind::Bid, 11.0, 2);
    let b3 = order(3, OrderKind::Bid, 10.0, 3);
    let a1 = order(4, OrderKind::Ask, 13.0, 4);
    let a2 = order(5, OrderKind::Ask, 12.0, 5);
    for o in [b1, b2, b3, a1, a2] {
        b.add(o);
    }
    assert_eq!(b.resting_orders(OrderKind::Bid), vec![b2, b1, b3]);
    assert_eq!(b.resting_orders(OrderKind::Ask), vec![a2, a1]);
    assert!(!b.crossed());
}

#[test]
fn crossing_order_is_admitted_at_full_depth() {
    let mut b = book();
    b.add(order(1, OrderKind::Ask, 20.0, Quantity::MAX));
    let bid = order(2, OrderKind::Bid, 10.0, 5);
    b.add(bid);
    let ask = order(3, OrderKind::Ask, 5.0, 10);
    assert!(b.crosses(ask.price, ask.kind));
    b.add(ask);
    assert_eq!(b.depth(), (0, Quantity::MAX));
    assert_eq!(kinds(&b).last(), Some(&full(bid, ask, 5)));
}

#[test]
fn book_clones_equal() {
    let mut b = book();
    b.add(order(1, OrderKind::Bid, 10.0, 5));
    let c = b.clone();
    assert_eq!(c, b);
    b.add(order(2, OrderKind::Ask, 10.0, 2));
    assert_ne!(c, b);
}
