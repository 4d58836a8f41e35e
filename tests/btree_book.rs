use ironlobe::book::btree_book::{BTreeBook, Metadata};
use ironlobe::book::{Book, BookId};
use ironlobe::common::{Price, Quantity};
use ironlobe::event::{EventKind, Match, MatchInfo};
use ironlobe::order::{Order, OrderKind, PlainOrder};
use ironlobe::time::Timestamp;

fn mock_metadata() -> Metadata {
    let id: BookId = 1;
    let name: String = "Book".to_string();
    let ticker: String = "BOOK".to_string();

    Metadata { id, name, ticker }
}

fn now() -> Timestamp {
    let t = chrono::Utc::now();
    Timestamp { secs: t.timestamp(), nanos: t.timestamp_subsec_nanos() }
}

fn price(p: f64) -> Price {
    Price::from_bits(p.to_bits()).unwrap()
}

fn order(id: u128, kind: OrderKind, p: f64, quantity: Quantity) -> PlainOrder {
    let timestamp = now();
    PlainOrder {
        id,
        kind,
        price: price(p),
        quantity,
        created: timestamp,
        modified: timestamp,
        cancelled: None,
    }
}

fn event_kinds(book: &BTreeBook<PlainOrder>) -> Vec<EventKind<PlainOrder>> {
    book.events().iter().map(|ev| ev.kind.clone()).collect()
}

fn with_quantity(o: &PlainOrder, quantity: Quantity) -> PlainOrder {
    let mut r = *o;
    *r.quantity_mut() = quantity;
    r
}

#[test]
fn btree_book_test_submit_single_bid() {
    let order = order(1, OrderKind::Bid, 12.00, 10);
    let mut actual_book: BTreeBook<PlainOrder> = BTreeBook::meta(mock_metadata());
    actual_book.add(order);

    assert_eq!(*actual_book.metadata(), mock_metadata());
    assert_eq!(actual_book.levels().bids, vec![(price(12.00), 10)]);
    assert_eq!(actual_book.resting_orders(OrderKind::Bid), vec![order]);
    assert_eq!(actual_book.order(1), Some(order));
    assert!(actual_book.levels().asks.is_empty());
    assert!(actual_book.resting_orders(OrderKind::Ask).is_empty());
    assert_eq!(actual_book.ltp(), None);
    assert_eq!(actual_book.depth(), (10, Quantity::default()));
    assert_eq!(event_kinds(&actual_book), vec![EventKind::Post(order)]);
}

#[test]
fn btree_book_test_submit_single_ask() {
    let order = order(1, OrderKind::Ask, 12.00, 10);
    let mut actual_book: BTreeBook<PlainOrder> = BTreeBook::meta(mock_metadata());
    actual_book.add(order);

    assert_eq!(*actual_book.metadata(), mock_metadata());
    assert!(actual_book.levels().bids.is_empty());
    assert_eq!(actual_book.levels().asks, vec![(price(12.00), 10)]);
    assert_eq!(actual_book.resting_orders(OrderKind::Ask), vec![order]);
    assert!(actual_book.resting_orders(OrderKind::Bid).is_empty());
    assert_eq!(actual_book.order(1), Some(order));
    assert_eq!(actual_book.ltp(), None);
    assert_eq!(actual_book.depth(), (Quantity::default(), 10));
    assert_eq!(event_kinds(&actual_book), vec![EventKind::Post(order)]);
}

#[test]
fn test_submit_matching_bid_ask() {
    let p = 12.00;
    let quantity = 10;
    let bid = order(1, OrderKind::Bid, p, quantity);
    let ask = order(2, OrderKind::Ask, p, quantity);

    let mut actual_book: BTreeBook<PlainOrder> = BTreeBook::meta(mock_metadata());
    actual_book.add(bid);
    assert!(actual_book.crosses(price(p), ask.kind()));
    actual_book.add(ask);

    assert_eq!(*actual_book.metadata(), mock_metadata());
    assert!(actual_book.levels().bids.is_empty());
    assert!(actual_book.levels().asks.is_empty());
    assert!(actual_book.resting_orders(OrderKind::Bid).is_empty());
    assert!(actual_book.resting_orders(OrderKind::Ask).is_empty());
    assert_eq!(actual_book.ltp(), Some(price(p)));
    assert_eq!(actual_book.depth(), (Quantity::default(), Quantity::default()));
    assert_eq!(
        event_kinds(&actual_book),
        vec![
            EventKind::Post(bid),
            EventKind::Match(Match::Full(MatchInfo { incumbent: bid, others: vec![(ask, quantity)] })),
        ]
    );
    assert_eq!(actual_book.order(1), None);
}

#[test]
fn test_submit_partially_matching_bid_ask() {
    let p = 12.00;
    let bid_quantity = 100;
    let ask_quantity = 12;
    let bid = order(1, OrderKind::Bid, p, bid_quantity);
    let ask = order(2, OrderKind::Ask, p, ask_quantity);

    let mut actual_book: BTreeBook<PlainOrder> = BTreeBook::meta(mock_metadata());
    actual_book.add(bid);
    assert!(actual_book.crosses(price(p), ask.kind()));
    actual_book.add(ask);

    assert_eq!(*actual_book.metadata(), mock_metadata());
    assert_eq!(actual_book.levels().bids, vec![(price(p), bid_quantity - ask_quantity)]);
    assert_eq!(
        actual_book.resting_orders(OrderKind::Bid),
        vec![with_quantity(&bid, bid_quantity - ask_quantity)]
    );
    assert_eq!(actual_book.order(1), Some(with_quantity(&bid, bid_quantity - ask_quantity)));
    assert!(actual_book.levels().asks.is_empty());
    assert_eq!(actual_book.ltp(), Some(price(p)));
    assert_eq!(actual_book.depth(), (bid_quantity - ask_quantity, Quantity::default()));
    assert_eq!(
        event_kinds(&actual_book),
        vec![
            EventKind::Post(bid),
            EventKind::Match(Match::Partial(MatchInfo {
                incumbent: bid,
                others: vec![(ask, ask_quantity)],
            })),
        ]
    );
}

#[test]
fn test_submit_partially_matching_bid_ask_bid() {
    let p = 12.00;
    let bid_quantity = 100;
    let ask_quantity = 12;
    let bid1 = order(1, OrderKind::Bid, p, bid_quantity);
    let ask = order(2, OrderKind::Ask, p, ask_quantity);
    let bid2 = order(1, OrderKind::Bid, p, bid_quantity);

    let mut actual_book: BTreeBook<PlainOrder> = BTreeBook::meta(mock_metadata());
    actual_book.add(bid1);
    assert!(actual_book.crosses(price(p), ask.kind()));
    actual_book.add(ask);
    actual_book.add(bid2);

    assert_eq!(*actual_book.metadata(), mock_metadata());
    assert_eq!(
        actual_book.levels().bids,
        vec![(price(p), bid_quantity - ask_quantity + bid_quantity)]
    );
    // The level keeps arrival order: the partly filled order is still first.
    assert_eq!(
        actual_book.resting_orders(OrderKind::Bid),
        vec![with_quantity(&bid1, bid_quantity - ask_quantity), bid2]
    );
    assert_eq!(actual_book.order(1), Some(with_quantity(&bid1, bid_quantity - ask_quantity)));
    assert!(actual_book.levels().asks.is_empty());
    assert_eq!(actual_book.ltp(), Some(price(p)));
    assert_eq!(
        actual_book.depth(),
        (bid_quantity - ask_quantity + bid_quantity, Quantity::default())
    );
    assert_eq!(
        event_kinds(&actual_book),
        vec![
            EventKind::Post(bid1),
            EventKind::Match(Match::Partial(MatchInfo {
                incumbent: bid1,
                others: vec![(ask, ask_quantity)],
            })),
            EventKind::Post(bid2),
        ]
    );
}

/// A crossing order trades down the bids best price first; what it cannot
/// fill is dropped, not posted.
#[test]
fn test_submit_deep_cross() {
    let orders: Vec<PlainOrder> = vec![
        order(1, OrderKind::Bid, 10.00, 120),
        order(2, OrderKind::Bid, 10.00, 300),
        order(3, OrderKind::Bid, 15.00, 300),
        order(4, OrderKind::Ask, 16.00, 100),
        order(5, OrderKind::Ask, 20.50, 230),
        order(6, OrderKind::Ask, 3.50, 1000),
    ];

    let mut actual_book: BTreeBook<PlainOrder> = BTreeBook::meta(mock_metadata());
    orders.iter().for_each(|x| actual_book.add(*x));

    let full = |incumbent: PlainOrder, traded: Quantity| {
        EventKind::Match(Match::Full(MatchInfo { incumbent, others: vec![(orders[5], traded)] }))
    };
    assert_eq!(*actual_book.metadata(), mock_metadata());
    assert!(actual_book.levels().bids.is_empty());
    assert_eq!(
        actual_book.levels().asks,
        vec![(price(16.00), 100), (price(20.50), 230)]
    );
    assert_eq!(actual_book.resting_orders(OrderKind::Ask), vec![orders[3], orders[4]]);
    assert!(actual_book.resting_orders(OrderKind::Bid).is_empty());
    assert_eq!(actual_book.ltp(), Some(price(10.00)));
    assert_eq!(actual_book.depth(), (0, 330));
    assert_eq!(
        event_kinds(&actual_book),
        vec![
            EventKind::Post(orders[0]),
            EventKind::Post(orders[1]),
            EventKind::Post(orders[2]),
            EventKind::Post(orders[3]),
            EventKind::Post(orders[4]),
            full(orders[2], 300),
            full(orders[0], 120),
            full(orders[1], 300),
        ]
    );
}
