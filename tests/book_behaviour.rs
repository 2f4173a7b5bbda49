use solux::error::SoluxError;
use solux::orderbook::OrderBook;
use solux::persistence::Persistence;
use solux::types::{Order, OrderSide};

fn order(side: OrderSide, amount: u64, rate: u64, timestamp: i64) -> Order {
    let mut o = Order::new(side, amount, rate);
    o.timestamp = timestamp;
    o
}

#[test]
fn sides_kept_in_price_then_time_priority() {
    let mut book = OrderBook::new();
    book.add_order(order(OrderSide::Borrow, 10, 500, 3));
    book.add_order(order(OrderSide::Borrow, 10, 700, 4));
    book.add_order(order(OrderSide::Borrow, 10, 500, 1));
    book.add_order(order(OrderSide::Borrow, 10, 500, 2));
    book.add_order(order(OrderSide::Lend, 10, 900, 5));
    book.add_order(order(OrderSide::Lend, 10, 800, 7));
    book.add_order(order(OrderSide::Lend, 10, 800, 6));
    let bids: Vec<(u64, i64)> = book.bids().iter().map(|o| (o.interest_rate, o.timestamp)).collect();
    assert_eq!(bids, vec![(700, 4), (500, 1), (500, 2), (500, 3)]);
    let asks: Vec<(u64, i64)> = book.asks().iter().map(|o| (o.interest_rate, o.timestamp)).collect();
    assert_eq!(asks, vec![(800, 6), (800, 7), (900, 5)]);
}

#[test]
fn equal_priority_keeps_arrival_order() {
    let mut book = OrderBook::new();
    let a = order(OrderSide::Lend, 10, 300, 9);
    let b = order(OrderSide::Lend, 20, 300, 9);
    book.add_order(a);
    book.add_order(b);
    assert_eq!(book.asks()[0].id, a.id);
    assert_eq!(book.asks()[1].id, b.id);
}

#[test]
fn match_orders_conserves_amounts() {
    let mut book = OrderBook::new();
    book.add_order(order(OrderSide::Borrow, 700, 600, 1));
    book.add_order(order(OrderSide::Lend, 300, 550, 2));
    book.add_order(order(OrderSide::Lend, 1_000, 580, 3));
    let trades = book.match_orders();
    assert_eq!(trades.len(), 2);
    assert_eq!(trades[0].amount, 300);
    assert_eq!(trades[0].interest_rate, 550);
    assert_eq!(trades[1].amount, 400);
    assert_eq!(trades[1].interest_rate, 580);
    assert!(book.bids().is_empty());
    assert_eq!(book.asks().len(), 1);
    assert_eq!(book.asks()[0].remaining_amount, 600);
    assert!(book.match_orders().is_empty());
}

#[test]
fn match_orders_on_empty_book_does_nothing() {
    let mut book = OrderBook::new();
    assert!(book.match_orders().is_empty());
    book.add_order(order(OrderSide::Borrow, 5, 100, 1));
    assert!(book.match_orders().is_empty());
    assert_eq!(book.bids().len(), 1);
}

#[test]
fn snapshot_sides_round_trip() {
    let mut book = OrderBook::new();
    book.add_order(order(OrderSide::Borrow, 10, 500, 1));
    book.add_order(order(OrderSide::Borrow, 20, 600, 2));
    book.add_order(order(OrderSide::Lend, 30, 900, 3));
    let (bids, asks) = book.to_sides();
    let back = OrderBook::from_sides(bids, asks).ok().unwrap();
    assert_eq!(back.bids().len(), 2);
    assert_eq!(back.asks().len(), 1);
    for (x, y) in back.bids().iter().zip(book.bids().iter()) {
        assert_eq!(x.id, y.id);
        assert_eq!(x.remaining_amount, y.remaining_amount);
        assert_eq!(x.interest_rate, y.interest_rate);
        assert_eq!(x.timestamp, y.timestamp);
    }
    assert_eq!(back.asks()[0].id, book.asks()[0].id);
}

#[test]
fn snapshot_with_unsorted_side_is_refused() {
    let bids = vec![order(OrderSide::Borrow, 10, 500, 1), order(OrderSide::Borrow, 10, 600, 2)];
    let r = OrderBook::from_sides(bids, Vec::new());
    assert!(matches!(r, Err(SoluxError::InvalidSnapshot)));
}

#[test]
fn snapshot_with_wrong_side_or_empty_order_is_refused() {
    let asks = vec![order(OrderSide::Borrow, 10, 500, 1)];
    assert!(matches!(OrderBook::from_sides(Vec::new(), asks), Err(SoluxError::InvalidSnapshot)));
    let mut filled = order(OrderSide::Lend, 10, 500, 1);
    filled.remaining_amount = 0;
    assert!(matches!(
        OrderBook::from_sides(Vec::new(), vec![filled]),
        Err(SoluxError::InvalidSnapshot)
    ));
    let empty = OrderBook::from_sides(Vec::new(), Vec::new()).ok().unwrap();
    assert!(empty.bids().is_empty() && empty.asks().is_empty());
}

#[test]
fn new_orders_get_distinct_ids_and_a_current_time() {
    let a = Order::new(OrderSide::Lend, 1, 1);
    let b = Order::new(OrderSide::Lend, 1, 1);
    assert_ne!(a.id, b.id);
    assert!(!a.id.is_nil());
    assert!(a.timestamp > 1_500_000_000_000_000);
    assert_eq!(a.remaining_amount, 1);
}

#[test]
fn trades_get_fresh_ids_and_a_current_time() {
    let mut book = OrderBook::new();
    let lend = order(OrderSide::Lend, 10, 100, 1);
    let borrow = order(OrderSide::Borrow, 10, 100, 2);
    book.add_order(lend);
    book.add_order(borrow);
    let trades = book.match_orders();
    assert_eq!(trades.len(), 1);
    assert_ne!(trades[0].id, lend.id);
    assert_ne!(trades[0].id, borrow.id);
    assert!(trades[0].timestamp > 1_500_000_000);
}

#[test]
fn persistence_keeps_its_path() {
    let p = Persistence::new("book.json");
    assert_eq!(p.path(), "book.json");
}
