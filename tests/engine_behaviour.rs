use solux::engine::MatchingEngine;
use solux::events::EngineEvent;
use solux::types::{Order, OrderSide, Trade};

fn trades_of(events: &[EngineEvent]) -> Vec<Trade> {
    events
        .iter()
        .filter_map(|e| match e {
            EngineEvent::OrderMatched(t) => Some(*t),
            _ => None,
        })
        .collect()
}

#[test]
fn no_cross_leaves_both_orders_resting() {
    let mut engine = MatchingEngine::new();
    let lend = Order::new(OrderSide::Lend, 1_000, 700);
    let borrow = Order::new(OrderSide::Borrow, 1_000, 500);
    engine.place_order(lend);
    engine.place_order(borrow);
    let events = engine.drain_events();
    assert_eq!(events.len(), 2);
    assert!(trades_of(&events).is_empty());
    assert_eq!(engine.orderbook().asks().len(), 1);
    assert_eq!(engine.orderbook().bids().len(), 1);
    assert_eq!(engine.orderbook().asks()[0].id, lend.id);
    assert_eq!(engine.orderbook().bids()[0].id, borrow.id);
    assert_eq!(engine.orderbook().asks()[0].remaining_amount, 1_000);
}

#[test]
fn drain_twice_gives_all_then_nothing() {
    let mut engine = MatchingEngine::new();
    assert!(engine.drain_events().is_empty());
    engine.place_order(Order::new(OrderSide::Lend, 500, 400));
    engine.place_order(Order::new(OrderSide::Borrow, 200, 450));
    let first = engine.drain_events();
    let second = engine.drain_events();
    assert_eq!(first.len(), 3);
    assert!(second.is_empty());
}

#[test]
fn placement_logged_before_its_matches() {
    let mut engine = MatchingEngine::new();
    let lend = Order::new(OrderSide::Lend, 300, 400);
    let borrow = Order::new(OrderSide::Borrow, 100, 400);
    engine.place_order(lend);
    engine.place_order(borrow);
    let events = engine.drain_events();
    assert_eq!(events.len(), 3);
    assert!(matches!(events[0], EngineEvent::OrderPlaced(o) if o.id == lend.id));
    assert!(matches!(events[1], EngineEvent::OrderPlaced(o) if o.id == borrow.id));
    match events[2] {
        EngineEvent::OrderMatched(t) => {
            assert_eq!(t.lend_order_id, lend.id);
            assert_eq!(t.borrow_order_id, borrow.id);
            assert_eq!(t.amount, 100);
        }
        _ => panic!("expected a match"),
    }
}

#[test]
fn trade_runs_at_lend_rate_and_partial_fill_rests() {
    let mut engine = MatchingEngine::new();
    let lend = Order::new(OrderSide::Lend, 1_000, 500);
    engine.place_order(lend);
    let borrow = Order::new(OrderSide::Borrow, 400, 650);
    engine.place_order(borrow);
    let trades = trades_of(&engine.drain_events());
    assert_eq!(trades.len(), 1);
    assert_eq!(trades[0].interest_rate, 500);
    assert_eq!(trades[0].amount, 400);
    let asks = engine.orderbook().asks();
    assert_eq!(asks.len(), 1);
    assert_eq!(asks[0].remaining_amount, 600);
    assert_eq!(asks[0].initial_amount, 1_000);
    assert!(engine.orderbook().bids().is_empty());
}

#[test]
fn one_borrow_sweeps_several_lends_in_priority_order() {
    let mut engine = MatchingEngine::new();
    let dear = Order::new(OrderSide::Lend, 100, 520);
    let cheap = Order::new(OrderSide::Lend, 100, 480);
    let out_of_reach = Order::new(OrderSide::Lend, 100, 900);
    engine.place_order(dear);
    engine.place_order(cheap);
    engine.place_order(out_of_reach);
    engine.place_order(Order::new(OrderSide::Borrow, 250, 600));
    let trades = trades_of(&engine.drain_events());
    assert_eq!(trades.len(), 2);
    assert_eq!(trades[0].lend_order_id, cheap.id);
    assert_eq!(trades[0].interest_rate, 480);
    assert_eq!(trades[1].lend_order_id, dear.id);
    assert_eq!(trades[1].interest_rate, 520);
    let bids = engine.orderbook().bids();
    assert_eq!(bids.len(), 1);
    assert_eq!(bids[0].remaining_amount, 50);
    let asks = engine.orderbook().asks();
    assert_eq!(asks.len(), 1);
    assert_eq!(asks[0].id, out_of_reach.id);
}

#[test]
fn equal_amounts_remove_both_orders() {
    let mut engine = MatchingEngine::new();
    engine.place_order(Order::new(OrderSide::Borrow, 750, 500));
    engine.place_order(Order::new(OrderSide::Lend, 750, 500));
    let trades = trades_of(&engine.drain_events());
    assert_eq!(trades.len(), 1);
    assert_eq!(trades[0].amount, 750);
    assert!(engine.orderbook().bids().is_empty());
    assert!(engine.orderbook().asks().is_empty());
}
