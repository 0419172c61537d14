use matching_engine::events::{Events, RejectReason};
use matching_engine::matching_engine::MatchingEngine;
use matching_engine::order::{Order, OrderData, OrderType, Side};
use matching_engine::order_book::Book;
use matching_engine::price_level::PriceLevel;

fn record(id: u64, kind: OrderType, integral: u64, decimal: u64, qty: u64) -> OrderData {
    OrderData {
        id,
        prev_id: 0,
        price_level: PriceLevel::new(integral, decimal),
        qty,
        order_type: kind,
        filled: 0,
    }
}

#[test]
fn scenario_partial_fill_leaves_resting_sell() {
    let mut engine = MatchingEngine::new(Book::new());
    engine.match_order(&Order::Sell(record(1, OrderType::LIMIT, 100, 0, 10)));

    let event = engine.match_order(&Order::Buy(record(2, OrderType::LIMIT, 100, 0, 4)));
    match event {
        Events::PartiallyFilled(incoming, fills) => {
            assert_eq!(incoming.id, 2);
            assert_eq!(incoming.filled, 4);
            assert_eq!(fills.len(), 1);
            assert_eq!(fills[0].id, 1);
            assert_eq!(fills[0].filled, 4);
            assert_eq!(fills[0].qty, 10);
        }
        other => panic!("expected PartiallyFilled, got {:?}", other),
    }
    assert_eq!(engine.book.asks.len(), 1);
    assert_eq!(engine.book.asks[0].filled, 4);
    assert_eq!(engine.book.asks[0].qty, 10);
    assert!(engine.book.bids.is_empty());
}

#[test]
fn scenario_second_buy_fills_and_removes_sell() {
    let mut engine = MatchingEngine::new(Book::new());
    engine.match_order(&Order::Sell(record(1, OrderType::LIMIT, 100, 0, 10)));
    engine.match_order(&Order::Buy(record(2, OrderType::LIMIT, 100, 0, 4)));

    let event = engine.match_order(&Order::Buy(record(3, OrderType::LIMIT, 100, 0, 6)));
    match event {
        Events::Filled(incoming, fills) => {
            assert_eq!(incoming.filled, 6);
            assert_eq!(fills.len(), 1);
            assert_eq!(fills[0].id, 1);
            assert_eq!(fills[0].filled, 10);
        }
        other => panic!("expected Filled, got {:?}", other),
    }
    assert!(engine.book.asks.is_empty());
    assert!(engine.book.bids.is_empty());
}

#[test]
fn scenario_market_buy_without_liquidity_is_rejected() {
    let mut engine = MatchingEngine::new(Book::new());
    let before = engine.book.clone();
    let event = engine.match_order(&Order::Buy(record(1, OrderType::MARKET, 0, 0, 5)));
    assert_eq!(event, Events::Rejected(RejectReason::NoLiquidity));
    assert_eq!(engine.book, before);
}

#[test]
fn scenario_cancel_then_cancel_again() {
    let mut engine = MatchingEngine::new(Book::new());
    engine.match_order(&Order::Buy(record(1, OrderType::LIMIT, 50, 0, 3)));

    let first = engine.match_order(&Order::Cancel { side: Side::Buy, prev_id: 1 });
    assert!(matches!(first, Events::Cancelled(rec) if rec.id == 1));

    let before = engine.book.clone();
    let second = engine.match_order(&Order::Cancel { side: Side::Buy, prev_id: 1 });
    assert_eq!(second, Events::Rejected(RejectReason::NotFound));
    assert_eq!(engine.book, before);
}

#[test]
fn scenario_update_resets_time_priority() {
    let mut engine = MatchingEngine::new(Book::new());
    engine.match_order(&Order::Buy(record(1, OrderType::LIMIT, 50, 0, 3)));
    engine.match_order(&Order::Buy(record(2, OrderType::LIMIT, 51, 0, 5)));

    let mut replacement = record(4, OrderType::LIMIT, 51, 0, 3);
    replacement.prev_id = 1;
    let event = engine.match_order(&Order::Update { side: Side::Buy, order: replacement });
    assert_eq!(event, Events::Updated(1, replacement));

    // The replacement joins the 51.00 level behind the order already there:
    // a fresh id means a fresh place in the time queue.
    assert_eq!(engine.book.bids.len(), 2);
    assert_eq!(engine.book.bids[0].id, 2);
    assert_eq!(engine.book.bids[1].id, 4);
    assert!(!engine.book.contains_id(1));
}

#[test]
fn failing_update_leaves_book_unchanged() {
    let mut engine = MatchingEngine::new(Book::new());
    engine.match_order(&Order::Buy(record(1, OrderType::LIMIT, 50, 0, 3)));
    let before = engine.book.clone();

    let mut replacement = record(2, OrderType::LIMIT, 51, 0, 3);
    replacement.prev_id = 9;
    let event = engine.match_order(&Order::Update { side: Side::Buy, order: replacement });
    assert_eq!(event, Events::Rejected(RejectReason::NotFound));
    assert_eq!(engine.book, before);
    assert!(!engine.book.contains_id(2));
}

#[test]
fn zero_remaining_quantity_is_rejected() {
    let mut engine = MatchingEngine::new(Book::new());
    let before = engine.book.clone();
    let event = engine.match_order(&Order::Sell(record(1, OrderType::LIMIT, 10, 0, 0)));
    assert_eq!(event, Events::Rejected(RejectReason::InvalidQuantity));
    assert_eq!(engine.book, before);
}

#[test]
fn market_remainder_is_discarded() {
    let mut engine = MatchingEngine::new(Book::new());
    engine.match_order(&Order::Sell(record(1, OrderType::LIMIT, 99, 0, 5)));

    let event = engine.match_order(&Order::Buy(record(2, OrderType::MARKET, 0, 0, 20)));
    match event {
        Events::PartiallyFilled(incoming, fills) => {
            assert_eq!(incoming.filled, 5);
            assert_eq!(fills.len(), 1);
            assert_eq!(fills[0].filled, 5);
        }
        other => panic!("expected PartiallyFilled, got {:?}", other),
    }
    // A market order never rests: the unfilled 15 are gone, not booked.
    assert!(engine.book.bids.is_empty());
    assert!(engine.book.asks.is_empty());
}

#[test]
fn limit_buy_that_does_not_cross_rests() {
    let mut engine = MatchingEngine::new(Book::new());
    engine.match_order(&Order::Sell(record(1, OrderType::LIMIT, 99, 0, 5)));

    let buy = record(2, OrderType::LIMIT, 98, 50, 5);
    let event = engine.match_order(&Order::Buy(buy));
    assert_eq!(event, Events::Accepted(buy));
    assert_eq!(engine.book.bids.len(), 1);
    assert_eq!(engine.book.bids[0], buy);
    assert_eq!(engine.book.asks.len(), 1);
    assert_eq!(engine.book.asks[0].filled, 0);
}

#[test]
fn walk_trades_best_price_first_and_conserves_quantity() {
    let mut engine = MatchingEngine::new(Book::new());
    engine.match_order(&Order::Sell(record(1, OrderType::LIMIT, 100, 0, 10)));
    engine.match_order(&Order::Sell(record(2, OrderType::LIMIT, 99, 0, 5)));

    let event = engine.match_order(&Order::Buy(record(3, OrderType::LIMIT, 100, 0, 7)));
    match event {
        Events::PartiallyFilled(incoming, fills) => {
            assert_eq!(incoming.filled, 7);
            // Best price (99.00) trades first and is consumed in full; the
            // 100.00 level takes the rest.
            assert_eq!(fills.len(), 2);
            assert_eq!(fills[0].id, 2);
            assert_eq!(fills[0].filled, 5);
            assert_eq!(fills[1].id, 1);
            assert_eq!(fills[1].filled, 2);
            // Each trade moved both parties by the same size: 5 then 2, and
            // nobody's total size changed.
            assert_eq!(fills[0].qty, 5);
            assert_eq!(fills[1].qty, 10);
            assert_eq!(incoming.qty, 7);
        }
        other => panic!("expected PartiallyFilled, got {:?}", other),
    }
    assert_eq!(engine.book.asks.len(), 1);
    assert_eq!(engine.book.asks[0].id, 1);
    assert_eq!(engine.book.asks[0].filled, 2);
    assert!(engine.book.bids.is_empty());
}

#[test]
fn equal_price_trades_earliest_id_first() {
    let mut engine = MatchingEngine::new(Book::new());
    engine.match_order(&Order::Sell(record(7, OrderType::LIMIT, 100, 0, 4)));
    engine.match_order(&Order::Sell(record(3, OrderType::LIMIT, 100, 0, 4)));
    assert_eq!(engine.book.asks[0].id, 3);
    assert_eq!(engine.book.asks[1].id, 7);

    let event = engine.match_order(&Order::Buy(record(9, OrderType::MARKET, 0, 0, 4)));
    match event {
        Events::Filled(_, fills) => {
            assert_eq!(fills.len(), 1);
            assert_eq!(fills[0].id, 3);
        }
        other => panic!("expected Filled, got {:?}", other),
    }
    assert_eq!(engine.book.asks.len(), 1);
    assert_eq!(engine.book.asks[0].id, 7);
}

#[test]
fn sell_taker_crosses_resting_bid() {
    let mut engine = MatchingEngine::new(Book::new());
    engine.match_order(&Order::Buy(record(1, OrderType::LIMIT, 101, 0, 5)));

    let event = engine.match_order(&Order::Sell(record(2, OrderType::LIMIT, 100, 0, 3)));
    match event {
        Events::PartiallyFilled(incoming, fills) => {
            assert_eq!(incoming.id, 2);
            assert_eq!(incoming.filled, 3);
            assert_eq!(fills.len(), 1);
            assert_eq!(fills[0].id, 1);
            assert_eq!(fills[0].filled, 3);
        }
        other => panic!("expected PartiallyFilled, got {:?}", other),
    }
    assert_eq!(engine.book.bids.len(), 1);
    assert_eq!(engine.book.bids[0].filled, 3);
    assert!(engine.book.asks.is_empty());

    let cancelled = engine.match_order(&Order::Cancel { side: Side::Buy, prev_id: 1 });
    assert!(matches!(cancelled, Events::Cancelled(rec) if rec.filled == 3));
    assert!(engine.book.bids.is_empty());
}

#[test]
fn largest_quantities_trade_without_overflow() {
    let mut engine = MatchingEngine::new(Book::new());
    engine.match_order(&Order::Sell(record(1, OrderType::LIMIT, 1, 0, u64::MAX)));

    let event = engine.match_order(&Order::Buy(record(2, OrderType::LIMIT, 1, 0, u64::MAX)));
    match event {
        Events::Filled(incoming, fills) => {
            assert_eq!(incoming.filled, u64::MAX);
            assert_eq!(fills.len(), 1);
            assert_eq!(fills[0].filled, u64::MAX);
        }
        other => panic!("expected Filled, got {:?}", other),
    }
    assert!(engine.book.asks.is_empty());
    assert!(engine.book.bids.is_empty());
}

#[test]
fn price_level_order_is_lexicographic() {
    let a = PriceLevel::new(99, 99);
    let b = PriceLevel::new(100, 0);
    let c = PriceLevel::new(100, 1);
    assert!(a.lt(&b));
    assert!(b.lt(&c));
    assert!(a.lt(&c));
    assert!(!c.lt(&a));
    assert!(b.le(&b));
    assert!(!b.lt(&b));
    assert_eq!(PriceLevel::new(100, 0), PriceLevel::new(100, 0));
}

#[test]
fn best_and_crossing_prefix() {
    let mut book = Book::new();
    assert_eq!(book.best(Side::Sell), None);

    let a = record(1, OrderType::LIMIT, 99, 0, 5);
    let b = record(2, OrderType::LIMIT, 100, 0, 5);
    let c = record(3, OrderType::LIMIT, 101, 0, 5);
    book.add_order(Side::Sell, a);
    book.add_order(Side::Sell, b);
    book.add_order(Side::Sell, c);
    assert_eq!(book.best(Side::Sell), Some(a));

    let reachable = book.level_at_or_better(Side::Buy, PriceLevel::new(100, 0));
    assert_eq!(reachable.len(), 2);
    assert_eq!(reachable[0], a);
    assert_eq!(reachable[1], b);

    let none_reachable = book.level_at_or_better(Side::Buy, PriceLevel::new(98, 99));
    assert!(none_reachable.is_empty());
}
