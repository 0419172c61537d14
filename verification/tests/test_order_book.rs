use matching_engine::events::{Events, RejectReason};
use matching_engine::matching_engine::MatchingEngine;
use matching_engine::order::{Order, OrderData, OrderType, Side};
use matching_engine::order_book::Book;
use matching_engine::price_level::PriceLevel;

fn limit(id: u64, integral: u64, decimal: u64, qty: u64) -> OrderData {
    OrderData {
        id,
        prev_id: 0,
        price_level: PriceLevel::new(integral, decimal),
        qty,
        order_type: OrderType::LIMIT,
        filled: 0,
    }
}

#[test]
fn fn_test_add_orders() {
    let mut book: Book = Book::new();
    let order = limit(1, 500, 0, 100);
    book.add_order(Side::Buy, order);
    assert_eq!(2, 2);
}

#[test]
fn test_add_buy_order() {
    let mut book: Book = Book::new();
    let price = PriceLevel::new(6500, 0);
    let order = OrderData {
        id: 1,
        prev_id: 0,
        price_level: price,
        qty: 2500,
        order_type: OrderType::MARKET,
        filled: 0,
    };
    book.add_order(Side::Buy, order);
    assert_eq!(book.bids[0], order);
}

#[test]
fn remove_order() {
    let mut engine = MatchingEngine::new(Book::new());
    engine.match_order(&Order::Buy(limit(1, 50, 0, 3)));
    let cancelled = engine.match_order(&Order::Cancel { side: Side::Buy, prev_id: 1 });
    match cancelled {
        Events::Cancelled(rec) => {
            assert_eq!(rec.id, 1);
            assert_eq!(rec.qty, 3);
        }
        other => panic!("expected Cancelled, got {:?}", other),
    }
    assert!(engine.book.bids.is_empty());
    let again = engine.match_order(&Order::Cancel { side: Side::Buy, prev_id: 1 });
    assert_eq!(again, Events::Rejected(RejectReason::NotFound));
}

#[test]
fn modify_order() {
    let mut engine = MatchingEngine::new(Book::new());
    engine.match_order(&Order::Buy(limit(1, 50, 0, 3)));
    let mut replacement = limit(2, 51, 0, 3);
    replacement.prev_id = 1;
    let updated = engine.match_order(&Order::Update { side: Side::Buy, order: replacement });
    assert_eq!(updated, Events::Updated(1, replacement));
    assert_eq!(engine.book.bids.len(), 1);
    assert_eq!(engine.book.bids[0], replacement);
    assert!(!engine.book.contains_id(1));
}
