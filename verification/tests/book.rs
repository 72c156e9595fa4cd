use order_book::book::{PriceLevel, OrderBook, Side, UpdateError};
use order_book::decimal::UNIT;

#[test]
fn new_book_is_empty() {
    let book = OrderBook::new();
    assert_eq!(book.level_count(Side::Bid), 0);
    assert_eq!(book.level_count(Side::Ask), 0);
}

#[test]
fn upsert_replaces_quantity() {
    // Two upserts at the same price leave one level with the later
    // quantity, not the sum.
    let mut book = OrderBook::new();
    assert_eq!(book.apply_update(Side::Bid, 100 * UNIT, 5 * UNIT), Ok(()));
    assert_eq!(book.apply_update(Side::Bid, 100 * UNIT, 3 * UNIT), Ok(()));
    assert_eq!(book.level_count(Side::Bid), 1);
    assert_eq!(book.quantity_at(Side::Bid, 100 * UNIT), Some(3 * UNIT));
}

#[test]
fn idempotent_delete_leaves_book_unchanged() {
    let mut book = OrderBook::new();
    assert_eq!(book.apply_update(Side::Bid, 100 * UNIT, 2 * UNIT), Ok(()));
    assert_eq!(book.apply_update(Side::Bid, 99 * UNIT, 5 * UNIT), Ok(()));
    // No level rests at 55: deleting there changes nothing.
    assert_eq!(book.apply_update(Side::Bid, 55 * UNIT, 0), Ok(()));
    assert_eq!(book.level_count(Side::Bid), 2);
    assert_eq!(
        book.level_at(Side::Bid, 0),
        Some(PriceLevel { price: 100 * UNIT, quantity: 2 * UNIT })
    );
    assert_eq!(
        book.level_at(Side::Bid, 1),
        Some(PriceLevel { price: 99 * UNIT, quantity: 5 * UNIT })
    );
}

#[test]
fn delete_removes_level() {
    let mut book = OrderBook::new();
    assert_eq!(book.apply_update(Side::Ask, 101 * UNIT, 4 * UNIT), Ok(()));
    assert_eq!(book.apply_update(Side::Ask, 101 * UNIT, 0), Ok(()));
    assert_eq!(book.level_count(Side::Ask), 0);
    assert_eq!(book.quantity_at(Side::Ask, 101 * UNIT), None);
}

#[test]
fn zero_price_rejected() {
    let mut book = OrderBook::new();
    assert_eq!(
        book.apply_update(Side::Bid, 0, 5 * UNIT),
        Err(UpdateError::ZeroPrice)
    );
    assert_eq!(book.level_count(Side::Bid), 0);
}

#[test]
fn bid_levels_sorted_descending() {
    let mut book = OrderBook::new();
    for price in [98u64, 101, 99, 100] {
        assert_eq!(book.apply_update(Side::Bid, price * UNIT, UNIT), Ok(()));
    }
    // The first level iterated carries the maximum bid price.
    let mut prev = book.level_at(Side::Bid, 0).unwrap().price;
    assert_eq!(prev, 101 * UNIT);
    for i in 1..book.level_count(Side::Bid) {
        let cur = book.level_at(Side::Bid, i).unwrap().price;
        assert!(cur < prev);
        prev = cur;
    }
}

#[test]
fn ask_levels_sorted_ascending() {
    let mut book = OrderBook::new();
    for price in [104u64, 101, 103, 102] {
        assert_eq!(book.apply_update(Side::Ask, price * UNIT, UNIT), Ok(()));
    }
    // The first level iterated carries the minimum ask price.
    let mut prev = book.level_at(Side::Ask, 0).unwrap().price;
    assert_eq!(prev, 101 * UNIT);
    for i in 1..book.level_count(Side::Ask) {
        let cur = book.level_at(Side::Ask, i).unwrap().price;
        assert!(cur > prev);
        prev = cur;
    }
}

#[test]
fn update_does_not_touch_other_side() {
    let mut book = OrderBook::new();
    assert_eq!(book.apply_update(Side::Bid, 100 * UNIT, UNIT), Ok(()));
    assert_eq!(book.apply_update(Side::Ask, 100 * UNIT, 2 * UNIT), Ok(()));
    assert_eq!(book.quantity_at(Side::Bid, 100 * UNIT), Some(UNIT));
    assert_eq!(book.quantity_at(Side::Ask, 100 * UNIT), Some(2 * UNIT));
    assert_eq!(book.apply_update(Side::Ask, 100 * UNIT, 0), Ok(()));
    assert_eq!(book.quantity_at(Side::Bid, 100 * UNIT), Some(UNIT));
    assert_eq!(book.quantity_at(Side::Ask, 100 * UNIT), None);
}
