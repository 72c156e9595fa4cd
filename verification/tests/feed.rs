use order_book::book::{OrderBook, Side, UpdateError};
use order_book::decimal::UNIT;
use order_book::feed::{apply_batch, process_message};

fn entries(pairs: &[(&str, &str)]) -> Vec<(Vec<u8>, Vec<u8>)> {
    pairs
        .iter()
        .map(|(p, q)| (p.as_bytes().to_vec(), q.as_bytes().to_vec()))
        .collect()
}

#[test]
fn end_to_end_scenario() {
    // Bids [(100, 2), (99, 5)] and asks [(101, 3), (102, 4)] queried at
    // depth 2: bid price 100, ask price 101, spread 1.
    let mut book = OrderBook::new();
    let bids = entries(&[("100", "2"), ("99", "5")]);
    let asks = entries(&[("101", "3"), ("102", "4")]);
    let out = process_message(&mut book, &bids, &asks, 2 * UNIT);
    assert!(out.rejected_bids.is_empty());
    assert!(out.rejected_asks.is_empty());
    assert_eq!(out.quote.bid.unwrap().price_units(), 100 * UNIT);
    assert_eq!(out.quote.ask.unwrap().price_units(), 101 * UNIT);
    assert_eq!(out.quote.spread_units, UNIT as i128);
}

#[test]
fn bad_entries_rejected_rest_applied() {
    let mut book = OrderBook::new();
    let bids = entries(&[
        ("abc", "1"),
        ("100", "2"),
        ("0", "1"),
        ("101", "x"),
        ("99999999999999999999", "1"),
        ("99", "184467440737.09551616"),
    ]);
    let rejected = apply_batch(&mut book, Side::Bid, &bids);
    assert_eq!(
        rejected,
        vec![
            (0, UpdateError::MalformedPrice),
            (2, UpdateError::ZeroPrice),
            (3, UpdateError::MalformedQuantity),
            (4, UpdateError::PriceTooLarge),
            (5, UpdateError::QuantityTooLarge),
        ]
    );
    // The one good entry went through untouched by its bad neighbours.
    assert_eq!(book.level_count(Side::Bid), 1);
    assert_eq!(book.quantity_at(Side::Bid, 100 * UNIT), Some(2 * UNIT));
}

#[test]
fn delete_via_feed() {
    let mut book = OrderBook::new();
    let add = entries(&[("100", "2")]);
    assert!(apply_batch(&mut book, Side::Bid, &add).is_empty());
    let del = entries(&[("100", "0")]);
    assert!(apply_batch(&mut book, Side::Bid, &del).is_empty());
    assert_eq!(book.level_count(Side::Bid), 0);
}

#[test]
fn batches_apply_in_order() {
    // A later entry at the same price wins within one batch.
    let mut book = OrderBook::new();
    let bids = entries(&[("100", "2"), ("100", "7")]);
    assert!(apply_batch(&mut book, Side::Bid, &bids).is_empty());
    assert_eq!(book.quantity_at(Side::Bid, 100 * UNIT), Some(7 * UNIT));
}

#[test]
fn fractional_feed_values() {
    let mut book = OrderBook::new();
    let bids = entries(&[("0.00127000", "1.5")]);
    assert!(apply_batch(&mut book, Side::Bid, &bids).is_empty());
    assert_eq!(book.quantity_at(Side::Bid, 127_000), Some(UNIT + UNIT / 2));
}

#[test]
fn book_persists_across_messages() {
    // Messages are incremental diffs: a level not touched by the latest
    // message survives it.
    let mut book = OrderBook::new();
    let first_bids = entries(&[("100", "2"), ("99", "5")]);
    let none: Vec<(Vec<u8>, Vec<u8>)> = Vec::new();
    process_message(&mut book, &first_bids, &none, UNIT);
    let second_bids = entries(&[("98", "1")]);
    let out = process_message(&mut book, &second_bids, &none, UNIT);
    assert_eq!(book.level_count(Side::Bid), 3);
    assert_eq!(book.quantity_at(Side::Bid, 100 * UNIT), Some(2 * UNIT));
    assert_eq!(out.quote.bid.unwrap().price_units(), 100 * UNIT);
}
