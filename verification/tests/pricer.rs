use order_book::book::{OrderBook, Side};
use order_book::decimal::UNIT;
use order_book::pricer::{quote, spread, weighted_average_price};

fn sample_bids() -> OrderBook {
    let mut book = OrderBook::new();
    assert_eq!(book.apply_update(Side::Bid, 100 * UNIT, 2 * UNIT), Ok(()));
    assert_eq!(book.apply_update(Side::Bid, 99 * UNIT, 5 * UNIT), Ok(()));
    book
}

#[test]
fn depth_exactness() {
    // Sweeping 4 units: 2 at 100, then 2 at 99 -> (100*2 + 99*2)/4 = 99.5.
    let book = sample_bids();
    let w = weighted_average_price(&book, Side::Bid, 4 * UNIT).unwrap();
    assert!(w.is_exact());
    assert_eq!(w.price_units(), 99 * UNIT + UNIT / 2);
}

#[test]
fn full_consumption_fallback() {
    // Depth 10 exceeds the 7 units resting: the price is absent.
    let book = sample_bids();
    assert!(weighted_average_price(&book, Side::Bid, 10 * UNIT).is_none());
}

#[test]
fn zero_depth_absent() {
    let book = sample_bids();
    assert!(weighted_average_price(&book, Side::Bid, 0).is_none());
}

#[test]
fn empty_side_absent() {
    let book = sample_bids();
    assert!(weighted_average_price(&book, Side::Ask, UNIT).is_none());
}

#[test]
fn exact_boundary_depth() {
    // Depth equal to the whole resting quantity still prices:
    // (100*2 + 99*5)/7 = 99.2857142857..., floored in 10^-8 units.
    let book = sample_bids();
    let w = weighted_average_price(&book, Side::Bid, 7 * UNIT).unwrap();
    assert!(!w.is_exact());
    assert_eq!(w.price_units(), 9_928_571_428);
}

#[test]
fn single_level_partial() {
    // Depth below the best level's quantity prices at the best level.
    let book = sample_bids();
    let w = weighted_average_price(&book, Side::Bid, UNIT).unwrap();
    assert!(w.is_exact());
    assert_eq!(w.price_units(), 100 * UNIT);
}

#[test]
fn spread_fallback_on_empty_book() {
    // Both sides absent: each enters the spread as zero.
    let book = OrderBook::new();
    let q = quote(&book, UNIT);
    assert!(q.bid.is_none());
    assert!(q.ask.is_none());
    assert_eq!(q.spread_units, 0);
}

#[test]
fn spread_fallback_one_sided() {
    // With no bids, the spread falls back to the ask price alone.
    let mut book = OrderBook::new();
    assert_eq!(book.apply_update(Side::Ask, 101 * UNIT, 3 * UNIT), Ok(()));
    let q = quote(&book, UNIT);
    assert!(q.bid.is_none());
    assert_eq!(q.ask.unwrap().price_units(), 101 * UNIT);
    assert_eq!(q.spread_units, (101 * UNIT) as i128);
}

#[test]
fn spread_of_two_sides() {
    let mut book = sample_bids();
    assert_eq!(book.apply_update(Side::Ask, 101 * UNIT, 3 * UNIT), Ok(()));
    assert_eq!(spread(&book, 2 * UNIT), UNIT as i128);
}
