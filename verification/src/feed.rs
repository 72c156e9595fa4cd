//! Applying raw feed batches to the book.
//!
//! A feed message carries, per side, an ordered list of entries, each a
//! pair of texts: a price and a quantity.  Every entry is parsed and
//! applied on its own; a bad entry is rejected with a reason and the rest
//! of the batch still goes through, so one malformed entry can neither
//! abort a batch nor corrupt applied state.

use vstd::prelude::*;
use crate::book::OrderBook;
use crate::book::Side;
use crate::book::UpdateError;
use crate::book::apply_to_map;
use crate::book::opposite;
use crate::decimal::DecError;
use crate::decimal::dec_value;
use crate::decimal::parse_units;
use crate::pricer::Quote;
use crate::pricer::quote;
use crate::pricer::spec_wap;
use crate::pricer::sweep_cost;
use crate::pricer::or_zero;

verus! {

/// Byte views of a batch's entries.
pub open spec fn entry_views(s: Seq<(Vec<u8>, Vec<u8>)>) -> Seq<(Seq<u8>, Seq<u8>)> {
    s.map_values(|e: (Vec<u8>, Vec<u8>)| (e.0@, e.1@))
}

/// Why the entry `e` (price text, quantity text) is rejected, or `None`
/// when it is applied: the price must parse and be positive, the quantity
/// must parse, and both must fit the fixed-point range.
pub open spec fn entry_error(e: (Seq<u8>, Seq<u8>)) -> Option<UpdateError> {
    match dec_value(e.0) {
        Option::None => Some(UpdateError::MalformedPrice),
        Option::Some(p) => if p > u64::MAX {
            Some(UpdateError::PriceTooLarge)
        } else {
            match dec_value(e.1) {
                Option::None => Some(UpdateError::MalformedQuantity),
                Option::Some(q) => if q > u64::MAX {
                    Some(UpdateError::QuantityTooLarge)
                } else if p == 0 {
                    Some(UpdateError::ZeroPrice)
                } else {
                    None
                },
            }
        },
    }
}

/// Parsed price of a valid entry, in units of 10^-8.
pub open spec fn entry_price(e: (Seq<u8>, Seq<u8>)) -> int {
    dec_value(e.0).unwrap()
}

/// Parsed quantity of a valid entry, in units of 10^-8.
pub open spec fn entry_quantity(e: (Seq<u8>, Seq<u8>)) -> int {
    dec_value(e.1).unwrap()
}

/// The side's map after a whole batch: entries applied in order, rejected
/// ones skipped.
pub open spec fn batch_map(m: Map<u64, u64>, entries: Seq<(Seq<u8>, Seq<u8>)>) -> Map<u64, u64>
    decreases entries.len(),
{
    if entries.len() == 0 {
        m
    } else {
        let m1 = if entry_error(entries[0]) is None {
            apply_to_map(m, entry_price(entries[0]) as u64, entry_quantity(entries[0]) as u64)
        } else {
            m
        };
        batch_map(m1, entries.skip(1))
    }
}

/// Positions (counted from `from`) and reasons of a batch's rejected
/// entries, in order.
pub open spec fn batch_rejects(entries: Seq<(Seq<u8>, Seq<u8>)>, from: int) -> Seq<
    (int, UpdateError),
>
    decreases entries.len(),
{
    if entries.len() == 0 {
        Seq::empty()
    } else {
        let rest = batch_rejects(entries.skip(1), from + 1);
        match entry_error(entries[0]) {
            Option::Some(err) => seq![(from, err)] + rest,
            Option::None => rest,
        }
    }
}

/// A reported reject list, with its indices widened for comparison
/// against [`batch_rejects`].
pub open spec fn reject_views(s: Seq<(usize, UpdateError)>) -> Seq<(int, UpdateError)> {
    s.map_values(|p: (usize, UpdateError)| (p.0 as int, p.1))
}

/// Parse one entry's texts and apply it to `side`, or say why it was
/// rejected; a rejected entry leaves the book exactly as it was.
fn apply_entry(book: &mut OrderBook, side: Side, price_text: &Vec<u8>, quantity_text: &Vec<u8>) -> (r:
    Option<UpdateError>)
    requires
        old(book).wf(),
    ensures
        final(book).wf(),
        r == entry_error((price_text@, quantity_text@)),
        r is None ==> final(book).side_map(side) == apply_to_map(
            old(book).side_map(side),
            entry_price((price_text@, quantity_text@)) as u64,
            entry_quantity((price_text@, quantity_text@)) as u64,
        ),
        r is Some ==> *final(book) == *old(book),
        final(book).levels(opposite(side)) == old(book).levels(opposite(side)),
{
    let price = match parse_units(price_text.as_slice()) {
        Ok(v) => v,
        Err(DecError::Malformed) => {
            return Some(UpdateError::MalformedPrice);
        },
        Err(DecError::TooLarge) => {
            return Some(UpdateError::PriceTooLarge);
        },
    };
    let quantity = match parse_units(quantity_text.as_slice()) {
        Ok(v) => v,
        Err(DecError::Malformed) => {
            return Some(UpdateError::MalformedQuantity);
        },
        Err(DecError::TooLarge) => {
            return Some(UpdateError::QuantityTooLarge);
        },
    };
    match book.apply_update(side, price, quantity) {
        Ok(()) => None,
        Err(e) => Some(e),
    }
}

/// Apply a whole batch of raw entries to `side`, in order, and return the
/// rejected positions with their reasons.  Rejections are local: every
/// other entry of the batch is still applied.
pub fn apply_batch(book: &mut OrderBook, side: Side, updates: &Vec<(Vec<u8>, Vec<u8>)>) -> (rejected:
    Vec<(usize, UpdateError)>)
    requires
        old(book).wf(),
    ensures
        final(book).wf(),
        final(book).side_map(side) == batch_map(
            old(book).side_map(side),
            entry_views(updates@),
        ),
        final(book).levels(opposite(side)) == old(book).levels(opposite(side)),
        reject_views(rejected@) == batch_rejects(entry_views(updates@), 0),
{
    let ghost evs: Seq<(Seq<u8>, Seq<u8>)> = entry_views(updates@);
    let mut rejected: Vec<(usize, UpdateError)> = Vec::new();
    let n = updates.len();
    let mut i: usize = 0;
    proof {
        assert(evs.skip(0) =~= evs);
        assert(reject_views(rejected@) =~= Seq::<(int, UpdateError)>::empty());
        assert(batch_rejects(evs, 0) =~= reject_views(rejected@) + batch_rejects(evs.skip(0), 0));
    }
    while i < n
        invariant
            n == updates@.len(),
            i <= n,
            evs == entry_views(updates@),
            book.wf(),
            batch_map(old(book).side_map(side), evs) == batch_map(
                book.side_map(side),
                evs.skip(i as int),
            ),
            book.levels(opposite(side)) == old(book).levels(opposite(side)),
            batch_rejects(evs, 0) == reject_views(rejected@) + batch_rejects(
                evs.skip(i as int),
                i as int,
            ),
        decreases n - i,
    {
        let entry = &updates[i];
        proof {
            assert(evs[i as int] == (updates@[i as int].0@, updates@[i as int].1@));
            assert(evs.skip(i as int)[0] == evs[i as int]);
            assert(evs.skip(i as int).skip(1) =~= evs.skip(i + 1));
        }
        let r = apply_entry(book, side, &entry.0, &entry.1);
        match r {
            Some(err) => {
                rejected.push((i, err));
                proof {
                    assert(reject_views(rejected@) =~= reject_views(rejected@.drop_last()) + seq![
                        (i as int, err),
                    ]);
                    assert(seq![(i as int, err)] + batch_rejects(evs.skip(i + 1), i + 1)
                        =~= batch_rejects(evs.skip(i as int), i as int));
                }
            },
            None => {
            },
        }
        i = i + 1;
    }
    proof {
        assert(evs.skip(n as int) =~= Seq::<(Seq<u8>, Seq<u8>)>::empty());
        assert(reject_views(rejected@) + batch_rejects(evs.skip(n as int), n as int)
            =~= reject_views(rejected@));
    }
    rejected
}

/// Everything the book's consumer derives from one feed message: the
/// per-side reject reports and the quote after the whole message took
/// effect.
pub struct MessageOutcome {
    /// Rejected bid entries: position in the bid batch and reason.
    pub rejected_bids: Vec<(usize, UpdateError)>,
    /// Rejected ask entries: position in the ask batch and reason.
    pub rejected_asks: Vec<(usize, UpdateError)>,
    /// Both depth-weighted side prices and the spread at the queried depth.
    pub quote: Quote,
}

/// Apply one decoded feed message — a batch of bid entries and a batch of
/// ask entries — to the persistent book, then price both sides at `depth`
/// and form the spread.
pub fn process_message(
    book: &mut OrderBook,
    bid_updates: &Vec<(Vec<u8>, Vec<u8>)>,
    ask_updates: &Vec<(Vec<u8>, Vec<u8>)>,
    depth: u64,
) -> (out: MessageOutcome)
    requires
        old(book).wf(),
    ensures
        final(book).wf(),
        final(book).side_map(Side::Bid) == batch_map(
            old(book).side_map(Side::Bid),
            entry_views(bid_updates@),
        ),
        final(book).side_map(Side::Ask) == batch_map(
            old(book).side_map(Side::Ask),
            entry_views(ask_updates@),
        ),
        reject_views(out.rejected_bids@) == batch_rejects(entry_views(bid_updates@), 0),
        reject_views(out.rejected_asks@) == batch_rejects(entry_views(ask_updates@), 0),
        match out.quote.bid {
            Some(w) => spec_wap(final(book).levels(Side::Bid), depth as int) is Some && w.wf()
                && w.den == depth && w.num == sweep_cost(
                final(book).levels(Side::Bid),
                depth as int,
            ),
            None => spec_wap(final(book).levels(Side::Bid), depth as int) is None,
        },
        match out.quote.ask {
            Some(w) => spec_wap(final(book).levels(Side::Ask), depth as int) is Some && w.wf()
                && w.den == depth && w.num == sweep_cost(
                final(book).levels(Side::Ask),
                depth as int,
            ),
            None => spec_wap(final(book).levels(Side::Ask), depth as int) is None,
        },
        out.quote.spread_units == or_zero(spec_wap(final(book).levels(Side::Ask), depth as int))
            - or_zero(spec_wap(final(book).levels(Side::Bid), depth as int)),
{
    let rejected_bids = apply_batch(book, Side::Bid, bid_updates);
    let rejected_asks = apply_batch(book, Side::Ask, ask_updates);
    let q = quote(book, depth);
    MessageOutcome { rejected_bids, rejected_asks, quote: q }
}

} // verus!
