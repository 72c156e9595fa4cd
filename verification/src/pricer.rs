//! Depth-weighted average prices and the bid/ask spread.
//!
//! Sweeping a side from its best price outward until `depth` units are
//! consumed yields a cost; the depth-weighted average price is that cost
//! divided by `depth`.  The sweep is exact integer arithmetic throughout:
//! the price is returned as the ratio [`Wap`] and only rounded when a
//! caller asks for its fixed-point value.

use vstd::prelude::*;
use vstd::arithmetic::mul::lemma_mul_inequality;
use vstd::arithmetic::div_mod::lemma_div_is_ordered;
use vstd::arithmetic::div_mod::lemma_div_by_multiple;
use crate::book::PriceLevel;
use crate::book::OrderBook;
use crate::book::Side;

verus! {

/// Total resting quantity of a level sequence, in units of 10^-8.
pub open spec fn side_total(s: Seq<PriceLevel>) -> int
    decreases s.len(),
{
    if s.len() == 0 {
        0
    } else {
        s[0].quantity + side_total(s.skip(1))
    }
}

/// Cost of consuming `depth` units front to back: every level contributes
/// its price times the quantity taken there; the level that fills the
/// target (the equality case included) is taken only in part.  The cost
/// carries 16 fractional decimal digits, the product of two fixed-point
/// factors.
pub open spec fn sweep_cost(s: Seq<PriceLevel>, depth: int) -> int
    decreases s.len(),
{
    if s.len() == 0 || depth <= 0 {
        0
    } else if s[0].quantity < depth {
        s[0].price * s[0].quantity + sweep_cost(s.skip(1), depth - s[0].quantity)
    } else {
        s[0].price * depth
    }
}

/// The depth-weighted average price of one side at `depth` units, when
/// the side rests at least `depth`: the exact ratio's value in units of
/// 10^-8, rounded toward zero.
pub open spec fn spec_wap_units(s: Seq<PriceLevel>, depth: int) -> int {
    sweep_cost(s, depth) / depth
}

/// The priced outcome of a depth query: `Some` exactly when the depth is
/// positive and the side rests at least that much.
pub open spec fn spec_wap(s: Seq<PriceLevel>, depth: int) -> Option<int> {
    if 0 < depth <= side_total(s) {
        Some(spec_wap_units(s, depth))
    } else {
        None
    }
}

/// An absent side price enters the spread as zero.
pub open spec fn or_zero(p: Option<int>) -> int {
    match p {
        Some(v) => v,
        None => 0,
    }
}

/// A depth-weighted average price as an exact ratio: `num` is the sweep
/// cost (16 fractional digits), `den` the consumed quantity (8 fractional
/// digits), so `num / den` is the price in units of 10^-8.
#[derive(Clone, Copy, Debug)]
pub struct Wap {
    pub num: u128,
    pub den: u64,
}

impl Wap {
    /// The ratio denotes a price a `u64` can hold.
    pub open spec fn wf(&self) -> bool {
        self.den > 0 && self.num <= u64::MAX * self.den
    }

    /// The price in units of 10^-8, rounded toward zero; exact whenever
    /// [`Wap::is_exact`] holds.
    pub fn price_units(&self) -> (r: u64)
        requires
            self.wf(),
        ensures
            r == self.num as int / self.den as int,
    {
        proof {
            lemma_div_is_ordered(self.num as int, u64::MAX * self.den, self.den as int);
            lemma_div_by_multiple(u64::MAX as int, self.den as int);
        }
        (self.num / (self.den as u128)) as u64
    }

    /// Whether the ratio is a whole number of 10^-8 units.
    pub fn is_exact(&self) -> (r: bool)
        requires
            self.wf(),
        ensures
            r == (self.num as int % self.den as int == 0),
    {
        self.num % (self.den as u128) == 0
    }
}

/// Both side prices at one depth and their spread.
#[derive(Clone, Copy, Debug)]
pub struct Quote {
    /// Bid-side depth-weighted price, absent on insufficient depth.
    pub bid: Option<Wap>,
    /// Ask-side depth-weighted price, absent on insufficient depth.
    pub ask: Option<Wap>,
    /// Ask price minus bid price in units of 10^-8, each side rounded
    /// toward zero and an absent side counted as zero.  The fallback is
    /// deliberate: it keeps the spread defined on a thin book, at the cost
    /// of masking absence — the `bid` and `ask` fields keep it visible.
    pub spread_units: i128,
}

proof fn lemma_side_total_nonneg(s: Seq<PriceLevel>)
    ensures
        side_total(s) >= 0,
    decreases s.len(),
{
    if s.len() > 0 {
        lemma_side_total_nonneg(s.skip(1));
    }
}

/// The volume-weighted average execution price of consuming `depth` units
/// of `side`, iterating levels from the best price outward.
///
/// Returns `None` when `depth` is zero or the side rests less than
/// `depth` in total; otherwise the exact ratio of the sweep cost to
/// `depth`.
pub fn weighted_average_price(book: &OrderBook, side: Side, depth: u64) -> (r: Option<Wap>)
    requires
        book.wf(),
    ensures
        match r {
            Some(w) => spec_wap(book.levels(side), depth as int) is Some && w.wf() && w.den
                == depth && w.num == sweep_cost(book.levels(side), depth as int),
            None => spec_wap(book.levels(side), depth as int) is None,
        },
{
    let ghost s: Seq<PriceLevel> = book.levels(side);
    if depth == 0 {
        return None;
    }
    let n = book.level_count(side);
    let mut i: usize = 0;
    let mut consumed: u64 = 0;
    let mut cost: u128 = 0;
    proof {
        assert(s.skip(0) =~= s);
    }
    while i < n
        invariant
            book.wf(),
            s == book.levels(side),
            n == s.len(),
            i <= n,
            0 < depth,
            consumed < depth,
            sweep_cost(s, depth as int) == cost + sweep_cost(s.skip(i as int), depth - consumed),
            side_total(s) == consumed + side_total(s.skip(i as int)),
            cost <= (u64::MAX as int) * consumed,
        decreases n - i,
    {
        let l = book.level_at(side, i).unwrap();
        let remaining = depth - consumed;
        proof {
            assert(s.skip(i as int)[0] == s[i as int]);
            assert(s.skip(i as int).skip(1) =~= s.skip(i + 1));
            assert((l.price as int) * (l.quantity as int) <= (u64::MAX as int) * (u64::MAX as int))
                by (nonlinear_arith)
                requires
                    l.price <= u64::MAX,
                    l.quantity <= u64::MAX,
            ;
            assert((l.price as int) * (remaining as int) <= (u64::MAX as int) * (u64::MAX as int))
                by (nonlinear_arith)
                requires
                    l.price <= u64::MAX,
                    remaining <= u64::MAX,
            ;
        }
        if l.quantity < remaining {
            // The level rests less than what is still wanted: take all of
            // it and move outward.
            proof {
                lemma_mul_inequality(l.price as int, u64::MAX as int, l.quantity as int);
                lemma_mul_inequality(consumed as int, (consumed + l.quantity) as int,
                    u64::MAX as int);
                vstd::arithmetic::mul::lemma_mul_is_distributive_add(
                    u64::MAX as int,
                    consumed as int,
                    l.quantity as int,
                );
                vstd::arithmetic::mul::lemma_mul_is_commutative(
                    consumed as int,
                    u64::MAX as int,
                );
                vstd::arithmetic::mul::lemma_mul_is_commutative(
                    (consumed + l.quantity) as int,
                    u64::MAX as int,
                );
                lemma_mul_inequality((consumed + l.quantity) as int, u64::MAX as int,
                    u64::MAX as int);
            }
            cost = cost + (l.price as u128) * (l.quantity as u128);
            consumed = consumed + l.quantity;
            i = i + 1;
        } else {
            // This level fills the request (equality included): take only
            // the remainder and stop.
            proof {
                lemma_mul_inequality(l.price as int, u64::MAX as int, remaining as int);
                vstd::arithmetic::mul::lemma_mul_is_distributive_add(
                    u64::MAX as int,
                    consumed as int,
                    remaining as int,
                );
                vstd::arithmetic::mul::lemma_mul_is_commutative(consumed as int, u64::MAX as int);
                vstd::arithmetic::mul::lemma_mul_is_commutative(depth as int, u64::MAX as int);
                lemma_mul_inequality(depth as int, u64::MAX as int, u64::MAX as int);
                lemma_side_total_nonneg(s.skip(i + 1));
            }
            let w = Wap { num: cost + (l.price as u128) * (remaining as u128), den: depth };
            return Some(w);
        }
    }
    // Every level was consumed in full and the target was never reached:
    // the side rests less than `depth`.
    proof {
        assert(s.skip(n as int) =~= Seq::<PriceLevel>::empty());
    }
    None
}

/// Price both sides of `book` at `depth` and form the spread, ask minus
/// bid, an absent side counting as zero (see [`Quote::spread_units`]).
pub fn quote(book: &OrderBook, depth: u64) -> (q: Quote)
    requires
        book.wf(),
    ensures
        match q.bid {
            Some(w) => spec_wap(book.levels(Side::Bid), depth as int) is Some && w.wf() && w.den
                == depth && w.num == sweep_cost(book.levels(Side::Bid), depth as int),
            None => spec_wap(book.levels(Side::Bid), depth as int) is None,
        },
        match q.ask {
            Some(w) => spec_wap(book.levels(Side::Ask), depth as int) is Some && w.wf() && w.den
                == depth && w.num == sweep_cost(book.levels(Side::Ask), depth as int),
            None => spec_wap(book.levels(Side::Ask), depth as int) is None,
        },
        q.spread_units == or_zero(spec_wap(book.levels(Side::Ask), depth as int)) - or_zero(
            spec_wap(book.levels(Side::Bid), depth as int),
        ),
{
    let bid = weighted_average_price(book, Side::Bid, depth);
    let ask = weighted_average_price(book, Side::Ask, depth);
    let bid_units: u64 = match &bid {
        Some(w) => w.price_units(),
        None => 0,
    };
    let ask_units: u64 = match &ask {
        Some(w) => w.price_units(),
        None => 0,
    };
    let spread_units: i128 = (ask_units as i128) - (bid_units as i128);
    Quote { bid, ask, spread_units }
}

/// The bid/ask spread at `depth`: the ask-side depth-weighted price minus
/// the bid-side one, in units of 10^-8, an absent side counting as zero.
pub fn spread(book: &OrderBook, depth: u64) -> (s: i128)
    requires
        book.wf(),
    ensures
        s == or_zero(spec_wap(book.levels(Side::Ask), depth as int)) - or_zero(
            spec_wap(book.levels(Side::Bid), depth as int),
        ),
{
    quote(book, depth).spread_units
}

} // verus!
