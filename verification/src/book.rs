//! The order book: two sorted collections of price levels.
//!
//! Each side holds at most one level per price, kept sorted from best
//! price outward (descending for bids, ascending for asks).  The side's
//! mathematical model is a finite map from price to resting quantity
//! ([`OrderBook::side_map`]); every update is an upsert or an idempotent
//! delete on that map ([`apply_to_map`]).

use vstd::prelude::*;

verus! {

/// One side of the order book.
#[derive(Clone, Copy, Debug, PartialEq, Eq, Structural)]
pub enum Side {
    Bid,
    Ask,
}

/// The other side.
pub open spec fn opposite(side: Side) -> Side {
    match side {
        Side::Bid => Side::Ask,
        Side::Ask => Side::Bid,
    }
}

/// A resting price level; both fields are decimal values in units of
/// 10^-8 (see [`crate::decimal`]).
#[derive(Clone, Copy, Debug, PartialEq, Eq, Structural)]
pub struct PriceLevel {
    pub price: u64,
    pub quantity: u64,
}

/// On `side`, a level priced `a` is iterated strictly before one priced
/// `b`: bids descend, asks ascend.
pub open spec fn price_before(side: Side, a: u64, b: u64) -> bool {
    match side {
        Side::Bid => a > b,
        Side::Ask => a < b,
    }
}

/// Levels sorted from best price outward; strictness makes prices distinct.
pub open spec fn sorted_levels(side: Side, s: Seq<PriceLevel>) -> bool {
    forall|i: int, j: int|
        0 <= i < j < s.len() ==> price_before(side, s[i].price, s[j].price)
}

/// No two levels share a price.
pub open spec fn distinct_prices(s: Seq<PriceLevel>) -> bool {
    forall|i: int, j: int| 0 <= i < j < s.len() ==> s[i].price != s[j].price
}

/// Every level has a positive price and a positive quantity.
pub open spec fn valid_levels(s: Seq<PriceLevel>) -> bool {
    forall|i: int| 0 <= i < s.len() ==> s[i].price > 0 && s[i].quantity > 0
}

/// The finite map a level sequence represents: price to quantity.
pub open spec fn levels_map(s: Seq<PriceLevel>) -> Map<u64, u64>
    decreases s.len(),
{
    if s.len() == 0 {
        Map::empty()
    } else {
        levels_map(s.skip(1)).insert(s[0].price, s[0].quantity)
    }
}

/// Effect of one feed update on one side's map: a quantity of zero
/// deletes the level at `price` (if any), a positive quantity inserts or
/// replaces it.
pub open spec fn apply_to_map(m: Map<u64, u64>, price: u64, quantity: u64) -> Map<u64, u64> {
    if quantity == 0 {
        m.remove(price)
    } else {
        m.insert(price, quantity)
    }
}

/// Why a single update entry was rejected.  A rejected entry never
/// changes the book.
#[derive(Clone, Copy, Debug, PartialEq, Eq, Structural)]
pub enum UpdateError {
    /// The price text is not a decimal literal.
    MalformedPrice,
    /// The price does not fit the fixed-point range.
    PriceTooLarge,
    /// The quantity text is not a decimal literal.
    MalformedQuantity,
    /// The quantity does not fit the fixed-point range.
    QuantityTooLarge,
    /// The price is zero; resting levels need a positive price.
    ZeroPrice,
}

/// Current resting liquidity of one instrument.
pub struct OrderBook {
    bids: Vec<PriceLevel>,
    asks: Vec<PriceLevel>,
}

impl OrderBook {
    /// The levels of `side`, best price first.
    pub closed spec fn levels(&self, side: Side) -> Seq<PriceLevel> {
        match side {
            Side::Bid => self.bids@,
            Side::Ask => self.asks@,
        }
    }

    /// The side as a finite map from price to resting quantity.
    pub open spec fn side_map(&self, side: Side) -> Map<u64, u64> {
        levels_map(self.levels(side))
    }

    /// Both sides sorted from best price outward, with positive prices
    /// and quantities throughout.
    pub open spec fn wf(&self) -> bool {
        &&& sorted_levels(Side::Bid, self.levels(Side::Bid))
        &&& sorted_levels(Side::Ask, self.levels(Side::Ask))
        &&& valid_levels(self.levels(Side::Bid))
        &&& valid_levels(self.levels(Side::Ask))
    }

    /// An empty book.
    pub fn new() -> (book: OrderBook)
        ensures
            book.wf(),
            book.levels(Side::Bid).len() == 0,
            book.levels(Side::Ask).len() == 0,
            book.side_map(Side::Bid) == Map::<u64, u64>::empty(),
            book.side_map(Side::Ask) == Map::<u64, u64>::empty(),
    {
        OrderBook { bids: Vec::new(), asks: Vec::new() }
    }

    /// Apply one incremental update to `side`: delete the level at
    /// `price` when `quantity` is zero (absence is not an error), insert
    /// or replace it otherwise.  A zero price is rejected and leaves the
    /// book untouched.
    pub fn apply_update(&mut self, side: Side, price: u64, quantity: u64) -> (r: Result<
        (),
        UpdateError,
    >)
        requires
            old(self).wf(),
        ensures
            final(self).wf(),
            r is Ok <==> price > 0,
            r is Err ==> r == Err::<(), UpdateError>(UpdateError::ZeroPrice) && *final(self)
                == *old(self),
            r is Ok ==> final(self).side_map(side) == apply_to_map(
                old(self).side_map(side),
                price,
                quantity,
            ),
            final(self).levels(opposite(side)) == old(self).levels(opposite(side)),
            quantity == 0 && !old(self).side_map(side).contains_key(price) ==> final(self).levels(
                side,
            ) == old(self).levels(side),
    {
        if price == 0 {
            return Err(UpdateError::ZeroPrice);
        }
        match side {
            Side::Bid => update_side(&mut self.bids, side, price, quantity),
            Side::Ask => update_side(&mut self.asks, side, price, quantity),
        }
        Ok(())
    }

    /// Number of levels resting on `side`.
    pub fn level_count(&self, side: Side) -> (n: usize)
        ensures
            n == self.levels(side).len(),
    {
        match side {
            Side::Bid => self.bids.len(),
            Side::Ask => self.asks.len(),
        }
    }

    /// The `i`-th level of `side` counted from the best price, if any.
    pub fn level_at(&self, side: Side, i: usize) -> (l: Option<PriceLevel>)
        ensures
            match l {
                Some(level) => i < self.levels(side).len() && level == self.levels(side)[i as int],
                None => i >= self.levels(side).len(),
            },
    {
        let levels = match side {
            Side::Bid => &self.bids,
            Side::Ask => &self.asks,
        };
        if i < levels.len() {
            Some(levels[i])
        } else {
            None
        }
    }

    /// The resting quantity at `price` on `side`, if a level is there.
    pub fn quantity_at(&self, side: Side, price: u64) -> (q: Option<u64>)
        requires
            self.wf(),
        ensures
            match q {
                Some(v) => self.side_map(side).contains_key(price) && v == self.side_map(
                    side,
                )[price],
                None => !self.side_map(side).contains_key(price),
            },
    {
        let levels = match side {
            Side::Bid => &self.bids,
            Side::Ask => &self.asks,
        };
        proof {
            lemma_sorted_distinct(side, levels@);
            lemma_levels_map_contains(levels@);
        }
        let n = levels.len();
        let mut i: usize = 0;
        while i < n
            invariant
                n == levels@.len(),
                i <= n,
                distinct_prices(levels@),
                forall|j: int| 0 <= j < i ==> levels@[j].price != price,
                forall|p: u64| #[trigger] levels_map(levels@).contains_key(p) <==> exists|t: int|
                    0 <= t < levels@.len() && levels@[t].price == p,
                levels@ == self.levels(side),
            decreases n - i,
        {
            if levels[i].price == price {
                proof {
                    lemma_levels_map_at(levels@, i as int);
                }
                return Some(levels[i].quantity);
            }
            i = i + 1;
        }
        None
    }
}

/// Find the place of `price` on a sorted side and upsert or delete there.
fn update_side(levels: &mut Vec<PriceLevel>, side: Side, price: u64, quantity: u64)
    requires
        sorted_levels(side, old(levels)@),
        valid_levels(old(levels)@),
        price > 0,
    ensures
        sorted_levels(side, final(levels)@),
        valid_levels(final(levels)@),
        levels_map(final(levels)@) == apply_to_map(levels_map(old(levels)@), price, quantity),
        quantity == 0 && !levels_map(old(levels)@).contains_key(price) ==> final(levels)@ == old(
            levels,
        )@,
{
    proof {
        lemma_sorted_distinct(side, levels@);
        lemma_levels_map_contains(levels@);
    }
    let ghost s0: Seq<PriceLevel> = levels@;
    let n = levels.len();
    if quantity == 0 {
        let mut i: usize = 0;
        while i < n
            invariant
                n == levels@.len(),
                i <= n,
                levels@ == s0,
                s0 == old(levels)@,
                quantity == 0,
                sorted_levels(side, s0),
                valid_levels(s0),
                distinct_prices(s0),
                forall|j: int| 0 <= j < i ==> levels@[j].price != price,
            decreases n - i,
        {
            if levels[i].price == price {
                levels.remove(i);
                proof {
                    lemma_levels_map_contains(s0);
                    lemma_levels_map_remove_at(s0, i as int);
                    s0.remove_ensures(i as int);
                    assert forall|a: int, b: int|
                        0 <= a < b < levels@.len() implies price_before(
                        side,
                        levels@[a].price,
                        levels@[b].price,
                    ) by {
                        if a < i {
                            assert(s0.remove(i as int)[a] == s0[a]);
                        } else {
                            assert(s0.remove(i as int)[a] == s0[a + 1]);
                        }
                        if b < i {
                            assert(s0.remove(i as int)[b] == s0[b]);
                        } else {
                            assert(s0.remove(i as int)[b] == s0[b + 1]);
                        }
                    }
                    assert forall|t: int|
                        0 <= t < levels@.len() implies levels@[t].price > 0 && levels@[t].quantity
                        > 0 by {
                        if t < i {
                            assert(s0.remove(i as int)[t] == s0[t]);
                        } else {
                            assert(s0.remove(i as int)[t] == s0[t + 1]);
                        }
                    }
                }
                return ;
            }
            i = i + 1;
        }
        // No level at `price`: deleting is a no-op.
        proof {
            lemma_levels_map_contains(s0);
            assert(!levels_map(s0).contains_key(price));
            assert(levels_map(s0).remove(price) =~= levels_map(s0));
        }
    } else {
        let i = find_pos(levels, side, price);
        let l = PriceLevel { price, quantity };
        if i < n && levels[i].price == price {
            // Upsert hit: replace the quantity in place.
            levels[i] = l;
            proof {
                lemma_levels_map_update(s0, i as int, l);
                assert(levels@ == s0.update(i as int, l));
                assert forall|a: int, b: int|
                    0 <= a < b < levels@.len() implies price_before(
                    side,
                    levels@[a].price,
                    levels@[b].price,
                ) by {
                    assert(levels@[a].price == s0[a].price);
                    assert(levels@[b].price == s0[b].price);
                }
                assert(valid_levels(levels@));
            }
        } else {
            // `price` is new on this side; it sorts right at `i`.
            proof {
                if i < n {
                    assert(price_before(side, price, s0[i as int].price));
                }
                assert forall|j: int| i <= j < n implies price_before(
                    side,
                    price,
                    s0[j].price,
                ) by {
                    if i < j {
                        assert(price_before(side, s0[i as int].price, s0[j].price));
                    }
                }
                assert forall|j: int| 0 <= j < n implies s0[j].price != price by {
                    if j < i {
                        assert(price_before(side, s0[j].price, price));
                    }
                }
            }
            levels.insert(i, l);
            proof {
                lemma_levels_map_insert_at(s0, i as int, l);
                s0.insert_ensures(i as int, l);
                assert forall|a: int, b: int|
                    0 <= a < b < levels@.len() implies price_before(
                    side,
                    levels@[a].price,
                    levels@[b].price,
                ) by {
                    if a < i {
                        assert(s0.insert(i as int, l)[a] == s0[a]);
                    } else if a > i {
                        assert(s0.insert(i as int, l)[a] == s0[a - 1]);
                    }
                    if b < i {
                        assert(s0.insert(i as int, l)[b] == s0[b]);
                    } else if b > i {
                        assert(s0.insert(i as int, l)[b] == s0[b - 1]);
                    }
                }
                assert forall|t: int|
                    0 <= t < levels@.len() implies levels@[t].price > 0 && levels@[t].quantity
                    > 0 by {
                    if t < i {
                        assert(s0.insert(i as int, l)[t] == s0[t]);
                    } else if t > i {
                        assert(s0.insert(i as int, l)[t] == s0[t - 1]);
                    }
                }
            }
        }
    }
}

/// First index whose level does not sort strictly before `price` on
/// `side`; the length when every level does.
fn find_pos(levels: &Vec<PriceLevel>, side: Side, price: u64) -> (i: usize)
    requires
        sorted_levels(side, levels@),
    ensures
        i <= levels@.len(),
        forall|j: int| 0 <= j < i ==> price_before(side, levels@[j].price, price),
        i < levels@.len() ==> !price_before(side, levels@[i as int].price, price),
{
    let n = levels.len();
    let mut i: usize = 0;
    while i < n
        invariant
            n == levels@.len(),
            i <= n,
            forall|j: int| 0 <= j < i ==> price_before(side, levels@[j].price, price),
        decreases n - i,
    {
        let before = match side {
            Side::Bid => levels[i].price > price,
            Side::Ask => levels[i].price < price,
        };
        if !before {
            return i;
        }
        i = i + 1;
    }
    i
}

/// Strict ordering on a side makes prices pairwise distinct.
proof fn lemma_sorted_distinct(side: Side, s: Seq<PriceLevel>)
    requires
        sorted_levels(side, s),
    ensures
        distinct_prices(s),
{
    assert forall|i: int, j: int| 0 <= i < j < s.len() implies s[i].price != s[j].price by {
        assert(price_before(side, s[i].price, s[j].price));
    }
}

/// A price is in the side's map exactly when some level carries it.
proof fn lemma_levels_map_contains(s: Seq<PriceLevel>)
    ensures
        forall|p: u64| #[trigger]
            levels_map(s).contains_key(p) <==> exists|i: int|
                0 <= i < s.len() && s[i].price == p,
    decreases s.len(),
{
    if s.len() == 0 {
    } else {
        lemma_levels_map_contains(s.skip(1));
        assert(levels_map(s) == levels_map(s.skip(1)).insert(s[0].price, s[0].quantity));
        assert forall|p: u64| #[trigger]
            levels_map(s).contains_key(p) <==> exists|i: int|
                0 <= i < s.len() && s[i].price == p by {
            if levels_map(s).contains_key(p) {
                if p == s[0].price {
                    assert(s[0].price == p);
                } else {
                    assert(levels_map(s.skip(1)).contains_key(p));
                    let t = choose|t: int| 0 <= t < s.skip(1).len() && s.skip(1)[t].price == p;
                    assert(s.skip(1)[t] == s[t + 1]);
                    assert(s[t + 1].price == p);
                }
            }
            if exists|i: int| 0 <= i < s.len() && s[i].price == p {
                let i = choose|i: int| 0 <= i < s.len() && s[i].price == p;
                if i > 0 {
                    assert(s.skip(1)[i - 1] == s[i]);
                    assert(s.skip(1)[i - 1].price == p);
                    assert(levels_map(s.skip(1)).contains_key(p));
                }
            }
        }
    }
}

/// With distinct prices, the map sends each level's price to its quantity.
proof fn lemma_levels_map_at(s: Seq<PriceLevel>, i: int)
    requires
        distinct_prices(s),
        0 <= i < s.len(),
    ensures
        levels_map(s).contains_key(s[i].price),
        levels_map(s)[s[i].price] == s[i].quantity,
    decreases i,
{
    if i == 0 {
    } else {
        assert forall|a: int, b: int|
            0 <= a < b < s.skip(1).len() implies s.skip(1)[a].price != s.skip(1)[b].price by {
            assert(s.skip(1)[a] == s[a + 1]);
            assert(s.skip(1)[b] == s[b + 1]);
        }
        lemma_levels_map_at(s.skip(1), i - 1);
        assert(s.skip(1)[i - 1] == s[i]);
        assert(s[0].price != s[i].price);
    }
}

/// Replacing the quantity of the level at index `i` updates its price's
/// entry and nothing else.
proof fn lemma_levels_map_update(s: Seq<PriceLevel>, i: int, l: PriceLevel)
    requires
        distinct_prices(s),
        0 <= i < s.len(),
        l.price == s[i].price,
    ensures
        levels_map(s.update(i, l)) == levels_map(s).insert(l.price, l.quantity),
    decreases i,
{
    let s2 = s.update(i, l);
    if i == 0 {
        assert(s2.skip(1) =~= s.skip(1));
        assert(s2[0] == l);
        assert(levels_map(s.skip(1)).insert(s[0].price, s[0].quantity).insert(l.price, l.quantity)
            =~= levels_map(s.skip(1)).insert(l.price, l.quantity));
    } else {
        assert forall|a: int, b: int|
            0 <= a < b < s.skip(1).len() implies s.skip(1)[a].price != s.skip(1)[b].price by {
            assert(s.skip(1)[a] == s[a + 1]);
            assert(s.skip(1)[b] == s[b + 1]);
        }
        assert(s2.skip(1) =~= s.skip(1).update(i - 1, l));
        lemma_levels_map_update(s.skip(1), i - 1, l);
        assert(s2[0] == s[0]);
        assert(s[0].price != l.price);
        assert(levels_map(s.skip(1)).insert(l.price, l.quantity).insert(s[0].price, s[0].quantity)
            =~= levels_map(s.skip(1)).insert(s[0].price, s[0].quantity).insert(
            l.price,
            l.quantity,
        ));
    }
}

/// Inserting a level with a fresh price at any index adds exactly its
/// entry to the map.
proof fn lemma_levels_map_insert_at(s: Seq<PriceLevel>, i: int, l: PriceLevel)
    requires
        0 <= i <= s.len(),
        forall|j: int| 0 <= j < s.len() ==> s[j].price != l.price,
    ensures
        levels_map(s.insert(i, l)) == levels_map(s).insert(l.price, l.quantity),
    decreases i,
{
    let s2 = s.insert(i, l);
    if i == 0 {
        assert(s2.skip(1) =~= s);
        assert(s2[0] == l);
    } else {
        assert(s2[0] == s[0]);
        assert(s2.skip(1) =~= s.skip(1).insert(i - 1, l));
        assert forall|j: int| 0 <= j < s.skip(1).len() implies s.skip(1)[j].price != l.price by {
            assert(s.skip(1)[j] == s[j + 1]);
        }
        lemma_levels_map_insert_at(s.skip(1), i - 1, l);
        assert(s[0].price != l.price);
        assert(levels_map(s.skip(1)).insert(l.price, l.quantity).insert(s[0].price, s[0].quantity)
            =~= levels_map(s.skip(1)).insert(s[0].price, s[0].quantity).insert(
            l.price,
            l.quantity,
        ));
    }
}

/// Removing the level at index `i` removes exactly its price's entry.
proof fn lemma_levels_map_remove_at(s: Seq<PriceLevel>, i: int)
    requires
        distinct_prices(s),
        0 <= i < s.len(),
    ensures
        levels_map(s.remove(i)) == levels_map(s).remove(s[i].price),
    decreases i,
{
    let s2 = s.remove(i);
    if i == 0 {
        assert(s2 =~= s.skip(1));
        lemma_levels_map_contains(s.skip(1));
        assert forall|j: int|
            0 <= j < s.skip(1).len() implies s.skip(1)[j].price != s[0].price by {
            assert(s.skip(1)[j] == s[j + 1]);
        }
        assert(!levels_map(s.skip(1)).contains_key(s[0].price));
        assert(levels_map(s.skip(1)).insert(s[0].price, s[0].quantity).remove(s[0].price)
            =~= levels_map(s.skip(1)));
    } else {
        assert forall|a: int, b: int|
            0 <= a < b < s.skip(1).len() implies s.skip(1)[a].price != s.skip(1)[b].price by {
            assert(s.skip(1)[a] == s[a + 1]);
            assert(s.skip(1)[b] == s[b + 1]);
        }
        assert(s2[0] == s[0]);
        assert(s2.skip(1) =~= s.skip(1).remove(i - 1));
        lemma_levels_map_remove_at(s.skip(1), i - 1);
        assert(s.skip(1)[i - 1] == s[i]);
        assert(s[0].price != s[i].price);
        assert(levels_map(s.skip(1)).remove(s[i].price).insert(s[0].price, s[0].quantity)
            =~= levels_map(s.skip(1)).insert(s[0].price, s[0].quantity).remove(s[i].price));
    }
}

/// Law: deleting a price with no resting level leaves the side's map
/// unchanged.
pub proof fn lemma_delete_absent(m: Map<u64, u64>, price: u64)
    requires
        !m.contains_key(price),
    ensures
        apply_to_map(m, price, 0) == m,
{
    assert(m.remove(price) =~= m);
}

/// Law: a second upsert at the same price replaces the quantity; the two
/// quantities never accumulate.
pub proof fn lemma_upsert_replaces(m: Map<u64, u64>, price: u64, q1: u64, q2: u64)
    requires
        q1 > 0,
        q2 > 0,
    ensures
        apply_to_map(apply_to_map(m, price, q1), price, q2) == apply_to_map(m, price, q2),
        apply_to_map(apply_to_map(m, price, q1), price, q2).contains_key(price),
        apply_to_map(apply_to_map(m, price, q1), price, q2)[price] == q2,
{
    assert(m.insert(price, q1).insert(price, q2) =~= m.insert(price, q2));
}

/// A well-formed side is determined by its map: two level sequences
/// sorted for the same side and holding the same price-to-quantity map
/// are equal.  This lets callers carry conclusions drawn on
/// [`OrderBook::side_map`] over to the iteration order that pricing uses.
pub proof fn lemma_side_map_determines_levels(side: Side, s1: Seq<PriceLevel>, s2: Seq<PriceLevel>)
    requires
        sorted_levels(side, s1),
        sorted_levels(side, s2),
        levels_map(s1) == levels_map(s2),
    ensures
        s1 == s2,
    decreases s1.len(),
{
    lemma_sorted_distinct(side, s1);
    lemma_sorted_distinct(side, s2);
    lemma_levels_map_contains(s1);
    lemma_levels_map_contains(s2);
    if s1.len() == 0 {
        if s2.len() > 0 {
            assert(levels_map(s2).contains_key(s2[0].price));
            assert(false);
        }
        assert(s1 =~= s2);
    } else {
        if s2.len() == 0 {
            assert(levels_map(s1).contains_key(s1[0].price));
            assert(false);
        }
        // The heads carry the same price: each head's price occurs in the
        // other sequence, and a strict order allows no later position for
        // both at once.
        assert(levels_map(s1).contains_key(s1[0].price));
        assert(levels_map(s2).contains_key(s2[0].price));
        let t = choose|t: int| 0 <= t < s1.len() && s1[t].price == s2[0].price;
        let u = choose|u: int| 0 <= u < s2.len() && s2[u].price == s1[0].price;
        if t > 0 && u > 0 {
            assert(price_before(side, s1[0].price, s1[t].price));
            assert(price_before(side, s2[0].price, s2[u].price));
            assert(false);
        }
        assert(s1[0].price == s2[0].price);
        lemma_levels_map_at(s1, 0);
        lemma_levels_map_at(s2, 0);
        assert(s1[0] == s2[0]);
        // The tails hold the same map: the head's price is on neither
        // tail, so both tail maps are the shared map without it.
        lemma_levels_map_contains(s1.skip(1));
        lemma_levels_map_contains(s2.skip(1));
        assert forall|j: int| 0 <= j < s1.skip(1).len() implies s1.skip(1)[j].price
            != s1[0].price by {
            assert(s1.skip(1)[j] == s1[j + 1]);
        }
        assert forall|j: int| 0 <= j < s2.skip(1).len() implies s2.skip(1)[j].price
            != s2[0].price by {
            assert(s2.skip(1)[j] == s2[j + 1]);
        }
        assert(!levels_map(s1.skip(1)).contains_key(s1[0].price));
        assert(!levels_map(s2.skip(1)).contains_key(s1[0].price));
        assert(levels_map(s1.skip(1)) =~= levels_map(s1).remove(s1[0].price));
        assert(levels_map(s2.skip(1)) =~= levels_map(s2).remove(s1[0].price));
        assert forall|a: int, b: int|
            0 <= a < b < s1.skip(1).len() implies price_before(
            side,
            s1.skip(1)[a].price,
            s1.skip(1)[b].price,
        ) by {
            assert(s1.skip(1)[a] == s1[a + 1]);
            assert(s1.skip(1)[b] == s1[b + 1]);
        }
        assert forall|a: int, b: int|
            0 <= a < b < s2.skip(1).len() implies price_before(
            side,
            s2.skip(1)[a].price,
            s2.skip(1)[b].price,
        ) by {
            assert(s2.skip(1)[a] == s2[a + 1]);
            assert(s2.skip(1)[b] == s2[b + 1]);
        }
        lemma_side_map_determines_levels(side, s1.skip(1), s2.skip(1));
        assert(s1 =~= seq![s1[0]] + s1.skip(1));
        assert(s2 =~= seq![s2[0]] + s2.skip(1));
        assert(s1 =~= s2);
    }
}

/// Law: on a well-formed non-empty side, the first level carries the best
/// price — the maximum of all bid prices, the minimum of all ask prices.
pub proof fn lemma_best_price_first(book: &OrderBook, side: Side)
    requires
        book.wf(),
        book.levels(side).len() > 0,
    ensures
        forall|i: int|
            0 < i < book.levels(side).len() ==> price_before(
                side,
                book.levels(side)[0].price,
                book.levels(side)[i].price,
            ),
{
}

} // verus!
