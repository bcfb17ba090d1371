//! Price levels, book sides and the order book.
//!
//! A side is kept as a vector of levels, strictly sorted by the side's
//! order (ascending prices for asks, descending for bids), with no two
//! levels sharing a price and no stored level of zero quantity.
//!
//! Contracts describe a side through `side_map`, the finite map from
//! price to quantity that the level list denotes, and `delta_fold`, the
//! effect of a whole delta batch on such a map.  Together with the sort
//! invariant this pins the level list down completely: two well-formed
//! sides that denote the same map are equal (`lemma_side_map_determines`
//! in the laws module).
//!
//! Prices and quantities are fixed-point integers; the codec module maps
//! decimal feed strings onto them, so comparison here is numeric, never
//! lexicographic.  A delta quantity of zero is the deletion sentinel and
//! is never stored.

use vstd::prelude::*;
use vstd::map::*;

verus! {

/// Which half of the order book a side holds; the half fixes the sort order.
#[derive(Clone, Copy, PartialEq, Eq, Structural, Debug)]
pub enum Side {
    Ask,
    Bid,
}

/// One rung of the ladder: a price and the quantity resting at it,
/// both in fixed-point units (see the codec module).
#[derive(Clone, Copy, PartialEq, Eq, Structural, Debug)]
pub struct PriceLevel {
    pub price: u64,
    pub quantity: u64,
}

/// `a` sorts strictly before `b` on side `side`:
/// ascending on the ask side, descending on the bid side.
pub open spec fn price_before(side: Side, a: u64, b: u64) -> bool {
    match side {
        Side::Ask => a < b,
        Side::Bid => a > b,
    }
}

/// Strictly sorted by the side's order; strictness makes prices unique.
pub open spec fn sorted_side(side: Side, s: Seq<PriceLevel>) -> bool {
    forall|i: int, j: int|
        #![trigger s[i], s[j]]
        0 <= i < j < s.len() ==> price_before(side, s[i].price, s[j].price)
}

/// No stored level has the sentinel quantity zero.
pub open spec fn all_nonzero(s: Seq<PriceLevel>) -> bool {
    forall|i: int| 0 <= i < s.len() ==> (#[trigger] s[i]).quantity != 0
}

/// Well-formedness of one side's level list.
pub open spec fn side_wf(side: Side, s: Seq<PriceLevel>) -> bool {
    sorted_side(side, s) && all_nonzero(s)
}

/// Some level of `s` has price `p`.
pub open spec fn has_price(s: Seq<PriceLevel>, p: u64) -> bool {
    exists|i: int| 0 <= i < s.len() && (#[trigger] s[i]).price == p
}

/// An index of a level with price `p` (unique when the side is sorted).
pub open spec fn index_of_price(s: Seq<PriceLevel>, p: u64) -> int {
    choose|i: int| 0 <= i < s.len() && (#[trigger] s[i]).price == p
}

/// The quantity resting at price `p`.
pub open spec fn qty_at(s: Seq<PriceLevel>, p: u64) -> u64 {
    s[index_of_price(s, p)].quantity
}

/// The finite price-to-quantity map a level list denotes.
pub open spec fn side_map(s: Seq<PriceLevel>) -> Map<u64, u64> {
    Map::new(|p: u64| has_price(s, p), |p: u64| qty_at(s, p))
}

/// What a single delta entry does to a side, seen as a map:
/// the zero quantity deletes the price, any other quantity sets it.
pub open spec fn delta_step(m: Map<u64, u64>, d: PriceLevel) -> Map<u64, u64> {
    if d.quantity == 0 {
        m.remove(d.price)
    } else {
        m.insert(d.price, d.quantity)
    }
}

/// A whole delta batch applied to a side map, first entry first.
pub open spec fn delta_fold(m: Map<u64, u64>, ds: Seq<PriceLevel>) -> Map<u64, u64>
    decreases ds.len(),
{
    if ds.len() == 0 {
        m
    } else {
        delta_step(delta_fold(m, ds.drop_last()), ds.last())
    }
}

/// In a sorted side two levels with one price stand at one index.
pub proof fn lemma_sorted_unique(side: Side, s: Seq<PriceLevel>, i: int, j: int)
    requires
        sorted_side(side, s),
        0 <= i < s.len(),
        0 <= j < s.len(),
        s[i].price == s[j].price,
    ensures
        i == j,
{
    if i < j {
        assert(price_before(side, s[i].price, s[j].price));
    }
    if j < i {
        assert(price_before(side, s[j].price, s[i].price));
    }
}

/// `index_of_price` finds exactly the index one already knows.
pub proof fn lemma_index_at(side: Side, s: Seq<PriceLevel>, k: int)
    requires
        sorted_side(side, s),
        0 <= k < s.len(),
    ensures
        has_price(s, s[k].price),
        index_of_price(s, s[k].price) == k,
        qty_at(s, s[k].price) == s[k].quantity,
{
    assert(has_price(s, s[k].price));
    let i = index_of_price(s, s[k].price);
    assert(0 <= i < s.len() && s[i].price == s[k].price);
    lemma_sorted_unique(side, s, i, k);
}

/// The empty level list denotes the empty map.
pub proof fn lemma_side_map_empty()
    ensures
        side_map(Seq::<PriceLevel>::empty()) == Map::<u64, u64>::empty(),
{
    assert(side_map(Seq::<PriceLevel>::empty()) =~= Map::<u64, u64>::empty());
}

/// Replacing the quantity at index `j` keeps the side well formed and
/// denotes the map with that one price rebound.
pub proof fn lemma_update_level(side: Side, s: Seq<PriceLevel>, j: int, q: u64)
    requires
        side_wf(side, s),
        0 <= j < s.len(),
        q != 0,
    ensures
        side_wf(side, s.update(j, PriceLevel { price: s[j].price, quantity: q })),
        side_map(s.update(j, PriceLevel { price: s[j].price, quantity: q }))
            == side_map(s).insert(s[j].price, q),
{
    let p = s[j].price;
    let t = s.update(j, PriceLevel { price: p, quantity: q });
    assert(forall|i: int| 0 <= i < s.len() ==> (#[trigger] t[i]).price == s[i].price);
    assert(sorted_side(side, t));
    assert(all_nonzero(t));
    assert_maps_equal!(side_map(t), side_map(s).insert(p, q), k => {
        if has_price(t, k) {
            let i = index_of_price(t, k);
            assert(0 <= i < t.len() && t[i].price == k);
            assert(s[i].price == k);
            assert(has_price(s, k));
            lemma_index_at(side, t, i);
            if k == p {
                assert(t[j].price == p);
                lemma_sorted_unique(side, t, i, j);
                assert(qty_at(t, k) == q);
            } else {
                assert(i != j);
                assert(t[i].quantity == s[i].quantity);
                lemma_index_at(side, s, i);
            }
        }
        if has_price(s, k) {
            let i2 = index_of_price(s, k);
            assert(0 <= i2 < s.len() && s[i2].price == k);
            assert(t[i2].price == k);
            assert(has_price(t, k));
        }
    });
}

/// Removing the level at index `j` keeps the side well formed and
/// denotes the map with that one price unbound.
pub proof fn lemma_remove_level(side: Side, s: Seq<PriceLevel>, j: int)
    requires
        side_wf(side, s),
        0 <= j < s.len(),
    ensures
        side_wf(side, s.remove(j)),
        side_map(s.remove(j)) == side_map(s).remove(s[j].price),
{
    let p = s[j].price;
    let t = s.remove(j);
    s.remove_ensures(j);
    assert(forall|i: int| 0 <= i < j ==> #[trigger] t[i] == s[i]);
    assert(forall|i: int| j <= i < t.len() ==> #[trigger] t[i] == s[i + 1]);
    assert forall|a: int, b: int| #![trigger t[a], t[b]] 0 <= a < b < t.len() implies
        price_before(side, t[a].price, t[b].price) by {
        let a0: int = if a < j { a } else { a + 1 };
        let b0: int = if b < j { b } else { b + 1 };
        assert(t[a] == s[a0] && t[b] == s[b0]);
        assert(price_before(side, s[a0].price, s[b0].price));
    }
    assert forall|i: int| 0 <= i < t.len() implies (#[trigger] t[i]).quantity != 0 by {
        let i0: int = if i < j { i } else { i + 1 };
        assert(t[i] == s[i0]);
    }
    assert(all_nonzero(t));
    assert_maps_equal!(side_map(t), side_map(s).remove(p), k => {
        if has_price(t, k) {
            let i = index_of_price(t, k);
            assert(0 <= i < t.len() && t[i].price == k);
            let i0: int = if i < j { i } else { i + 1 };
            assert(t[i] == s[i0]);
            assert(has_price(s, k));
            if k == p {
                lemma_sorted_unique(side, s, i0, j);
                assert(false);
            }
            lemma_index_at(side, t, i);
            lemma_index_at(side, s, i0);
            assert(qty_at(t, k) == t[i].quantity && t[i].quantity == s[i0].quantity);
        }
        if has_price(s, k) && k != p {
            let i0 = index_of_price(s, k);
            assert(0 <= i0 < s.len() && s[i0].price == k);
            assert(i0 != j);
            let i: int = if i0 < j { i0 } else { i0 - 1 };
            assert(t[i] == s[i0]);
            assert(has_price(t, k));
        }
    });
}

/// Inserting a fresh level at its sort position keeps the side well
/// formed and denotes the map with that price newly bound.
pub proof fn lemma_insert_level(side: Side, s: Seq<PriceLevel>, j: int, d: PriceLevel)
    requires
        side_wf(side, s),
        0 <= j <= s.len(),
        d.quantity != 0,
        forall|k: int| 0 <= k < j ==> price_before(side, (#[trigger] s[k]).price, d.price),
        forall|k: int| j <= k < s.len() ==> price_before(side, d.price, (#[trigger] s[k]).price),
    ensures
        side_wf(side, s.insert(j, d)),
        side_map(s.insert(j, d)) == side_map(s).insert(d.price, d.quantity),
{
    let p = d.price;
    let t = s.insert(j, d);
    s.insert_ensures(j, d);
    assert(forall|i: int| 0 <= i < j ==> #[trigger] t[i] == s[i]);
    assert(t[j] == d);
    assert(forall|i: int| j < i < t.len() ==> #[trigger] t[i] == s[i - 1]);
    assert forall|a: int, b: int| #![trigger t[a], t[b]] 0 <= a < b < t.len() implies
        price_before(side, t[a].price, t[b].price) by {
        if a == j {
            assert(t[b] == s[b - 1]);
        } else if b == j {
            assert(t[a] == s[a]);
        } else {
            let a0: int = if a < j { a } else { a - 1 };
            let b0: int = if b < j { b } else { b - 1 };
            assert(t[a] == s[a0] && t[b] == s[b0]);
            assert(price_before(side, s[a0].price, s[b0].price));
        }
    }
    assert forall|i: int| 0 <= i < t.len() implies (#[trigger] t[i]).quantity != 0 by {
        if i != j {
            let i0: int = if i < j { i } else { i - 1 };
            assert(t[i] == s[i0]);
        }
    }
    assert(all_nonzero(t));
    assert_maps_equal!(side_map(t), side_map(s).insert(p, d.quantity), k => {
        if has_price(t, k) {
            let i = index_of_price(t, k);
            assert(0 <= i < t.len() && t[i].price == k);
            lemma_index_at(side, t, i);
            if i == j {
                assert(k == p);
                assert(qty_at(t, k) == d.quantity);
            } else {
                let i0: int = if i < j { i } else { i - 1 };
                assert(t[i] == s[i0]);
                assert(has_price(s, k));
                lemma_index_at(side, s, i0);
                if k == p {
                    if i0 < j {
                        assert(price_before(side, s[i0].price, p));
                    } else {
                        assert(price_before(side, p, s[i0].price));
                    }
                    assert(false);
                }
            }
        }
        if has_price(s, k) {
            let i0 = index_of_price(s, k);
            assert(0 <= i0 < s.len() && s[i0].price == k);
            let i: int = if i0 < j { i0 } else { i0 + 1 };
            assert(t[i] == s[i0]);
            assert(has_price(t, k));
        }
        if k == p {
            assert(t[j].price == p);
            assert(has_price(t, k));
        }
    });
}

/// Deleting a price that is not on the side leaves its map untouched.
pub proof fn lemma_remove_absent(s: Seq<PriceLevel>, p: u64)
    requires
        !has_price(s, p),
    ensures
        side_map(s).remove(p) == side_map(s),
{
    assert(!side_map(s).dom().contains(p));
    assert(side_map(s).remove(p) =~= side_map(s));
}

/// Peeling one entry off the back of a batch unfolds `delta_fold`.
pub proof fn lemma_fold_step(m: Map<u64, u64>, ds: Seq<PriceLevel>, i: int)
    requires
        0 <= i < ds.len(),
    ensures
        delta_fold(m, ds.take(i + 1)) == delta_step(delta_fold(m, ds.take(i)), ds[i]),
{
    assert(ds.take(i + 1).drop_last() =~= ds.take(i));
    assert(ds.take(i + 1).last() == ds[i]);
}

/// `price_before`, decided at run time.
pub fn price_before_exec(side: Side, a: u64, b: u64) -> (r: bool)
    ensures
        r == price_before(side, a, b),
{
    match side {
        Side::Ask => a < b,
        Side::Bid => a > b,
    }
}

/// One side of the book: its half and its sorted level list.
pub struct BookSide {
    pub side: Side,
    pub levels: Vec<PriceLevel>,
}

impl BookSide {
    /// The side's invariant: sorted by its order, prices unique,
    /// no sentinel quantity stored.
    pub open spec fn wf(&self) -> bool {
        side_wf(self.side, self.levels@)
    }

    /// The price-to-quantity map this side denotes.
    pub open spec fn contents(&self) -> Map<u64, u64> {
        side_map(self.levels@)
    }

    /// An empty side of the given half.
    pub fn new(side: Side) -> (r: BookSide)
        ensures
            r.side == side,
            r.wf(),
            r.levels@.len() == 0,
            r.contents() == Map::<u64, u64>::empty(),
    {
        proof {
            lemma_side_map_empty();
        }
        BookSide { side, levels: Vec::new() }
    }

    /// Drops every level; the snapshot path starts from here.
    pub fn clear(&mut self)
        ensures
            final(self).side == old(self).side,
            final(self).wf(),
            final(self).levels@.len() == 0,
            final(self).contents() == Map::<u64, u64>::empty(),
    {
        self.levels.clear();
        proof {
            lemma_side_map_empty();
        }
    }

    /// Applies one delta batch in the order received, by a merge scan:
    /// a cursor walks the level list forward while entries keep arriving
    /// in sort order, and restarts only when an entry steps back.
    ///
    /// Each entry deletes its price (zero quantity), replaces the
    /// quantity at its price, or inserts a new level at its sort
    /// position; a deletion of an absent price is a no-op.  The batch as
    /// a whole folds over the side's map, and the sort invariant holds
    /// again after every entry.
    pub fn apply_deltas(&mut self, ds: &Vec<PriceLevel>)
        requires
            old(self).wf(),
        ensures
            final(self).side == old(self).side,
            final(self).wf(),
            final(self).contents() == delta_fold(old(self).contents(), ds@),
    {
        let ghost m0 = side_map(self.levels@);
        let mut i: usize = 0;
        let mut j: usize = 0;
        while i < ds.len()
            invariant
                self.side == old(self).side,
                self.wf(),
                i <= ds.len(),
                j <= self.levels.len(),
                side_map(self.levels@) == delta_fold(m0, ds@.take(i as int)),
                m0 == side_map(old(self).levels@),
            decreases ds.len() - i,
        {
            let d = ds[i];
            if j > 0 && !price_before_exec(self.side, self.levels[j - 1].price, d.price) {
                j = 0;
            }
            while j < self.levels.len()
                && price_before_exec(self.side, self.levels[j].price, d.price)
                invariant
                    self.wf(),
                    j <= self.levels.len(),
                    forall|k: int|
                        0 <= k < j ==> price_before(
                            self.side,
                            (#[trigger] self.levels@[k]).price,
                            d.price,
                        ),
                decreases self.levels.len() - j,
            {
                j = j + 1;
            }
            let ghost m_prev = side_map(self.levels@);
            let ghost s_prev = self.levels@;
            if j < self.levels.len() && self.levels[j].price == d.price {
                if d.quantity != 0 {
                    proof {
                        lemma_update_level(self.side, s_prev, j as int, d.quantity);
                    }
                    self.levels.set(j, PriceLevel { price: d.price, quantity: d.quantity });
                    assert(self.levels@ =~= s_prev.update(
                        j as int,
                        PriceLevel { price: s_prev[j as int].price, quantity: d.quantity },
                    ));
                    j = j + 1;
                } else {
                    proof {
                        lemma_remove_level(self.side, s_prev, j as int);
                    }
                    self.levels.remove(j);
                }
            } else {
                assert(j == self.levels.len()
                    || price_before(self.side, d.price, self.levels@[j as int].price));
                assert forall|k: int| j <= k < self.levels@.len() implies
                    price_before(self.side, d.price, (#[trigger] self.levels@[k]).price) by {
                    assert(k == j || price_before(
                        self.side,
                        self.levels@[j as int].price,
                        self.levels@[k].price,
                    ));
                }
                if d.quantity != 0 {
                    proof {
                        lemma_insert_level(self.side, s_prev, j as int, d);
                    }
                    self.levels.insert(j, d);
                    let n = self.levels.len();
                    assert(j < n);
                    j = j + 1;
                } else {
                    proof {
                        if has_price(s_prev, d.price) {
                            let k = index_of_price(s_prev, d.price);
                            assert(0 <= k < s_prev.len() && s_prev[k].price == d.price);
                            assert(price_before(self.side, s_prev[k].price, d.price)
                                || price_before(self.side, d.price, s_prev[k].price));
                            assert(false);
                        }
                        lemma_remove_absent(s_prev, d.price);
                    }
                }
            }
            proof {
                lemma_fold_step(m0, ds@, i as int);
                assert(side_map(self.levels@) == delta_step(m_prev, d));
            }
            i = i + 1;
        }
        proof {
            assert(ds@.take(ds@.len() as int) =~= ds@);
        }
    }

    /// The best `n` levels of this side, best first; the whole side when
    /// it holds fewer than `n`.  On a well-formed side every returned
    /// level ranks strictly before every level left out.
    pub fn top(&self, n: usize) -> (r: Vec<PriceLevel>)
        ensures
            r@.len() <= n,
            r@ == self.levels@.take(if n <= self.levels@.len() {
                n as int
            } else {
                self.levels@.len() as int
            }),
            self.wf() ==> forall|a: int, b: int|
                0 <= a < r@.len() && r@.len() <= b < self.levels@.len() ==> price_before(
                    self.side,
                    (#[trigger] r@[a]).price,
                    (#[trigger] self.levels@[b]).price,
                ),
    {
        let m: usize = if n <= self.levels.len() {
            n
        } else {
            self.levels.len()
        };
        let mut r: Vec<PriceLevel> = Vec::new();
        let mut t: usize = 0;
        while t < m
            invariant
                t <= m,
                m <= self.levels@.len(),
                r@ == self.levels@.take(t as int),
            decreases m - t,
        {
            r.push(self.levels[t]);
            assert(r@ =~= self.levels@.take(t as int + 1));
            t = t + 1;
        }
        r
    }
}

/// The whole book: one ask side and one bid side, and whether a
/// snapshot has seeded it yet.
pub struct OrderBook {
    pub asks: BookSide,
    pub bids: BookSide,
    pub seeded: bool,
}

impl OrderBook {
    /// Both sides well formed and on their proper halves.
    pub open spec fn wf(&self) -> bool {
        &&& self.asks.wf()
        &&& self.bids.wf()
        &&& self.asks.side == Side::Ask
        &&& self.bids.side == Side::Bid
    }

    /// An empty book; `top` may be called before any snapshot arrives
    /// and then reports two empty sides.
    pub fn new() -> (r: OrderBook)
        ensures
            r.wf(),
            r.asks.levels@.len() == 0,
            r.bids.levels@.len() == 0,
            !r.seeded,
    {
        OrderBook {
            asks: BookSide::new(Side::Ask),
            bids: BookSide::new(Side::Bid),
            seeded: false,
        }
    }

    /// Replaces both sides wholesale with the given lists.  Each list is
    /// read as a batch over an empty side, so it is sorted into the
    /// side's order, a later duplicate price overrides an earlier one,
    /// and zero-quantity entries are dropped.  Nothing of the prior
    /// state survives: the outcome names only the arguments.
    pub fn apply_snapshot(&mut self, asks: &Vec<PriceLevel>, bids: &Vec<PriceLevel>)
        requires
            old(self).wf(),
        ensures
            final(self).wf(),
            final(self).seeded,
            final(self).asks.contents() == delta_fold(Map::<u64, u64>::empty(), asks@),
            final(self).bids.contents() == delta_fold(Map::<u64, u64>::empty(), bids@),
    {
        self.asks.clear();
        self.bids.clear();
        self.asks.apply_deltas(asks);
        self.bids.apply_deltas(bids);
        self.seeded = true;
    }

    /// Applies one delta batch to each side; the sides are independent.
    pub fn apply_delta(&mut self, asks: &Vec<PriceLevel>, bids: &Vec<PriceLevel>)
        requires
            old(self).wf(),
        ensures
            final(self).wf(),
            final(self).seeded == old(self).seeded,
            final(self).asks.contents() == delta_fold(old(self).asks.contents(), asks@),
            final(self).bids.contents() == delta_fold(old(self).bids.contents(), bids@),
    {
        self.asks.apply_deltas(asks);
        self.bids.apply_deltas(bids);
    }

    /// Up to `n` best levels from each side, best first, asks then bids;
    /// a read-only view of the sorted prefixes.
    pub fn top(&self, n: usize) -> (r: (Vec<PriceLevel>, Vec<PriceLevel>))
        ensures
            r.0@.len() <= n,
            r.1@.len() <= n,
            r.0@ == self.asks.levels@.take(if n <= self.asks.levels@.len() {
                n as int
            } else {
                self.asks.levels@.len() as int
            }),
            r.1@ == self.bids.levels@.take(if n <= self.bids.levels@.len() {
                n as int
            } else {
                self.bids.levels@.len() as int
            }),
            self.wf() ==> forall|a: int, b: int|
                0 <= a < r.0@.len() && r.0@.len() <= b < self.asks.levels@.len() ==> price_before(
                    Side::Ask,
                    (#[trigger] r.0@[a]).price,
                    (#[trigger] self.asks.levels@[b]).price,
                ),
            self.wf() ==> forall|a: int, b: int|
                0 <= a < r.1@.len() && r.1@.len() <= b < self.bids.levels@.len() ==> price_before(
                    Side::Bid,
                    (#[trigger] r.1@[a]).price,
                    (#[trigger] self.bids.levels@[b]).price,
                ),
    {
        (self.asks.top(n), self.bids.top(n))
    }
}

} // verus!
