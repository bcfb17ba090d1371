//! Laws of the reconciliation algebra, stated over the same spec
//! functions the book's contracts use.
//!
//! The central fact is that a well-formed side is determined by the map
//! it denotes; the batch laws (replay idempotence, single-entry
//! deletion) then carry over from maps to whole sides.

use vstd::prelude::*;
use vstd::map::*;
use crate::book::delta_fold;
use crate::book::delta_step;
use crate::book::has_price;
use crate::book::index_of_price;
use crate::book::lemma_index_at;
use crate::book::lemma_remove_level;
use crate::book::price_before;
use crate::book::side_map;
use crate::book::side_wf;
use crate::book::PriceLevel;
use crate::book::Side;

verus! {

/// Some entry of the batch speaks of price `k`.
pub open spec fn touches(ds: Seq<PriceLevel>, k: u64) -> bool {
    exists|i: int| 0 <= i < ds.len() && (#[trigger] ds[i]).price == k
}

/// A batch leaves every price it never names exactly as it found it.
pub proof fn lemma_fold_untouched(m: Map<u64, u64>, ds: Seq<PriceLevel>, k: u64)
    requires
        !touches(ds, k),
    ensures
        delta_fold(m, ds).dom().contains(k) <==> m.dom().contains(k),
        m.dom().contains(k) ==> delta_fold(m, ds)[k] == m[k],
    decreases ds.len(),
{
    if ds.len() > 0 {
        let head = ds.drop_last();
        assert forall|i: int| 0 <= i < head.len() implies (#[trigger] head[i]).price != k by {
            assert(head[i] == ds[i]);
        }
        assert(!touches(head, k));
        lemma_fold_untouched(m, head, k);
        assert(ds.last().price != k) by {
            assert(ds[ds.len() - 1] == ds.last());
        }
    }
}

/// At a price some entry names, the outcome of a batch does not depend
/// on the side it started from.
pub proof fn lemma_fold_touched(m1: Map<u64, u64>, m2: Map<u64, u64>, ds: Seq<PriceLevel>, k: u64)
    requires
        touches(ds, k),
    ensures
        delta_fold(m1, ds).dom().contains(k) <==> delta_fold(m2, ds).dom().contains(k),
        delta_fold(m1, ds).dom().contains(k) ==> delta_fold(m1, ds)[k] == delta_fold(m2, ds)[k],
    decreases ds.len(),
{
    let head = ds.drop_last();
    let d = ds.last();
    if d.price == k {
    } else {
        let i = choose|i: int| 0 <= i < ds.len() && (#[trigger] ds[i]).price == k;
        assert(i < ds.len() - 1);
        assert(head[i] == ds[i]);
        assert(touches(head, k));
        lemma_fold_touched(m1, m2, head, k);
    }
}

/// A well-formed side is determined by the map it denotes: two sorted,
/// duplicate-free, sentinel-free level lists with one map are one list.
pub proof fn lemma_side_map_determines(side: Side, s1: Seq<PriceLevel>, s2: Seq<PriceLevel>)
    requires
        side_wf(side, s1),
        side_wf(side, s2),
        side_map(s1) == side_map(s2),
    ensures
        s1 == s2,
    decreases s1.len(),
{
    if s1.len() == 0 {
        if s2.len() > 0 {
            assert(has_price(s2, s2[0].price));
            assert(side_map(s2).dom().contains(s2[0].price));
            assert(has_price(s1, s2[0].price));
            assert(false);
        }
        assert(s1 =~= s2);
    } else if s2.len() == 0 {
        assert(has_price(s1, s1[0].price));
        assert(side_map(s1).dom().contains(s1[0].price));
        assert(has_price(s2, s1[0].price));
        assert(false);
    } else {
        let p1 = s1[0].price;
        let p2 = s2[0].price;
        assert(has_price(s1, p1));
        assert(side_map(s1).dom().contains(p1));
        assert(has_price(s2, p1));
        let i = choose|i: int| 0 <= i < s2.len() && (#[trigger] s2[i]).price == p1;
        assert(has_price(s2, p2));
        assert(side_map(s2).dom().contains(p2));
        assert(has_price(s1, p2));
        let j = choose|j: int| 0 <= j < s1.len() && (#[trigger] s1[j]).price == p2;
        if i > 0 && j > 0 {
            assert(price_before(side, s2[0].price, s2[i].price));
            assert(price_before(side, s1[0].price, s1[j].price));
            assert(false);
        }
        assert(p1 == p2);
        assert(s1[0].quantity == s2[0].quantity) by {
            lemma_index_at(side, s1, 0);
            lemma_index_at(side, s2, 0);
            assert(side_map(s1)[p1] == s1[0].quantity);
            assert(side_map(s2)[p1] == s2[0].quantity);
        }
        lemma_remove_level(side, s1, 0);
        lemma_remove_level(side, s2, 0);
        lemma_side_map_determines(side, s1.remove(0), s2.remove(0));
        s1.remove_ensures(0);
        s2.remove_ensures(0);
        assert forall|t: int| 0 <= t < s1.len() implies s1[t] == s2[t] by {
            if t > 0 {
                assert(s1.remove(0)[t - 1] == s1[t]);
                assert(s2.remove(0)[t - 1] == s2[t]);
            }
        }
        assert(s1 =~= s2);
    }
}

/// Replaying a batch on a map that already absorbed it changes nothing.
pub proof fn lemma_fold_idempotent(m: Map<u64, u64>, ds: Seq<PriceLevel>)
    ensures
        delta_fold(delta_fold(m, ds), ds) == delta_fold(m, ds),
{
    let f1 = delta_fold(m, ds);
    let f2 = delta_fold(f1, ds);
    assert_maps_equal!(f2, f1, k => {
        if touches(ds, k) {
            lemma_fold_touched(f1, m, ds, k);
        } else {
            lemma_fold_untouched(f1, ds, k);
        }
    });
}

/// Applying the same delta batch twice in immediate succession yields
/// the same side as applying it once: `once` is a side that absorbed
/// the batch, `twice` the same side after the batch came again, and
/// they are equal level for level.
pub proof fn lemma_merge_idempotent(
    side: Side,
    s0: Seq<PriceLevel>,
    once: Seq<PriceLevel>,
    twice: Seq<PriceLevel>,
    ds: Seq<PriceLevel>,
)
    requires
        side_wf(side, once),
        side_wf(side, twice),
        side_map(once) == delta_fold(side_map(s0), ds),
        side_map(twice) == delta_fold(side_map(once), ds),
    ensures
        twice == once,
{
    lemma_fold_idempotent(side_map(s0), ds);
    lemma_side_map_determines(side, twice, once);
}

/// A deletion delta at a price present on the side removes exactly that
/// level and no other: the side after the batch is the side before it
/// with that single entry taken out.
pub proof fn lemma_delete_removes_one(
    side: Side,
    s: Seq<PriceLevel>,
    t: Seq<PriceLevel>,
    p: u64,
)
    requires
        side_wf(side, s),
        side_wf(side, t),
        has_price(s, p),
        side_map(t) == delta_fold(side_map(s), seq![PriceLevel { price: p, quantity: 0 }]),
    ensures
        t == s.remove(index_of_price(s, p)),
{
    let d = PriceLevel { price: p, quantity: 0 };
    let ds = seq![d];
    assert(ds.drop_last().len() == 0);
    assert(ds.last() == d);
    assert(delta_fold(side_map(s), ds.drop_last()) == side_map(s));
    assert(delta_fold(side_map(s), ds)
        == delta_step(delta_fold(side_map(s), ds.drop_last()), d));
    assert(delta_fold(side_map(s), ds) == side_map(s).remove(p));
    let j = index_of_price(s, p);
    assert(0 <= j < s.len() && s[j].price == p);
    lemma_remove_level(side, s, j);
    lemma_side_map_determines(side, t, s.remove(j));
}

} // verus!
