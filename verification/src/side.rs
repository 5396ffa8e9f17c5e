//! The bid and ask sides of the order book: price levels kept in price order,
//! with an index from order id to price.

use vstd::prelude::*;
use crate::external::{fnv_insert, fnv_get, fnv_remove, fnv_len};
use crate::order::{
    Order, OrderId, OrderSide, Price, Quantity, total_remaining, ids_unique, contains_id,
    position_of_id, lemma_position_of_id, lemma_total_remaining_push, lemma_total_remaining_remove,
    lemma_total_remaining_bound, lemma_total_remaining_update, lemma_total_remaining_single,
};
use crate::price_level::{PriceLevel, PriceLevelData};

verus! {

broadcast use vstd::std_specs::hash::group_hash_axioms;

/// The contents of one side of the book: its price levels in ascending price
/// order, each with its orders in time priority.
pub type DepthView = Seq<(Price, Seq<Order>)>;

/// Prices strictly increase along the levels.
pub open spec fn prices_ascending(v: DepthView) -> bool {
    forall|i: int, j: int| 0 <= i < j < v.len() ==> #[trigger] v[i].0 < #[trigger] v[j].0
}

/// Total remaining quantity over all levels.
pub open spec fn depth_total(v: DepthView) -> nat
    decreases v.len(),
{
    if v.len() == 0 {
        0
    } else {
        depth_total(v.drop_last()) + total_remaining(v.last().1)
    }
}

/// Number of levels priced below `p`.
pub open spec fn levels_below(v: DepthView, p: Price) -> nat
    decreases v.len(),
{
    if v.len() == 0 {
        0
    } else {
        levels_below(v.drop_last(), p) + if v.last().0 < p { 1nat } else { 0nat }
    }
}

/// Some level has price `p`.
pub open spec fn has_level(v: DepthView, p: Price) -> bool {
    exists|i: int| 0 <= i < v.len() && #[trigger] v[i].0 == p
}

/// The number of orders at the level priced `price`, 0 if there is none.
pub open spec fn level_size(v: DepthView, price: Price) -> nat {
    if has_level(v, price) {
        v[levels_below(v, price) as int].1.len()
    } else {
        0
    }
}

/// Some level holds an order with the id.
pub open spec fn depth_contains_id(v: DepthView, id: OrderId) -> bool {
    exists|i: int| 0 <= i < v.len() && #[trigger] contains_id(v[i].1, id)
}

/// The level holding an order with the id.
pub open spec fn level_of_id(v: DepthView, id: OrderId) -> int {
    choose|i: int| 0 <= i < v.len() && #[trigger] contains_id(v[i].1, id)
}

/// The order with the id.
pub open spec fn order_of_id(v: DepthView, id: OrderId) -> Order {
    let i = level_of_id(v, id);
    v[i].1[position_of_id(v[i].1, id)]
}

/// The side after `order` joins the back of the level at its price,
/// which is created in price order if it does not exist.
pub open spec fn depth_added(v: DepthView, order: Order) -> DepthView {
    let p = order.price;
    let i = levels_below(v, p) as int;
    if i < v.len() && v[i].0 == p {
        v.update(i, (p, v[i].1.push(order)))
    } else {
        v.insert(i, (p, seq![order]))
    }
}

/// The side after the order at position `k` of level `i` leaves; a level
/// left empty is dropped.
pub open spec fn depth_removed_at(v: DepthView, i: int, k: int) -> DepthView {
    if v[i].1.len() == 1 {
        v.remove(i)
    } else {
        v.update(i, (v[i].0, v[i].1.remove(k)))
    }
}

/// The side after the order with the id leaves.
pub open spec fn depth_removed(v: DepthView, id: OrderId) -> DepthView {
    let i = level_of_id(v, id);
    depth_removed_at(v, i, position_of_id(v[i].1, id))
}

/// Index of the best level: the highest price for bids, the lowest for asks.
pub open spec fn best_index(v: DepthView, side: OrderSide) -> int {
    match side {
        OrderSide::Buy => v.len() - 1,
        OrderSide::Sell => 0,
    }
}

/// The best price of a side, if it has any level.
pub open spec fn depth_best_price(v: DepthView, side: OrderSide) -> Option<Price> {
    if v.len() == 0 {
        None
    } else {
        Some(v[best_index(v, side)].0)
    }
}

/// The worst price of a side, if it has any level.
pub open spec fn depth_worst_price(v: DepthView, side: OrderSide) -> Option<Price> {
    if v.len() == 0 {
        None
    } else {
        match side {
            OrderSide::Buy => Some(v[0].0),
            OrderSide::Sell => Some(v[v.len() - 1].0),
        }
    }
}

/// The index of the `j`-th level in priority order (best price first) among `n` levels.
pub open spec fn priority_index(n: nat, side: OrderSide, j: int) -> int {
    match side {
        OrderSide::Buy => n - 1 - j,
        OrderSide::Sell => j,
    }
}

/// The summary data of a level.
pub open spec fn level_data(l: PriceLevel) -> PriceLevelData {
    PriceLevelData {
        price: l.level_price(),
        total_quantity: total_remaining(l.queued()) as u64,
        order_count: l.queued().len() as usize,
        last_updated: l.updated_at(),
    }
}

/// Number of levels priced within `[min, max]`.
pub open spec fn levels_in_range(v: DepthView, min: Price, max: Price) -> nat
    decreases v.len(),
{
    if v.len() == 0 {
        0
    } else {
        levels_in_range(v.drop_last(), min, max) + if min <= v.last().0 <= max { 1nat } else { 0nat }
    }
}

/// Total remaining quantity of the levels priced within `[min, max]`.
pub open spec fn volume_in_range(v: DepthView, min: Price, max: Price) -> nat
    decreases v.len(),
{
    if v.len() == 0 {
        0
    } else {
        volume_in_range(v.drop_last(), min, max) + if min <= v.last().0 <= max {
            total_remaining(v.last().1)
        } else {
            0
        }
    }
}

/// How far `p` lies from the best price `best`, away from the other side.
pub open spec fn distance_from_best(side: OrderSide, best: Price, p: Price) -> int {
    match side {
        OrderSide::Buy => best - p,
        OrderSide::Sell => p - best,
    }
}

/// The bucket, among `n` buckets of width `size`, of a level at price `p`:
/// its distance from the best price divided by the width, with every level
/// beyond the last bucket counted in the last bucket.
pub open spec fn bucket_of(side: OrderSide, best: Price, size: int, n: int, p: Price) -> int {
    let b = distance_from_best(side, best, p) / size;
    if b < n { b } else { n - 1 }
}

/// Total remaining quantity of the levels that fall in bucket `b` of `n`
/// buckets of width `size`.
pub open spec fn bucket_volume(v: DepthView, side: OrderSide, best: Price, size: int, n: int, b: int) -> nat
    decreases v.len(),
{
    if v.len() == 0 {
        0
    } else {
        bucket_volume(v.drop_last(), side, best, size, n, b) + if bucket_of(side, best, size, n, v.last().0) == b {
            total_remaining(v.last().1)
        } else {
            0
        }
    }
}

/// Some level falls in bucket `b` of `n` buckets of width `size`.
pub open spec fn bucket_hit(v: DepthView, side: OrderSide, best: Price, size: int, n: int, b: int) -> bool {
    exists|i: int| 0 <= i < v.len() && bucket_of(side, best, size, n, #[trigger] v[i].0) == b
}

/// The price that labels bucket `b` of width `size`.
pub open spec fn bucket_price(side: OrderSide, best: Price, size: int, b: int) -> int {
    match side {
        OrderSide::Buy => best - b * size,
        OrderSide::Sell => best + b * size,
    }
}

/// The side after the order with the id is replaced by `o`.
pub open spec fn depth_replaced(v: DepthView, id: OrderId, o: Order) -> DepthView {
    let i = level_of_id(v, id);
    v.update(i, (v[i].0, v[i].1.update(position_of_id(v[i].1, id), o)))
}

/// An updater that keeps each order's id, price and side.
pub open spec fn keeps_identity<F: FnOnce(Order) -> Order>(updater: F) -> bool {
    forall|o: Order, p: Order| #[trigger] updater.ensures((o,), p) ==>
        p.id == o.id && p.price == o.price && p.side == o.side
}

/// The ids (as 128-bit values) of the orders on a side.
pub open spec fn depth_ids(v: DepthView) -> Set<u128> {
    Set::new(|x: u128| depth_contains_id(v, OrderId(x)))
}

/// Number of orders over all levels.
pub open spec fn order_total(v: DepthView) -> nat
    decreases v.len(),
{
    if v.len() == 0 {
        0
    } else {
        order_total(v.drop_last()) + v.last().1.len()
    }
}

/// Number of orders at the levels priced within `[min, max]`.
pub open spec fn orders_in_range(v: DepthView, min: Price, max: Price) -> nat
    decreases v.len(),
{
    if v.len() == 0 {
        0
    } else {
        orders_in_range(v.drop_last(), min, max) + if min <= v.last().0 <= max {
            v.last().1.len()
        } else {
            0
        }
    }
}

/// The ids (as 128-bit values) of a sequence of orders.
pub open spec fn seq_ids(orders: Seq<Order>) -> Set<u128> {
    Set::new(|x: u128| contains_id(orders, OrderId(x)))
}

/// The `m` best levels of a side: the highest-priced ones for bids, the
/// lowest-priced ones for asks (in ascending price order, like `v`).
pub open spec fn best_levels(v: DepthView, side: OrderSide, m: int) -> DepthView {
    match side {
        OrderSide::Buy => v.subrange(v.len() - m, v.len() as int),
        OrderSide::Sell => v.subrange(0, m),
    }
}

/// Number of orders of a sequence priced within `[min, max]`.
pub open spec fn count_within(orders: Seq<Order>, min: Price, max: Price) -> nat
    decreases orders.len(),
{
    if orders.len() == 0 {
        0
    } else {
        count_within(orders.drop_last(), min, max) + if min <= orders.last().price <= max { 1nat } else { 0nat }
    }
}

/// Remaining quantity of the orders of a sequence priced within `[min, max]`.
pub open spec fn remaining_within(orders: Seq<Order>, min: Price, max: Price) -> nat
    decreases orders.len(),
{
    if orders.len() == 0 {
        0
    } else {
        remaining_within(orders.drop_last(), min, max) + if min <= orders.last().price <= max {
            orders.last().remaining_quantity as nat
        } else {
            0
        }
    }
}

/// Number of orders on a side priced within `[min, max]`, counted order by
/// order.
pub open spec fn side_orders_within(v: DepthView, min: Price, max: Price) -> nat
    decreases v.len(),
{
    if v.len() == 0 {
        0
    } else {
        side_orders_within(v.drop_last(), min, max) + count_within(v.last().1, min, max)
    }
}

/// Remaining quantity of the orders on a side priced within `[min, max]`,
/// counted order by order.
pub open spec fn side_volume_within(v: DepthView, min: Price, max: Price) -> nat
    decreases v.len(),
{
    if v.len() == 0 {
        0
    } else {
        side_volume_within(v.drop_last(), min, max) + remaining_within(v.last().1, min, max)
    }
}

/// Well-formed contents: prices ascending, no empty level, every order at its
/// level's price and on the side, ids unique across the side.
pub open spec fn depth_wf(v: DepthView, side: OrderSide) -> bool {
    &&& prices_ascending(v)
    &&& forall|i: int| 0 <= i < v.len() ==> (#[trigger] v[i]).1.len() > 0
    &&& forall|i: int, k: int| 0 <= i < v.len() && 0 <= k < v[i].1.len() ==>
        (#[trigger] v[i].1[k]).price == v[i].0 && v[i].1[k].side == side
    &&& forall|i: int, j: int, k: int, l: int|
        0 <= i < v.len() && 0 <= j < v.len() && 0 <= k < v[i].1.len() && 0 <= l < v[j].1.len()
            && (i != j || k != l) ==> #[trigger] v[i].1[k].id != #[trigger] v[j].1[l].id
}

/// In ascending levels, the levels below `p` are exactly those before
/// index `levels_below(v, p)`.
pub proof fn lemma_levels_below(v: DepthView, p: Price)
    requires
        prices_ascending(v),
    ensures
        levels_below(v, p) <= v.len(),
        forall|j: int| 0 <= j < levels_below(v, p) ==> #[trigger] v[j].0 < p,
        forall|j: int| levels_below(v, p) <= j < v.len() ==> #[trigger] v[j].0 >= p,
    decreases v.len(),
{
    if v.len() > 0 {
        let w = v.drop_last();
        assert(prices_ascending(w)) by {
            assert forall|i: int, j: int| 0 <= i < j < w.len() implies #[trigger] w[i].0 < #[trigger] w[j].0 by {
                assert(w[i] == v[i] && w[j] == v[j]);
            }
        }
        lemma_levels_below(w, p);
        if v.last().0 < p {
            assert forall|j: int| 0 <= j < v.len() - 1 implies #[trigger] v[j].0 < p by {
                assert(v[j] == w[j]);
                assert(v[j].0 < v[v.len() - 1].0);
            }
        } else {
            assert forall|j: int| levels_below(w, p) <= j < v.len() - 1 implies #[trigger] v[j].0 >= p by {
                assert(v[j] == w[j]);
            }
        }
        assert forall|j: int| 0 <= j < levels_below(w, p) implies #[trigger] v[j].0 < p by {
            assert(v[j] == w[j]);
        }
    }
}

/// A level with price `p` exists exactly at index `levels_below(v, p)`.
pub proof fn lemma_has_level(v: DepthView, p: Price)
    requires
        prices_ascending(v),
    ensures
        has_level(v, p) <==> (levels_below(v, p) < v.len() && v[levels_below(v, p) as int].0 == p),
{
    lemma_levels_below(v, p);
    if has_level(v, p) {
        let i = choose|i: int| 0 <= i < v.len() && #[trigger] v[i].0 == p;
        assert(v[i].0 == p);
    }
}

/// The total over a concatenation is the sum of the totals.
pub proof fn lemma_depth_total_concat(a: DepthView, b: DepthView)
    ensures
        depth_total(a + b) == depth_total(a) + depth_total(b),
    decreases b.len(),
{
    if b.len() == 0 {
        assert(a + b =~= a);
    } else {
        lemma_depth_total_concat(a, b.drop_last());
        assert((a + b).drop_last() =~= a + b.drop_last());
    }
}

/// The total of a single level is its orders' total.
pub proof fn lemma_depth_total_single(e: (Price, Seq<Order>))
    ensures
        depth_total(seq![e]) == total_remaining(e.1),
{
    assert(seq![e].drop_last() =~= Seq::<(Price, Seq<Order>)>::empty());
    assert(depth_total(Seq::<(Price, Seq<Order>)>::empty()) == 0);
    assert(seq![e].last() == e);
}

/// The total splits around index `i`.
pub proof fn lemma_depth_total_at(v: DepthView, i: int)
    requires
        0 <= i < v.len(),
    ensures
        depth_total(v) == depth_total(v.subrange(0, i)) + total_remaining(v[i].1)
            + depth_total(v.subrange(i + 1, v.len() as int)),
{
    let a = v.subrange(0, i);
    let b = v.subrange(i + 1, v.len() as int);
    assert(v =~= a + (seq![v[i]] + b));
    lemma_depth_total_concat(a, seq![v[i]] + b);
    lemma_depth_total_concat(seq![v[i]], b);
    lemma_depth_total_single(v[i]);
}

/// Replacing level `i` changes the total by the difference of the levels' totals.
pub proof fn lemma_depth_total_update(v: DepthView, i: int, e: (Price, Seq<Order>))
    requires
        0 <= i < v.len(),
    ensures
        depth_total(v.update(i, e)) + total_remaining(v[i].1) == depth_total(v) + total_remaining(e.1),
{
    lemma_depth_total_at(v, i);
    lemma_depth_total_at(v.update(i, e), i);
    assert(v.update(i, e).subrange(0, i) =~= v.subrange(0, i));
    assert(v.update(i, e).subrange(i + 1, v.len() as int) =~= v.subrange(i + 1, v.len() as int));
}

/// Inserting a level adds its total.
pub proof fn lemma_depth_total_insert(v: DepthView, i: int, e: (Price, Seq<Order>))
    requires
        0 <= i <= v.len(),
    ensures
        depth_total(v.insert(i, e)) == depth_total(v) + total_remaining(e.1),
{
    let a = v.subrange(0, i);
    let b = v.subrange(i, v.len() as int);
    assert(v =~= a + b);
    assert(v.insert(i, e) =~= a + (seq![e] + b));
    lemma_depth_total_concat(a, b);
    lemma_depth_total_concat(a, seq![e] + b);
    lemma_depth_total_concat(seq![e], b);
    lemma_depth_total_single(e);
}

/// Removing a level takes off its total.
pub proof fn lemma_depth_total_remove(v: DepthView, i: int)
    requires
        0 <= i < v.len(),
    ensures
        depth_total(v.remove(i)) + total_remaining(v[i].1) == depth_total(v),
{
    lemma_depth_total_at(v, i);
    let a = v.subrange(0, i);
    let b = v.subrange(i + 1, v.len() as int);
    assert(v.remove(i) =~= a + b);
    lemma_depth_total_concat(a, b);
}

/// A prefix's total is part of the whole total.
pub proof fn lemma_depth_total_prefix(v: DepthView, j: int)
    requires
        0 <= j <= v.len(),
    ensures
        depth_total(v.subrange(0, j)) <= depth_total(v),
{
    lemma_depth_total_concat(v.subrange(0, j), v.subrange(j, v.len() as int));
    assert(v =~= v.subrange(0, j) + v.subrange(j, v.len() as int));
}

/// The volume within a price range is part of the total.
pub proof fn lemma_volume_in_range_bound(v: DepthView, min: Price, max: Price)
    ensures
        volume_in_range(v, min, max) <= depth_total(v),
    decreases v.len(),
{
    if v.len() > 0 {
        lemma_volume_in_range_bound(v.drop_last(), min, max);
    }
}

/// A bucket's volume is part of the total.
pub proof fn lemma_bucket_volume_bound(v: DepthView, side: OrderSide, best: Price, size: int, n: int, b: int)
    ensures
        bucket_volume(v, side, best, size, n, b) <= depth_total(v),
    decreases v.len(),
{
    if v.len() > 0 {
        lemma_bucket_volume_bound(v.drop_last(), side, best, size, n, b);
    }
}

/// Extending a prefix by one level.
pub proof fn lemma_prefix_step(v: DepthView, j: int)
    requires
        0 <= j < v.len(),
    ensures
        v.subrange(0, j + 1).drop_last() == v.subrange(0, j),
        v.subrange(0, j + 1).last() == v[j],
{
    assert(v.subrange(0, j + 1).drop_last() =~= v.subrange(0, j));
}

/// One more level added to the prefix `0..j` feeds exactly one bucket.
pub proof fn lemma_bucket_step(v: DepthView, side: OrderSide, best: Price, size: int, n: int, j: int)
    requires
        0 <= j < v.len(),
    ensures
        forall|t: int| {
            &&& #[trigger] bucket_volume(v.subrange(0, j + 1), side, best, size, n, t)
                == bucket_volume(v.subrange(0, j), side, best, size, n, t)
                    + if bucket_of(side, best, size, n, v[j].0) == t { total_remaining(v[j].1) } else { 0 }
            &&& bucket_hit(v.subrange(0, j + 1), side, best, size, n, t)
                == (bucket_hit(v.subrange(0, j), side, best, size, n, t) || bucket_of(side, best, size, n, v[j].0) == t)
        },
{
    let pv = v.subrange(0, j);
    let nv = v.subrange(0, j + 1);
    lemma_prefix_step(v, j);
    assert forall|t: int| bucket_hit(nv, side, best, size, n, t)
        == (bucket_hit(pv, side, best, size, n, t) || bucket_of(side, best, size, n, v[j].0) == t) by {
        if bucket_hit(pv, side, best, size, n, t) {
            let i = choose|i: int| 0 <= i < pv.len() && bucket_of(side, best, size, n, #[trigger] pv[i].0) == t;
            assert(nv[i] == pv[i]);
        }
        if bucket_hit(nv, side, best, size, n, t) {
            let i = choose|i: int| 0 <= i < nv.len() && bucket_of(side, best, size, n, #[trigger] nv[i].0) == t;
            if i < j {
                assert(nv[i] == pv[i]);
            }
        }
        if bucket_of(side, best, size, n, v[j].0) == t {
            assert(nv[j] == v[j]);
            assert(bucket_of(side, best, size, n, nv[j].0) == t);
        }
    }
}

/// Replacing an order by one with the same id, price and side keeps the
/// side well formed.
pub proof fn lemma_replaced(v: DepthView, side: OrderSide, i: int, k: int, p: Order)
    requires
        depth_wf(v, side),
        0 <= i < v.len(),
        0 <= k < v[i].1.len(),
        p.id == v[i].1[k].id,
        p.price == v[i].1[k].price,
        p.side == v[i].1[k].side,
    ensures
        depth_wf(v.update(i, (v[i].0, v[i].1.update(k, p))), side),
{
    let w = v.update(i, (v[i].0, v[i].1.update(k, p)));
    assert forall|a: int, b: int, m: int, l: int|
        0 <= a < w.len() && 0 <= b < w.len() && 0 <= m < w[a].1.len() && 0 <= l < w[b].1.len()
            && (a != b || m != l) implies #[trigger] w[a].1[m].id != #[trigger] w[b].1[l].id by {
        assert(w[a].1[m].id == v[a].1[m].id);
        assert(w[b].1[l].id == v[b].1[l].id);
    }
    assert forall|j: int, l: int| 0 <= j < w.len() && 0 <= l < w[j].1.len() implies
        (#[trigger] w[j].1[l]).price == w[j].0 && w[j].1[l].side == side by {
        if j == i && l == k {
        } else {
            assert(w[j].1[l] == v[j].1[l]);
        }
    }
}

/// A level's total is part of the side's total.
pub proof fn lemma_depth_total_bound(v: DepthView, i: int)
    requires
        0 <= i < v.len(),
    ensures
        total_remaining(v[i].1) <= depth_total(v),
{
    lemma_depth_total_at(v, i);
}

/// The order at position `k` of level `i` is the one `level_of_id` and
/// `position_of_id` find by its id.
pub proof fn lemma_locate(v: DepthView, side: OrderSide, i: int, k: int)
    requires
        depth_wf(v, side),
        0 <= i < v.len(),
        0 <= k < v[i].1.len(),
    ensures
        depth_contains_id(v, v[i].1[k].id),
        level_of_id(v, v[i].1[k].id) == i,
        position_of_id(v[i].1, v[i].1[k].id) == k,
        order_of_id(v, v[i].1[k].id) == v[i].1[k],
{
    let id = v[i].1[k].id;
    assert(contains_id(v[i].1, id));
    assert(depth_contains_id(v, id));
    let j = level_of_id(v, id);
    assert(0 <= j < v.len() && contains_id(v[j].1, id));
    let l = choose|l: int| 0 <= l < v[j].1.len() && #[trigger] v[j].1[l].id == id;
    assert(v[j].1[l].id == v[i].1[k].id);
    assert(j == i);
    assert(ids_unique(v[i].1)) by {
        assert forall|a: int, b: int| 0 <= a < v[i].1.len() && 0 <= b < v[i].1.len() && a != b
            implies #[trigger] v[i].1[a].id != #[trigger] v[i].1[b].id by {
            assert(v[i].1[a].id != v[i].1[b].id);
        }
    }
    lemma_position_of_id(v[i].1, id, k);
}

/// Adding an order keeps the side well formed, adds its quantity to the
/// total, and adds its id.
#[verifier::spinoff_prover]
#[verifier::rlimit(60)]
pub proof fn lemma_added(v: DepthView, side: OrderSide, o: Order)
    requires
        depth_wf(v, side),
        o.side == side,
        !depth_contains_id(v, o.id),
    ensures
        depth_wf(depth_added(v, o), side),
        depth_total(depth_added(v, o)) == depth_total(v) + o.remaining_quantity,
        forall|id: OrderId| depth_contains_id(depth_added(v, o), id) <==> (depth_contains_id(v, id) || id == o.id),
        has_level(depth_added(v, o), o.price),
{
    let p = o.price;
    let i = levels_below(v, p) as int;
    lemma_levels_below(v, p);
    let w = depth_added(v, o);
    assert forall|j: int, k: int| 0 <= j < v.len() && 0 <= k < v[j].1.len() implies #[trigger] v[j].1[k].id != o.id by {
        if v[j].1[k].id == o.id {
            assert(contains_id(v[j].1, o.id));
        }
    }
    if i < v.len() && v[i].0 == p {
        let q = v[i].1.push(o);
        assert(w == v.update(i, (p, q)));
        lemma_total_remaining_push(v[i].1, o);
        lemma_depth_total_update(v, i, (p, q));
        assert forall|j: int, k: int| 0 <= j < w.len() && 0 <= k < w[j].1.len() implies
            (#[trigger] w[j].1[k]).price == w[j].0 && w[j].1[k].side == side by {
            if j == i && k == v[i].1.len() {
            } else {
                assert(w[j].1[k] == v[j].1[k]);
            }
        }
        assert forall|a: int, b: int, k: int, l: int|
            0 <= a < w.len() && 0 <= b < w.len() && 0 <= k < w[a].1.len() && 0 <= l < w[b].1.len()
                && (a != b || k != l) implies #[trigger] w[a].1[k].id != #[trigger] w[b].1[l].id by {
            let new_a = a == i && k == v[i].1.len();
            let new_b = b == i && l == v[i].1.len();
            if !new_a {
                assert(w[a].1[k] == v[a].1[k]);
            }
            if !new_b {
                assert(w[b].1[l] == v[b].1[l]);
            }
        }
        assert forall|id: OrderId| depth_contains_id(w, id) <==> (depth_contains_id(v, id) || id == o.id) by {
            if depth_contains_id(w, id) {
                let j = choose|j: int| 0 <= j < w.len() && #[trigger] contains_id(w[j].1, id);
                let k = choose|k: int| 0 <= k < w[j].1.len() && #[trigger] w[j].1[k].id == id;
                if !(j == i && k == v[i].1.len()) {
                    assert(w[j].1[k] == v[j].1[k]);
                    assert(contains_id(v[j].1, id));
                }
            }
            if depth_contains_id(v, id) {
                let j = choose|j: int| 0 <= j < v.len() && #[trigger] contains_id(v[j].1, id);
                let k = choose|k: int| 0 <= k < v[j].1.len() && #[trigger] v[j].1[k].id == id;
                assert(w[j].1[k] == v[j].1[k]);
                assert(contains_id(w[j].1, id));
            }
            if id == o.id {
                assert(w[i].1[v[i].1.len() as int] == o);
                assert(contains_id(w[i].1, id));
            }
        }
        assert(w[i].0 == p);
    } else {
        let e = (p, seq![o]);
        assert(w == v.insert(i, e));
        lemma_depth_total_insert(v, i, e);
        lemma_total_remaining_single(o);
        assert forall|a: int, b: int| 0 <= a < b < w.len() implies #[trigger] w[a].0 < #[trigger] w[b].0 by {
            if b < i {
                assert(w[a] == v[a] && w[b] == v[b]);
            } else if b == i {
                assert(w[a] == v[a]);
            } else if a == i {
                assert(w[b] == v[b - 1]);
            } else if a < i {
                assert(w[a] == v[a] && w[b] == v[b - 1]);
            } else {
                assert(w[a] == v[a - 1] && w[b] == v[b - 1]);
            }
        }
        assert forall|j: int| 0 <= j < w.len() implies (#[trigger] w[j]).1.len() > 0 by {
            if j < i {
                assert(w[j] == v[j]);
            } else if j > i {
                assert(w[j] == v[j - 1]);
            }
        }
        assert forall|j: int, k: int| 0 <= j < w.len() && 0 <= k < w[j].1.len() implies
            (#[trigger] w[j].1[k]).price == w[j].0 && w[j].1[k].side == side by {
            if j < i {
                assert(w[j] == v[j]);
            } else if j > i {
                assert(w[j] == v[j - 1]);
            }
        }
        assert forall|a: int, b: int, k: int, l: int|
            0 <= a < w.len() && 0 <= b < w.len() && 0 <= k < w[a].1.len() && 0 <= l < w[b].1.len()
                && (a != b || k != l) implies #[trigger] w[a].1[k].id != #[trigger] w[b].1[l].id by {
            if a < i {
                assert(w[a] == v[a]);
            } else if a > i {
                assert(w[a] == v[a - 1]);
            }
            if b < i {
                assert(w[b] == v[b]);
            } else if b > i {
                assert(w[b] == v[b - 1]);
            }
            if a != i && b != i {
                let a0 = if a < i { a } else { a - 1 };
                let b0 = if b < i { b } else { b - 1 };
                assert(v[a0].1[k].id != v[b0].1[l].id);
            }
        }
        assert forall|id: OrderId| depth_contains_id(w, id) <==> (depth_contains_id(v, id) || id == o.id) by {
            if depth_contains_id(w, id) {
                let j = choose|j: int| 0 <= j < w.len() && #[trigger] contains_id(w[j].1, id);
                let k = choose|k: int| 0 <= k < w[j].1.len() && #[trigger] w[j].1[k].id == id;
                if j < i {
                    assert(w[j] == v[j]);
                    assert(contains_id(v[j].1, id));
                } else if j > i {
                    assert(w[j] == v[j - 1]);
                    assert(contains_id(v[j - 1].1, id));
                }
            }
            if depth_contains_id(v, id) {
                let j = choose|j: int| 0 <= j < v.len() && #[trigger] contains_id(v[j].1, id);
                if j < i {
                    assert(w[j] == v[j]);
                    assert(contains_id(w[j].1, id));
                } else {
                    assert(w[j + 1] == v[j]);
                    assert(contains_id(w[j + 1].1, id));
                }
            }
            if id == o.id {
                assert(w[i].1[0] == o);
                assert(contains_id(w[i].1, id));
            }
        }
        assert(w[i].0 == p);
    }
}

/// Removing the only order of level `i` drops the level.
#[verifier::spinoff_prover]
#[verifier::rlimit(60)]
proof fn lemma_removed_level(v: DepthView, side: OrderSide, i: int, k: int)
    requires
        depth_wf(v, side),
        0 <= i < v.len(),
        0 <= k < v[i].1.len(),
        v[i].1.len() == 1,
    ensures
        depth_wf(depth_removed_at(v, i, k), side),
        depth_total(depth_removed_at(v, i, k)) + v[i].1[k].remaining_quantity == depth_total(v),
        forall|id: OrderId| depth_contains_id(depth_removed_at(v, i, k), id)
            <==> (depth_contains_id(v, id) && id != v[i].1[k].id),
{
    let w = depth_removed_at(v, i, k);
    let x = v[i].1[k];
    assert(k == 0);
    assert(w == v.remove(i));
    lemma_depth_total_remove(v, i);
    lemma_total_remaining_single(x);
    assert(v[i].1 =~= seq![x]);
    assert forall|j: int| 0 <= j < w.len() implies #[trigger] w[j] == if j < i { v[j] } else { v[j + 1] } by {}
    assert forall|a: int, b: int| 0 <= a < b < w.len() implies #[trigger] w[a].0 < #[trigger] w[b].0 by {
        let a0 = if a < i { a } else { a + 1 };
        let b0 = if b < i { b } else { b + 1 };
        assert(w[a] == v[a0] && w[b] == v[b0]);
    }
    assert forall|j: int| 0 <= j < w.len() implies (#[trigger] w[j]).1.len() > 0 by {
        let j0 = if j < i { j } else { j + 1 };
        assert(w[j] == v[j0]);
    }
    assert forall|j: int, l: int| 0 <= j < w.len() && 0 <= l < w[j].1.len() implies
        (#[trigger] w[j].1[l]).price == w[j].0 && w[j].1[l].side == side by {
        let j0 = if j < i { j } else { j + 1 };
        assert(w[j] == v[j0]);
    }
    assert forall|a: int, b: int, m: int, l: int|
        0 <= a < w.len() && 0 <= b < w.len() && 0 <= m < w[a].1.len() && 0 <= l < w[b].1.len()
            && (a != b || m != l) implies #[trigger] w[a].1[m].id != #[trigger] w[b].1[l].id by {
        let a0 = if a < i { a } else { a + 1 };
        let b0 = if b < i { b } else { b + 1 };
        assert(w[a] == v[a0] && w[b] == v[b0]);
        assert(v[a0].1[m].id != v[b0].1[l].id);
    }
    assert forall|id: OrderId| depth_contains_id(w, id) <==> (depth_contains_id(v, id) && id != x.id) by {
        if depth_contains_id(w, id) {
            let j = choose|j: int| 0 <= j < w.len() && #[trigger] contains_id(w[j].1, id);
            let l = choose|l: int| 0 <= l < w[j].1.len() && #[trigger] w[j].1[l].id == id;
            let j0 = if j < i { j } else { j + 1 };
            assert(w[j] == v[j0]);
            assert(contains_id(v[j0].1, id));
            assert(v[j0].1[l].id != v[i].1[0].id);
        }
        if depth_contains_id(v, id) && id != x.id {
            let j = choose|j: int| 0 <= j < v.len() && #[trigger] contains_id(v[j].1, id);
            let l = choose|l: int| 0 <= l < v[j].1.len() && #[trigger] v[j].1[l].id == id;
            assert(j != i);
            let j1 = if j < i { j } else { j - 1 };
            assert(w[j1] == v[j]);
            assert(contains_id(w[j1].1, id));
        }
    }
}

/// Removing one of several orders of level `i` keeps the level.
#[verifier::spinoff_prover]
#[verifier::rlimit(60)]
proof fn lemma_removed_inside(v: DepthView, side: OrderSide, i: int, k: int)
    requires
        depth_wf(v, side),
        0 <= i < v.len(),
        0 <= k < v[i].1.len(),
        v[i].1.len() > 1,
    ensures
        depth_wf(depth_removed_at(v, i, k), side),
        depth_total(depth_removed_at(v, i, k)) + v[i].1[k].remaining_quantity == depth_total(v),
        forall|id: OrderId| depth_contains_id(depth_removed_at(v, i, k), id)
            <==> (depth_contains_id(v, id) && id != v[i].1[k].id),
{
    let w = depth_removed_at(v, i, k);
    let x = v[i].1[k];
    let q = v[i].1.remove(k);
    assert(w == v.update(i, (v[i].0, q)));
    lemma_total_remaining_remove(v[i].1, k);
    lemma_depth_total_update(v, i, (v[i].0, q));
    assert forall|l: int| 0 <= l < q.len() implies #[trigger] q[l] == if l < k { v[i].1[l] } else { v[i].1[l + 1] } by {}
    assert forall|j: int, l: int| 0 <= j < w.len() && 0 <= l < w[j].1.len() implies
        (#[trigger] w[j].1[l]).price == w[j].0 && w[j].1[l].side == side by {
        if j == i {
            let l0 = if l < k { l } else { l + 1 };
            assert(w[j].1[l] == v[i].1[l0]);
        }
    }
    assert forall|a: int, b: int, m: int, l: int|
        0 <= a < w.len() && 0 <= b < w.len() && 0 <= m < w[a].1.len() && 0 <= l < w[b].1.len()
            && (a != b || m != l) implies #[trigger] w[a].1[m].id != #[trigger] w[b].1[l].id by {
        let m0 = if a == i && m >= k { m + 1 } else { m };
        let l0 = if b == i && l >= k { l + 1 } else { l };
        assert(w[a].1[m] == v[a].1[m0]);
        assert(w[b].1[l] == v[b].1[l0]);
        assert(v[a].1[m0].id != v[b].1[l0].id);
    }
    assert forall|id: OrderId| depth_contains_id(w, id) <==> (depth_contains_id(v, id) && id != x.id) by {
        if depth_contains_id(w, id) {
            let j = choose|j: int| 0 <= j < w.len() && #[trigger] contains_id(w[j].1, id);
            let l = choose|l: int| 0 <= l < w[j].1.len() && #[trigger] w[j].1[l].id == id;
            let l0 = if j == i && l >= k { l + 1 } else { l };
            assert(w[j].1[l] == v[j].1[l0]);
            assert(contains_id(v[j].1, id));
            assert(v[j].1[l0].id != v[i].1[k].id);
        }
        if depth_contains_id(v, id) && id != x.id {
            let j = choose|j: int| 0 <= j < v.len() && #[trigger] contains_id(v[j].1, id);
            let l = choose|l: int| 0 <= l < v[j].1.len() && #[trigger] v[j].1[l].id == id;
            if j == i {
                assert(l != k);
                let l1 = if l < k { l } else { l - 1 };
                assert(w[j].1[l1] == v[j].1[l]);
                assert(contains_id(w[j].1, id));
            } else {
                assert(w[j] == v[j]);
                assert(contains_id(w[j].1, id));
            }
        }
    }
}

/// Removing the order at position `k` of level `i` keeps the side well
/// formed, takes its quantity off the total, and drops its id.
pub proof fn lemma_removed_at(v: DepthView, side: OrderSide, i: int, k: int)
    requires
        depth_wf(v, side),
        0 <= i < v.len(),
        0 <= k < v[i].1.len(),
    ensures
        depth_wf(depth_removed_at(v, i, k), side),
        depth_total(depth_removed_at(v, i, k)) + v[i].1[k].remaining_quantity == depth_total(v),
        forall|id: OrderId| depth_contains_id(depth_removed_at(v, i, k), id)
            <==> (depth_contains_id(v, id) && id != v[i].1[k].id),
{
    if v[i].1.len() == 1 {
        lemma_removed_level(v, side, i, k);
    } else {
        lemma_removed_inside(v, side, i, k);
    }
}

/// Adding an order adds a level exactly when its price had none, and the
/// best price becomes the better of the old best and the order's price.
pub proof fn lemma_added_shape(v: DepthView, side: OrderSide, o: Order)
    requires
        depth_wf(v, side),
        o.side == side,
        !depth_contains_id(v, o.id),
    ensures
        depth_added(v, o).len() == v.len() + if has_level(v, o.price) { 0int } else { 1int },
        depth_best_price(depth_added(v, o), side) == Some(match depth_best_price(v, side) {
            None => o.price,
            Some(best) => match side {
                OrderSide::Buy => if o.price > best { o.price } else { best },
                OrderSide::Sell => if o.price < best { o.price } else { best },
            },
        }),
{
    let p = o.price;
    let i = levels_below(v, p) as int;
    lemma_levels_below(v, p);
    lemma_has_level(v, p);
    lemma_added(v, side, o);
    let w = depth_added(v, o);
    if i < v.len() && v[i].0 == p {
        assert(w.len() == v.len());
        if v.len() > 0 {
            let b = best_index(v, side);
            assert(w[b].0 == v[b].0);
            lemma_best_is_extreme(v, side);
            assert(v[i].0 == p);
        }
    } else {
        assert(w.len() == v.len() + 1);
        assert(!has_level(v, p)) by {
            if has_level(v, p) {
                let j = choose|j: int| 0 <= j < v.len() && #[trigger] v[j].0 == p;
                if j < i { assert(v[j].0 < p); } else if j > i { assert(v[i].0 < v[j].0); assert(v[i].0 >= p); }
            }
        }
        if v.len() > 0 {
            lemma_best_is_extreme(v, side);
            match side {
                OrderSide::Buy => {
                    if i == v.len() {
                        assert(v[v.len() - 1].0 < p);
                    } else {
                        assert(w[w.len() - 1] == v[v.len() - 1]);
                        assert(v[i].0 > p);
                    }
                },
                OrderSide::Sell => {
                    if i == 0 {
                        assert(v[0].0 > p);
                    } else {
                        assert(w[0] == v[0]);
                        assert(v[i - 1].0 < p);
                    }
                },
            }
        }
    }
}

/// Adding an order whose id is new to the side and then removing it by that
/// id gives back the side as it was.
pub proof fn lemma_add_then_remove(v: DepthView, side: OrderSide, o: Order)
    requires
        depth_wf(v, side),
        o.side == side,
        !depth_contains_id(v, o.id),
    ensures
        depth_removed(depth_added(v, o), o.id) == v,
        order_of_id(depth_added(v, o), o.id) == o,
{
    let p = o.price;
    let i = levels_below(v, p) as int;
    lemma_levels_below(v, p);
    lemma_added(v, side, o);
    let w = depth_added(v, o);
    if i < v.len() && v[i].0 == p {
        let k = v[i].1.len() as int;
        assert(w[i].1[k] == o);
        lemma_locate(w, side, i, k);
        assert(w[i].1.len() > 1);
        assert(w[i].1.remove(k) =~= v[i].1);
        assert(depth_removed(w, o.id) =~= v);
    } else {
        assert(w[i].1[0] == o);
        lemma_locate(w, side, i, 0);
        assert(w.remove(i) =~= v);
    }
}

/// With unique ids, a sequence of orders has as many ids as orders.
pub proof fn lemma_seq_ids_len(orders: Seq<Order>)
    requires
        ids_unique(orders),
    ensures
        seq_ids(orders).finite(),
        seq_ids(orders).len() == orders.len(),
    decreases orders.len(),
{
    if orders.len() == 0 {
        assert(seq_ids(orders) =~= Set::<u128>::empty());
    } else {
        let front = orders.drop_last();
        let last = orders.last();
        assert(ids_unique(front)) by {
            assert forall|i: int, j: int|
                0 <= i < front.len() && 0 <= j < front.len() && i != j implies
                #[trigger] front[i].id != #[trigger] front[j].id by {
                assert(front[i] == orders[i] && front[j] == orders[j]);
            }
        }
        lemma_seq_ids_len(front);
        assert forall|x: u128| #[trigger] seq_ids(orders).contains(x) <==> seq_ids(front).insert(last.id.0).contains(x) by {
            if seq_ids(orders).contains(x) {
                let k = choose|k: int| 0 <= k < orders.len() && #[trigger] orders[k].id == OrderId(x);
                if k < front.len() {
                    assert(front[k].id == OrderId(x));
                }
            }
            if seq_ids(front).contains(x) {
                let k = choose|k: int| 0 <= k < front.len() && #[trigger] front[k].id == OrderId(x);
                assert(orders[k].id == OrderId(x));
            }
            if x == last.id.0 {
                assert(orders[orders.len() - 1].id == OrderId(x));
            }
        }
        assert(seq_ids(orders) =~= seq_ids(front).insert(last.id.0));
        assert(!seq_ids(front).contains(last.id.0)) by {
            if seq_ids(front).contains(last.id.0) {
                let k = choose|k: int| 0 <= k < front.len() && #[trigger] front[k].id == OrderId(last.id.0);
                assert(orders[k].id == orders[orders.len() - 1].id);
            }
        }
    }
}

/// On well-formed contents, the number of orders is the number of distinct
/// ids.
pub proof fn lemma_order_total(v: DepthView, side: OrderSide)
    requires
        depth_wf(v, side),
    ensures
        depth_ids(v).finite(),
        depth_ids(v).len() == order_total(v),
    decreases v.len(),
{
    if v.len() == 0 {
        assert(depth_ids(v) =~= Set::<u128>::empty());
    } else {
        let w = v.drop_last();
        let last = v.last().1;
        assert(depth_wf(w, side)) by {
            assert forall|i: int, j: int| 0 <= i < j < w.len() implies #[trigger] w[i].0 < #[trigger] w[j].0 by {
                assert(w[i] == v[i] && w[j] == v[j]);
            }
            assert forall|i: int, k: int| 0 <= i < w.len() && 0 <= k < w[i].1.len() implies
                (#[trigger] w[i].1[k]).price == w[i].0 && w[i].1[k].side == side by {
                assert(w[i] == v[i]);
            }
            assert forall|i: int, j: int, k: int, l: int|
                0 <= i < w.len() && 0 <= j < w.len() && 0 <= k < w[i].1.len() && 0 <= l < w[j].1.len()
                    && (i != j || k != l) implies #[trigger] w[i].1[k].id != #[trigger] w[j].1[l].id by {
                assert(w[i] == v[i] && w[j] == v[j]);
            }
        }
        lemma_order_total(w, side);
        let n = v.len() - 1;
        assert(ids_unique(last)) by {
            assert forall|k: int, l: int| 0 <= k < last.len() && 0 <= l < last.len() && k != l implies
                #[trigger] last[k].id != #[trigger] last[l].id by {
                assert(v[n].1[k].id != v[n].1[l].id);
            }
        }
        lemma_seq_ids_len(last);
        assert forall|x: u128| #[trigger] depth_ids(v).contains(x) <==> (depth_ids(w) + seq_ids(last)).contains(x) by {
            if depth_ids(v).contains(x) {
                let i = choose|i: int| 0 <= i < v.len() && #[trigger] contains_id(v[i].1, OrderId(x));
                if i < n {
                    assert(contains_id(w[i].1, OrderId(x)));
                }
            }
            if depth_ids(w).contains(x) {
                let i = choose|i: int| 0 <= i < w.len() && #[trigger] contains_id(w[i].1, OrderId(x));
                assert(contains_id(v[i].1, OrderId(x)));
            }
            if seq_ids(last).contains(x) {
                assert(contains_id(v[n].1, OrderId(x)));
            }
        }
        assert(depth_ids(v) =~= depth_ids(w) + seq_ids(last));
        assert(depth_ids(w).disjoint(seq_ids(last))) by {
            assert forall|x: u128| depth_ids(w).contains(x) implies !seq_ids(last).contains(x) by {
                let i = choose|i: int| 0 <= i < w.len() && #[trigger] contains_id(w[i].1, OrderId(x));
                let k = choose|k: int| 0 <= k < w[i].1.len() && #[trigger] w[i].1[k].id == OrderId(x);
                if seq_ids(last).contains(x) {
                    let l = choose|l: int| 0 <= l < last.len() && #[trigger] last[l].id == OrderId(x);
                    assert(v[i].1[k].id == v[n].1[l].id);
                }
            }
        }
        vstd::set_lib::lemma_set_disjoint_lens(depth_ids(w), seq_ids(last));
    }
}

/// The orders within a price range are part of all the orders.
pub proof fn lemma_orders_in_range_bound(v: DepthView, min: Price, max: Price)
    ensures
        orders_in_range(v, min, max) <= order_total(v),
    decreases v.len(),
{
    if v.len() > 0 {
        lemma_orders_in_range_bound(v.drop_last(), min, max);
    }
}

/// A prefix of the levels holds no more orders than all of them.
pub proof fn lemma_order_total_prefix(v: DepthView, j: int)
    requires
        0 <= j <= v.len(),
    ensures
        order_total(v.subrange(0, j)) <= order_total(v),
    decreases v.len() - j,
{
    if j < v.len() {
        lemma_order_total_prefix(v, j + 1);
        lemma_prefix_step(v, j);
    } else {
        assert(v.subrange(0, j) =~= v);
    }
}

/// Removing an order by an id that is on the side keeps the contents well
/// formed, takes exactly that id off, and takes its quantity off the total.
pub proof fn lemma_removed(v: DepthView, side: OrderSide, id: OrderId)
    requires
        depth_wf(v, side),
        depth_contains_id(v, id),
    ensures
        depth_wf(depth_removed(v, id), side),
        depth_total(depth_removed(v, id)) + order_of_id(v, id).remaining_quantity == depth_total(v),
        forall|x: OrderId| depth_contains_id(depth_removed(v, id), x) <==> (depth_contains_id(v, x) && x != id),
        order_of_id(v, id).id == id,
{
    let i = level_of_id(v, id);
    assert(0 <= i < v.len() && contains_id(v[i].1, id));
    let k = position_of_id(v[i].1, id);
    assert(0 <= k < v[i].1.len() && v[i].1[k].id == id);
    lemma_removed_at(v, side, i, k);
}

/// The best price of a non-empty side is its highest bid or its lowest ask.
pub proof fn lemma_best_is_extreme(v: DepthView, side: OrderSide)
    requires
        depth_wf(v, side),
        v.len() > 0,
    ensures
        forall|i: int| 0 <= i < v.len() ==> match side {
            OrderSide::Buy => #[trigger] v[i].0 <= depth_best_price(v, side)->0,
            OrderSide::Sell => depth_best_price(v, side)->0 <= v[i].0,
        },
{
    assert forall|i: int| 0 <= i < v.len() implies match side {
        OrderSide::Buy => #[trigger] v[i].0 <= depth_best_price(v, side)->0,
        OrderSide::Sell => depth_best_price(v, side)->0 <= v[i].0,
    } by {
        let b = best_index(v, side);
        if i != b {
            if i < b {
                assert(v[i].0 < v[b].0);
            } else {
                assert(v[b].0 < v[i].0);
            }
        }
    }
}

/// In priority order, prices strictly fall along the bids and strictly rise
/// along the asks.
pub proof fn lemma_priority_order(v: DepthView, side: OrderSide, a: int, b: int)
    requires
        depth_wf(v, side),
        0 <= a < b < v.len(),
    ensures
        match side {
            OrderSide::Buy => v[priority_index(v.len(), side, a)].0 > v[priority_index(v.len(), side, b)].0,
            OrderSide::Sell => v[priority_index(v.len(), side, a)].0 < v[priority_index(v.len(), side, b)].0,
        },
{
    let ia = priority_index(v.len(), side, a);
    let ib = priority_index(v.len(), side, b);
    match side {
        OrderSide::Buy => { assert(v[ib].0 < v[ia].0); },
        OrderSide::Sell => { assert(v[ia].0 < v[ib].0); },
    }
}

/// Taking one more of the best levels adds the volume of the next level in
/// priority order; the best levels never hold more than the whole side.
pub proof fn lemma_best_levels_step(v: DepthView, side: OrderSide, j: int)
    requires
        0 <= j < v.len(),
    ensures
        depth_total(best_levels(v, side, j + 1))
            == depth_total(best_levels(v, side, j)) + total_remaining(v[priority_index(v.len(), side, j)].1),
        depth_total(best_levels(v, side, j + 1)) <= depth_total(v),
        best_levels(v, side, 0).len() == 0,
{
    let n = v.len() as int;
    assert(best_levels(v, side, 0) =~= Seq::<(Price, Seq<Order>)>::empty());
    match side {
        OrderSide::Buy => {
            let i = n - 1 - j;
            let head = v.subrange(i, i + 1);
            let tail = v.subrange(n - j, n);
            assert(best_levels(v, side, j + 1) =~= head + tail);
            lemma_depth_total_concat(head, tail);
            assert(head =~= seq![v[i]]);
            lemma_depth_total_single(v[i]);
            lemma_depth_total_concat(v.subrange(0, i), v.subrange(i, n));
            assert(v =~= v.subrange(0, i) + v.subrange(i, n));
        },
        OrderSide::Sell => {
            lemma_prefix_step(v, j);
            lemma_depth_total_prefix(v, j + 1);
        },
    }
}

/// The volume of buckets `0..k` of `n` buckets of width `size`.
pub open spec fn buckets_total(v: DepthView, side: OrderSide, best: Price, size: int, n: int, k: int) -> nat
    decreases k,
{
    if k <= 0 {
        0
    } else {
        buckets_total(v, side, best, size, n, k - 1) + bucket_volume(v, side, best, size, n, k - 1)
    }
}

/// Adding a level to the buckets adds its volume to the bucket it falls in.
proof fn lemma_buckets_total_step(w: DepthView, e: (Price, Seq<Order>), side: OrderSide, best: Price, size: int, n: int, k: int)
    ensures
        buckets_total(w.push(e), side, best, size, n, k) == buckets_total(w, side, best, size, n, k)
            + if 0 <= bucket_of(side, best, size, n, e.0) < k { total_remaining(e.1) } else { 0 },
    decreases k,
{
    let v = w.push(e);
    assert(v.drop_last() =~= w);
    if k > 0 {
        lemma_buckets_total_step(w, e, side, best, size, n, k - 1);
    }
}

/// When every level lies at or beyond the best price, the buckets together
/// hold the whole volume of the side: each level falls in exactly one of
/// them.
pub proof fn lemma_buckets_cover(v: DepthView, side: OrderSide, best: Price, size: int, n: int)
    requires
        size >= 1,
        n >= 1,
        forall|i: int| 0 <= i < v.len() ==> distance_from_best(side, best, #[trigger] v[i].0) >= 0,
    ensures
        buckets_total(v, side, best, size, n, n) == depth_total(v),
    decreases v.len(),
{
    if v.len() == 0 {
        assert forall|k: int| 0 <= k implies #[trigger] buckets_total(v, side, best, size, n, k) == 0 by {
            lemma_buckets_total_empty(v, side, best, size, n, k);
        }
    } else {
        let w = v.drop_last();
        let e = v.last();
        assert(w.push(e) =~= v);
        assert forall|i: int| 0 <= i < w.len() implies distance_from_best(side, best, #[trigger] w[i].0) >= 0 by {
            assert(w[i] == v[i]);
        }
        lemma_buckets_cover(w, side, best, size, n);
        lemma_buckets_total_step(w, e, side, best, size, n, n);
        assert(distance_from_best(side, best, v[v.len() - 1].0) >= 0);
        let d = distance_from_best(side, best, e.0);
        assert(d / size >= 0) by (nonlinear_arith) requires d >= 0, size >= 1;
    }
}

/// The volume distribution of a side, counted from its best price, holds the
/// side's whole volume.
pub proof fn lemma_distribution_covers(v: DepthView, side: OrderSide, size: int, n: int)
    requires
        depth_wf(v, side),
        v.len() > 0,
        size >= 1,
        n >= 1,
    ensures
        buckets_total(v, side, depth_best_price(v, side)->0, size, n, n) == depth_total(v),
{
    let best = depth_best_price(v, side)->0;
    lemma_best_is_extreme(v, side);
    assert forall|i: int| 0 <= i < v.len() implies distance_from_best(side, best, #[trigger] v[i].0) >= 0 by {
        assert(match side {
            OrderSide::Buy => v[i].0 <= best,
            OrderSide::Sell => best <= v[i].0,
        });
    }
    lemma_buckets_cover(v, side, best, size, n);
}

/// An empty side has empty buckets.
proof fn lemma_buckets_total_empty(v: DepthView, side: OrderSide, best: Price, size: int, n: int, k: int)
    requires
        v.len() == 0,
    ensures
        buckets_total(v, side, best, size, n, k) == 0,
    decreases k,
{
    if k > 0 {
        lemma_buckets_total_empty(v, side, best, size, n, k - 1);
    }
}

/// The orders of one level, all at price `lp`, fall in `[min, max]` all
/// together or not at all.
proof fn lemma_level_within(orders: Seq<Order>, lp: Price, min: Price, max: Price)
    requires
        forall|k: int| 0 <= k < orders.len() ==> (#[trigger] orders[k]).price == lp,
    ensures
        count_within(orders, min, max) == if min <= lp <= max { orders.len() } else { 0 },
        remaining_within(orders, min, max) == if min <= lp <= max { total_remaining(orders) } else { 0 },
    decreases orders.len(),
{
    if orders.len() > 0 {
        let front = orders.drop_last();
        assert forall|k: int| 0 <= k < front.len() implies (#[trigger] front[k]).price == lp by {
            assert(front[k] == orders[k]);
        }
        lemma_level_within(front, lp, min, max);
        assert(orders.last() == orders[orders.len() - 1]);
    }
}

/// The volume, order count and level count of a price range `[min, max]`,
/// both ends included, are those of the orders priced within it, counted
/// one by one; over all prices they are the side's totals.
pub proof fn lemma_range_by_orders(v: DepthView, side: OrderSide, min: Price, max: Price)
    requires
        depth_wf(v, side),
    ensures
        volume_in_range(v, min, max) == side_volume_within(v, min, max),
        orders_in_range(v, min, max) == side_orders_within(v, min, max),
        volume_in_range(v, i64::MIN, i64::MAX) == depth_total(v),
        orders_in_range(v, i64::MIN, i64::MAX) == order_total(v),
        levels_in_range(v, i64::MIN, i64::MAX) == v.len(),
    decreases v.len(),
{
    if v.len() > 0 {
        let w = v.drop_last();
        assert(depth_wf(w, side)) by {
            assert forall|i: int, j: int| 0 <= i < j < w.len() implies #[trigger] w[i].0 < #[trigger] w[j].0 by {
                assert(w[i] == v[i] && w[j] == v[j]);
            }
            assert forall|i: int, k: int| 0 <= i < w.len() && 0 <= k < w[i].1.len() implies
                (#[trigger] w[i].1[k]).price == w[i].0 && w[i].1[k].side == side by {
                assert(w[i] == v[i]);
            }
            assert forall|i: int, j: int, k: int, l: int|
                0 <= i < w.len() && 0 <= j < w.len() && 0 <= k < w[i].1.len() && 0 <= l < w[j].1.len()
                    && (i != j || k != l) implies #[trigger] w[i].1[k].id != #[trigger] w[j].1[l].id by {
                assert(w[i] == v[i] && w[j] == v[j]);
            }
        }
        lemma_range_by_orders(w, side, min, max);
        let n = v.len() - 1;
        assert(v.last() == v[n]);
        assert forall|k: int| 0 <= k < v[n].1.len() implies (#[trigger] v[n].1[k]).price == v[n].0 by {}
        lemma_level_within(v[n].1, v[n].0, min, max);
        lemma_level_within(v[n].1, v[n].0, i64::MIN, i64::MAX);
    }
}

/// A range of a single price holds exactly the level at that price.
pub proof fn lemma_point_range(v: DepthView, i: int)
    requires
        prices_ascending(v),
        0 <= i < v.len(),
    ensures
        orders_in_range(v, v[i].0, v[i].0) == v[i].1.len(),
        volume_in_range(v, v[i].0, v[i].0) == total_remaining(v[i].1),
        levels_in_range(v, v[i].0, v[i].0) == 1,
    decreases v.len(),
{
    let p = v[i].0;
    let w = v.drop_last();
    assert forall|a: int, b: int| 0 <= a < b < w.len() implies #[trigger] w[a].0 < #[trigger] w[b].0 by {
        assert(w[a] == v[a] && w[b] == v[b]);
    }
    if i == v.len() - 1 {
        assert forall|k: int| 0 <= k < w.len() implies #[trigger] w[k].0 < p by {
            assert(w[k] == v[k]);
        }
        lemma_outside_range(w, p);
    } else {
        assert(w[i] == v[i]);
        lemma_point_range(w, i);
        assert(v[i].0 < v[v.len() - 1].0);
    }
}

/// Levels all priced below `p` hold nothing at `p`.
proof fn lemma_outside_range(v: DepthView, p: Price)
    requires
        forall|k: int| 0 <= k < v.len() ==> #[trigger] v[k].0 < p,
    ensures
        orders_in_range(v, p, p) == 0,
        volume_in_range(v, p, p) == 0,
        levels_in_range(v, p, p) == 0,
    decreases v.len(),
{
    if v.len() > 0 {
        let w = v.drop_last();
        assert forall|k: int| 0 <= k < w.len() implies #[trigger] w[k].0 < p by {
            assert(w[k] == v[k]);
        }
        lemma_outside_range(w, p);
        assert(v[v.len() - 1].0 < p);
    }
}

/// Common implementation for both sides of the order book
pub struct BookSide {
    /// Price levels in ascending price order
    price_levels: Vec<PriceLevel>,
    /// Map from order ID (its 128-bit value) to price for fast lookup
    order_map: fnv::FnvHashMap<u128, Price>,
    /// Total volume on this side
    total_volume: Quantity,
    /// Side type (bid or ask)
    side_type: OrderSide,
    /// Buffer size for each price level
    buffer_size: usize,
    /// Cache of best price for O(1) lookup
    best_price_cache: Option<Price>,
}

impl BookSide {
    /// The price levels, in ascending price order.
    pub closed spec fn levels(&self) -> Seq<PriceLevel> {
        self.price_levels@
    }

    /// The side's contents: each level's price with its queued orders.
    pub open spec fn depth_view(&self) -> DepthView {
        Seq::new(self.levels().len(), |i: int| (self.levels()[i].level_price(), self.levels()[i].queued()))
    }

    /// Whether this is the bid (`Buy`) or ask (`Sell`) side.
    pub closed spec fn kind(&self) -> OrderSide {
        self.side_type
    }

    /// The queue size new price levels get.
    pub closed spec fn level_buffer_size(&self) -> usize {
        self.buffer_size
    }

    /// Internal consistency of the side.
    pub closed spec fn wf(&self) -> bool {
        &&& forall|i: int| 0 <= i < self.levels().len() ==> (#[trigger] self.levels()[i]).wf()
        &&& depth_wf(self.depth_view(), self.side_type)
        &&& forall|id: u128| #[trigger] self.order_map@.contains_key(id) <==> depth_contains_id(self.depth_view(), OrderId(id))
        &&& forall|id: u128| #[trigger] self.order_map@.contains_key(id) ==>
            self.order_map@[id] == order_of_id(self.depth_view(), OrderId(id)).price
        &&& self.total_volume == depth_total(self.depth_view())
        &&& self.best_price_cache == depth_best_price(self.depth_view(), self.side_type)
        &&& self.buffer_size <= usize::MAX / 2 + 1
    }

    /// A well-formed side's contents are well formed.
    pub proof fn lemma_wf(&self)
        requires
            self.wf(),
        ensures
            depth_wf(self.depth_view(), self.kind()),
            depth_total(self.depth_view()) <= u64::MAX,
            forall|i: int| 0 <= i < self.depth_view().len() ==> (#[trigger] self.depth_view()[i]).1.len() <= usize::MAX,
    {
        assert forall|i: int| 0 <= i < self.depth_view().len() implies (#[trigger] self.depth_view()[i]).1.len() <= usize::MAX by {
            assert(self.levels()[i].wf());
            self.levels()[i].lemma_count();
        }
    }

    /// Create a new, empty book side.
    pub fn new(side_type: OrderSide, buffer_size: usize) -> (s: Self)
        requires
            buffer_size <= usize::MAX / 2 + 1,
        ensures
            s.wf(),
            s.kind() == side_type,
            s.depth_view() == Seq::<(Price, Seq<Order>)>::empty(),
            s.level_buffer_size() == buffer_size,
    {
        let s = BookSide {
            price_levels: Vec::new(),
            order_map: fnv::FnvHashMap::default(),
            total_volume: 0,
            side_type,
            buffer_size,
            best_price_cache: None,
        };
        proof {
            assert(s.depth_view() =~= Seq::<(Price, Seq<Order>)>::empty());
        }
        s
    }

    /// Index of the first level priced at or above `price`.
    fn find_level(&self, price: Price) -> (idx: usize)
        requires
            self.wf(),
        ensures
            idx == levels_below(self.depth_view(), price),
    {
        let ghost v = self.depth_view();
        proof { lemma_levels_below(v, price); }
        let mut lo: usize = 0;
        let mut hi: usize = self.price_levels.len();
        while lo < hi
            invariant
                self.wf(),
                v == self.depth_view(),
                0 <= lo <= hi <= v.len(),
                hi == self.levels().len() || hi < v.len(),
                forall|j: int| 0 <= j < lo ==> #[trigger] v[j].0 < price,
                forall|j: int| hi <= j < v.len() ==> #[trigger] v[j].0 >= price,
            decreases hi - lo,
        {
            let mid = lo + (hi - lo) / 2;
            if self.price_levels[mid].price() < price {
                proof {
                    assert forall|j: int| 0 <= j < mid + 1 implies #[trigger] v[j].0 < price by {
                        if j < mid {
                            assert(v[j].0 < v[mid as int].0);
                        }
                    }
                }
                lo = mid + 1;
            } else {
                proof {
                    assert forall|j: int| mid <= j < v.len() implies #[trigger] v[j].0 >= price by {
                        if j > mid {
                            assert(v[mid as int].0 < v[j].0);
                        }
                    }
                }
                hi = mid;
            }
        }
        proof {
            let b = levels_below(v, price) as int;
            if b < lo {
                assert(v[b].0 < price);
            } else if b > lo {
                assert(v[lo as int].0 < price);
            }
        }
        lo
    }

    /// Add an order to the back of the level at its price, creating the
    /// level if needed.
    fn insert_order(&mut self, order: Order) -> (id: OrderId)
        requires
            old(self).wf(),
            order.side == old(self).kind(),
            !depth_contains_id(old(self).depth_view(), order.id),
            level_size(old(self).depth_view(), order.price) <= usize::MAX / 2,
            depth_total(old(self).depth_view()) + order.remaining_quantity <= u64::MAX,
        ensures
            final(self).wf(),
            id == order.id,
            final(self).depth_view() == depth_added(old(self).depth_view(), order),
            final(self).kind() == old(self).kind(),
            final(self).level_buffer_size() == old(self).level_buffer_size(),
    {
        let ghost v = self.depth_view();
        let ghost o = order;
        let price = order.price;
        let id = order.id;
        let quantity = order.remaining_quantity;
        proof {
            lemma_levels_below(v, price);
            lemma_added(v, self.side_type, order);
        }
        let idx = self.find_level(price);
        if idx < self.price_levels.len() && self.price_levels[idx].price() == price {
            proof {
                assert(!contains_id(v[idx as int].1, order.id));
                lemma_has_level(v, price);
                assert(self.levels()[idx as int].queued().len() == level_size(v, price));
                lemma_depth_total_bound(v, idx as int);
            }
            self.price_levels[idx].add_order(order);
            proof {
                assert(self.depth_view() =~= depth_added(v, o));
            }
        } else {
            let mut level = PriceLevel::new(price, self.buffer_size);
            proof {
                assert(level.queued() == Seq::<Order>::empty());
                assert(!contains_id(level.queued(), order.id));
                assert(total_remaining(Seq::<Order>::empty()) == 0);
            }
            level.add_order(order);
            self.price_levels.insert(idx, level);
            proof {
                assert(level.queued() =~= seq![o]);
                assert(self.depth_view() =~= depth_added(v, o));
            }
        }
        fnv_insert(&mut self.order_map, id.0, price);
        self.total_volume = self.total_volume + quantity;
        match self.side_type {
            OrderSide::Buy => {
                match self.best_price_cache {
                    None => { self.best_price_cache = Some(price); },
                    Some(best) => {
                        if price >= best {
                            self.best_price_cache = Some(price);
                        }
                    },
                }
            },
            OrderSide::Sell => {
                match self.best_price_cache {
                    None => { self.best_price_cache = Some(price); },
                    Some(best) => {
                        if price <= best {
                            self.best_price_cache = Some(price);
                        }
                    },
                }
            },
        }
        proof {
            let w = self.depth_view();
            lemma_levels_below(w, price);
            assert forall|i: u128| #[trigger] self.order_map@.contains_key(i) <==> depth_contains_id(w, OrderId(i)) by {
                assert(depth_contains_id(w, OrderId(i)) <==> (depth_contains_id(v, OrderId(i)) || OrderId(i) == o.id));
            }
            assert forall|i: u128| #[trigger] self.order_map@.contains_key(i) implies
                self.order_map@[i] == order_of_id(w, OrderId(i)).price by {
                let oid = OrderId(i);
                assert(depth_contains_id(w, oid));
                let j = level_of_id(w, oid);
                let k = position_of_id(w[j].1, oid);
                assert(0 <= j < w.len() && contains_id(w[j].1, oid));
                let kk = choose|kk: int| 0 <= kk < w[j].1.len() && #[trigger] w[j].1[kk].id == oid;
                lemma_locate(w, self.side_type, j, kk);
                if i != id.0 {
                    assert(depth_contains_id(v, oid));
                    let j0 = level_of_id(v, oid);
                    let k0 = choose|kk: int| 0 <= kk < v[j0].1.len() && #[trigger] v[j0].1[kk].id == oid;
                    lemma_locate(v, self.side_type, j0, k0);
                }
            }
            assert forall|j: int| 0 <= j < self.levels().len() implies (#[trigger] self.levels()[j]).wf() by {}
        }
        id
    }

    /// The best price computed from the levels: the highest for bids, the
    /// lowest for asks.
    fn compute_best_price(&self) -> (p: Option<Price>)
        requires
            self.wf(),
        ensures
            p == depth_best_price(self.depth_view(), self.kind()),
    {
        let n = self.price_levels.len();
        if n == 0 {
            return None;
        }
        match self.side_type {
            OrderSide::Buy => Some(self.price_levels[n - 1].price()),
            OrderSide::Sell => Some(self.price_levels[0].price()),
        }
    }

    /// Get the best price on this side
    fn get_best_price(&self) -> (p: Option<Price>)
        requires
            self.wf(),
        ensures
            p == depth_best_price(self.depth_view(), self.kind()),
    {
        if let Some(price) = self.best_price_cache {
            return Some(price);
        }
        self.compute_best_price()
    }

    /// Update the best price cache
    fn update_best_price_cache(&mut self)
        requires
            old(self).price_levels@.len() >= 0,
        ensures
            final(self).best_price_cache == depth_best_price(old(self).depth_view(), old(self).side_type),
            final(self).price_levels == old(self).price_levels,
            final(self).order_map == old(self).order_map,
            final(self).total_volume == old(self).total_volume,
            final(self).side_type == old(self).side_type,
            final(self).buffer_size == old(self).buffer_size,
    {
        let n = self.price_levels.len();
        if n == 0 {
            self.best_price_cache = None;
        } else {
            match self.side_type {
                OrderSide::Buy => { self.best_price_cache = Some(self.price_levels[n - 1].price()); },
                OrderSide::Sell => { self.best_price_cache = Some(self.price_levels[0].price()); },
            }
        }
    }

    /// Get the worst price on this side: the lowest for bids, the highest for asks.
    pub fn get_worst_price(&self) -> (p: Option<Price>)
        requires
            self.wf(),
        ensures
            p == depth_worst_price(self.depth_view(), self.kind()),
    {
        let n = self.price_levels.len();
        if n == 0 {
            return None;
        }
        match self.side_type {
            OrderSide::Buy => Some(self.price_levels[0].price()),
            OrderSide::Sell => Some(self.price_levels[n - 1].price()),
        }
    }

    /// After the order at position `k` of level `idx` left, the side is
    /// consistent again once the level is dropped if empty and the cache is
    /// refreshed.
    proof fn lemma_after_removal(self, pre: Self, idx: int, k: int, removed: Order)
        requires
            pre.wf(),
            0 <= idx < pre.levels().len(),
            0 <= k < pre.depth_view()[idx].1.len(),
            removed == pre.depth_view()[idx].1[k],
            self.depth_view() == depth_removed_at(pre.depth_view(), idx, k),
            forall|i: int| 0 <= i < self.levels().len() ==> (#[trigger] self.levels()[i]).wf(),
            self.order_map@ == pre.order_map@.remove(removed.id.0),
            self.total_volume + removed.remaining_quantity == pre.total_volume,
            self.best_price_cache == depth_best_price(self.depth_view(), self.side_type),
            self.side_type == pre.side_type,
            self.buffer_size == pre.buffer_size,
        ensures
            self.wf(),
    {
        let v = pre.depth_view();
        let w = self.depth_view();
        lemma_removed_at(v, pre.side_type, idx, k);
        lemma_locate(v, pre.side_type, idx, k);
        assert forall|i: u128| #[trigger] self.order_map@.contains_key(i) <==> depth_contains_id(w, OrderId(i)) by {
            assert(depth_contains_id(w, OrderId(i)) <==> (depth_contains_id(v, OrderId(i)) && OrderId(i) != removed.id));
        }
        assert forall|i: u128| #[trigger] self.order_map@.contains_key(i) implies
            self.order_map@[i] == order_of_id(w, OrderId(i)).price by {
            let oid = OrderId(i);
            assert(depth_contains_id(w, oid));
            let j = level_of_id(w, oid);
            let kk = choose|kk: int| 0 <= kk < w[j].1.len() && #[trigger] w[j].1[kk].id == oid;
            lemma_locate(w, self.side_type, j, kk);
            assert(depth_contains_id(v, oid));
            let j0 = level_of_id(v, oid);
            let k0 = choose|kk: int| 0 <= kk < v[j0].1.len() && #[trigger] v[j0].1[kk].id == oid;
            lemma_locate(v, self.side_type, j0, k0);
        }
    }

    /// Remove the order with the given ID from this side, if it is here.
    fn take_order(&mut self, order_id: &OrderId) -> (r: Option<Order>)
        requires
            old(self).wf(),
        ensures
            final(self).wf(),
            final(self).kind() == old(self).kind(),
            final(self).level_buffer_size() == old(self).level_buffer_size(),
            if depth_contains_id(old(self).depth_view(), *order_id) {
                &&& r == Some(order_of_id(old(self).depth_view(), *order_id))
                &&& final(self).depth_view() == depth_removed(old(self).depth_view(), *order_id)
            } else {
                &&& r is None
                &&& final(self).depth_view() == old(self).depth_view()
            },
    {
        let ghost v = self.depth_view();
        let ghost pre = *self;
        let price = match fnv_get(&self.order_map, &order_id.0) {
            Some(p) => p,
            None => {
                proof { assert(!self.order_map@.contains_key(order_id.0)); }
                return None;
            },
        };
        proof {
            let oid = OrderId(order_id.0);
            assert(oid == *order_id);
            assert(depth_contains_id(v, *order_id));
        }
        let ghost i = level_of_id(v, *order_id);
        let ghost k = position_of_id(v[i].1, *order_id);
        proof {
            let kk = choose|kk: int| 0 <= kk < v[i].1.len() && #[trigger] v[i].1[kk].id == *order_id;
            lemma_locate(v, self.side_type, i, kk);
            lemma_levels_below(v, price);
            assert(v[i].0 == price);
            let b = levels_below(v, price) as int;
            if b < i {
                assert(v[b].0 < v[i].0);
            } else if b > i {
                assert(v[i].0 < price);
            }
        }
        let idx = self.find_level(price);
        if idx >= self.price_levels.len() || self.price_levels[idx].price() != price {
            return None;
        }
        proof {
            assert(idx == i);
            assert(self.levels()[i].wf());
            self.levels()[i].lemma_ids();
            lemma_position_of_id(v[i].1, *order_id, k);
        }
        let order = match self.price_levels[idx].remove_order_by_id(order_id) {
            Some(o) => o,
            None => return None,
        };
        fnv_remove(&mut self.order_map, &order_id.0);
        proof {
            lemma_removed_at(v, pre.side_type, i, k);
        }
        self.total_volume = self.total_volume - order.remaining_quantity;
        if self.price_levels[idx].is_empty() {
            let _emptied = self.price_levels.remove(idx);
            proof {
                assert(self.depth_view() =~= depth_removed_at(v, i, k));
            }
            if Some(price) == self.best_price_cache {
                self.update_best_price_cache();
            } else {
                proof {
                    let w = self.depth_view();
                    if v.len() > 1 {
                        match self.side_type {
                            OrderSide::Buy => {
                                assert(i != v.len() - 1);
                                assert(w[w.len() - 1] == v[v.len() - 1]);
                            },
                            OrderSide::Sell => {
                                assert(i != 0);
                                assert(w[0] == v[0]);
                            },
                        }
                    }
                }
            }
        } else {
            proof {
                assert(self.depth_view() =~= depth_removed_at(v, i, k));
            }
        }
        proof {
            self.lemma_after_removal(pre, i, k, order);
        }
        Some(order)
    }

    /// Take the oldest order at the best price (for matching).
    fn take_next_best(&mut self) -> (r: Option<Order>)
        requires
            old(self).wf(),
        ensures
            final(self).wf(),
            final(self).kind() == old(self).kind(),
            final(self).level_buffer_size() == old(self).level_buffer_size(),
            if old(self).depth_view().len() > 0 {
                let i = best_index(old(self).depth_view(), old(self).kind());
                &&& r == Some(old(self).depth_view()[i].1[0])
                &&& final(self).depth_view() == depth_removed_at(old(self).depth_view(), i, 0)
            } else {
                &&& r is None
                &&& final(self).depth_view() == old(self).depth_view()
            },
    {
        let ghost v = self.depth_view();
        let ghost pre = *self;
        let best_price = match self.get_best_price() {
            Some(p) => p,
            None => return None,
        };
        let ghost i = best_index(v, self.side_type);
        proof {
            lemma_levels_below(v, best_price);
            let b = levels_below(v, best_price) as int;
            if b < i {
                assert(v[b].0 < v[i].0);
            } else if b > i {
                assert(v[i].0 < best_price);
            }
        }
        let idx = self.find_level(best_price);
        if idx >= self.price_levels.len() || self.price_levels[idx].price() != best_price {
            return None;
        }
        proof {
            assert(idx == i);
            assert(self.levels()[i].wf());
        }
        match self.price_levels[idx].next_order() {
            Some((_, order)) => {
                proof {
                    lemma_removed_at(v, pre.side_type, i, 0);
                    assert(v[i].1.remove(0) =~= v[i].1.drop_first());
                }
                if self.price_levels[idx].is_empty() {
                    let _emptied = self.price_levels.remove(idx);
                    self.update_best_price_cache();
                    proof {
                        assert(self.depth_view() =~= depth_removed_at(v, i, 0));
                    }
                } else {
                    proof {
                        assert(self.depth_view() =~= depth_removed_at(v, i, 0));
                    }
                }
                fnv_remove(&mut self.order_map, &order.id.0);
                self.total_volume = self.total_volume - order.remaining_quantity;
                proof {
                    self.lemma_after_removal(pre, i, 0, order);
                }
                Some(order)
            },
            None => {
                proof {
                    assert(false);
                }
                None
            },
        }
    }

    /// Total volume on this side.
    fn volume(&self) -> (q: Quantity)
        requires
            self.wf(),
        ensures
            q == depth_total(self.depth_view()),
    {
        self.total_volume
    }

    /// Number of price levels.
    fn level_count(&self) -> (n: usize)
        requires
            self.wf(),
        ensures
            n == self.depth_view().len(),
    {
        self.price_levels.len()
    }

    /// A copy of the order with the given ID, if it is on this side.
    fn find_order(&self, order_id: &OrderId) -> (r: Option<Order>)
        requires
            self.wf(),
        ensures
            if depth_contains_id(self.depth_view(), *order_id) {
                r matches Some(o) && o@ == order_of_id(self.depth_view(), *order_id)@
            } else {
                r is None
            },
    {
        let ghost v = self.depth_view();
        let price = match fnv_get(&self.order_map, &order_id.0) {
            Some(p) => p,
            None => {
                proof { assert(OrderId(order_id.0) == *order_id); }
                return None;
            },
        };
        proof {
            assert(OrderId(order_id.0) == *order_id);
            let i = level_of_id(v, *order_id);
            let kk = choose|kk: int| 0 <= kk < v[i].1.len() && #[trigger] v[i].1[kk].id == *order_id;
            lemma_locate(v, self.side_type, i, kk);
            lemma_levels_below(v, price);
            let b = levels_below(v, price) as int;
            if b < i {
                assert(v[b].0 < v[i].0);
            } else if b > i {
                assert(v[i].0 < price);
            }
            assert(self.levels()[i].wf());
            self.levels()[i].lemma_ids();
            lemma_position_of_id(v[i].1, *order_id, kk);
        }
        let idx = self.find_level(price);
        if idx >= self.price_levels.len() || self.price_levels[idx].price() != price {
            return None;
        }
        self.price_levels[idx].get_order_by_id(order_id)
    }

    /// The data of the level at `price`, if there is one.
    fn level_data_at(&self, price: Price) -> (r: Option<PriceLevelData>)
        requires
            self.wf(),
        ensures
            if has_level(self.depth_view(), price) {
                &&& r == Some(self.records()[levels_below(self.depth_view(), price) as int])
                &&& r->0.order_count == self.depth_view()[levels_below(self.depth_view(), price) as int].1.len()
            } else {
                r is None
            },
    {
        proof { lemma_has_level(self.depth_view(), price); }
        let idx = self.find_level(price);
        if idx < self.price_levels.len() && self.price_levels[idx].price() == price {
            proof {
                assert(self.levels()[idx as int].wf());
                assert(self.records()[idx as int] == level_data(self.levels()[idx as int]));
            }
            Some(self.price_levels[idx].to_data())
        } else {
            None
        }
    }

    /// Each level's price and data, best price first (descending for bids,
    /// ascending for asks).
    fn levels_in_priority(&self) -> (r: Vec<(Price, PriceLevelData)>)
        requires
            self.wf(),
        ensures
            r@.len() == self.levels().len(),
            forall|j: int| 0 <= j < r@.len() ==> {
                let i = priority_index(self.levels().len(), self.kind(), j);
                &&& (#[trigger] r@[j]).0 == self.levels()[i].level_price()
                &&& r@[j].1 == level_data(self.levels()[i])
                &&& r@[j].1.price == self.depth_view()[i].0
                &&& r@[j].1.total_quantity == total_remaining(self.depth_view()[i].1)
                &&& r@[j].1.order_count == self.depth_view()[i].1.len()
            },
    {
        let n = self.price_levels.len();
        let mut r: Vec<(Price, PriceLevelData)> = Vec::with_capacity(n);
        let mut j: usize = 0;
        while j < n
            invariant
                self.wf(),
                n == self.levels().len(),
                j <= n,
                r@.len() == j,
                forall|t: int| 0 <= t < j ==> {
                    let i = priority_index(n as nat, self.kind(), t);
                    &&& (#[trigger] r@[t]).0 == self.levels()[i].level_price()
                    &&& r@[t].1 == level_data(self.levels()[i])
                    &&& r@[t].1.price == self.depth_view()[i].0
                    &&& r@[t].1.total_quantity == total_remaining(self.depth_view()[i].1)
                    &&& r@[t].1.order_count == self.depth_view()[i].1.len()
                },
            decreases n - j,
        {
            let i = match self.side_type {
                OrderSide::Buy => n - 1 - j,
                OrderSide::Sell => j,
            };
            proof { assert(self.levels()[i as int].wf()); }
            let level = &self.price_levels[i];
            r.push((level.price(), level.to_data()));
            j = j + 1;
        }
        r
    }

    /// Number of price levels within `[min_price, max_price]`.
    pub fn count_levels_in_range(&self, min_price: Price, max_price: Price) -> (n: usize)
        requires
            self.wf(),
        ensures
            n == levels_in_range(self.depth_view(), min_price, max_price),
    {
        let ghost v = self.depth_view();
        let len = self.price_levels.len();
        let mut count: usize = 0;
        let mut j: usize = 0;
        proof { assert(v.subrange(0, 0) =~= Seq::<(Price, Seq<Order>)>::empty()); }
        while j < len
            invariant
                v == self.depth_view(),
                len == v.len(),
                j <= len,
                count <= j,
                count == levels_in_range(v.subrange(0, j as int), min_price, max_price),
            decreases len - j,
        {
            proof { lemma_prefix_step(v, j as int); }
            let price = self.price_levels[j].price();
            if min_price <= price && price <= max_price {
                count = count + 1;
            }
            j = j + 1;
        }
        proof { assert(v.subrange(0, len as int) =~= v); }
        count
    }

    /// Total volume of the price levels within `[min_price, max_price]`.
    pub fn total_volume_in_range(&self, min_price: Price, max_price: Price) -> (q: Quantity)
        requires
            self.wf(),
        ensures
            q == volume_in_range(self.depth_view(), min_price, max_price),
    {
        let ghost v = self.depth_view();
        let len = self.price_levels.len();
        let mut total: u64 = 0;
        let mut j: usize = 0;
        proof { assert(v.subrange(0, 0) =~= Seq::<(Price, Seq<Order>)>::empty()); }
        while j < len
            invariant
                self.wf(),
                v == self.depth_view(),
                len == v.len(),
                j <= len,
                total == volume_in_range(v.subrange(0, j as int), min_price, max_price),
            decreases len - j,
        {
            proof {
                lemma_prefix_step(v, j as int);
                lemma_volume_in_range_bound(v.subrange(0, j + 1), min_price, max_price);
                lemma_depth_total_prefix(v, j + 1);
                assert(self.levels()[j as int].wf());
            }
            let level = &self.price_levels[j];
            let price = level.price();
            if min_price <= price && price <= max_price {
                total = total + level.total_quantity();
            }
            j = j + 1;
        }
        proof { assert(v.subrange(0, len as int) =~= v); }
        total
    }

    /// Number of orders on this side.
    pub fn order_count(&self) -> (n: usize)
        requires
            self.wf(),
        ensures
            n == order_total(self.depth_view()),
    {
        proof {
            lemma_order_total(self.depth_view(), self.side_type);
            assert(self.order_map@.dom() =~= depth_ids(self.depth_view()));
        }
        fnv_len(&self.order_map)
    }

    /// Number of orders at the price levels within `[min_price, max_price]`.
    pub fn orders_in_price_range(&self, min_price: Price, max_price: Price) -> (n: usize)
        requires
            self.wf(),
        ensures
            n == orders_in_range(self.depth_view(), min_price, max_price),
    {
        let ghost v = self.depth_view();
        let all = self.order_count();
        let len = self.price_levels.len();
        let mut count: usize = 0;
        let mut j: usize = 0;
        proof { assert(v.subrange(0, 0) =~= Seq::<(Price, Seq<Order>)>::empty()); }
        while j < len
            invariant
                self.wf(),
                v == self.depth_view(),
                len == v.len(),
                j <= len,
                all == order_total(v),
                count == orders_in_range(v.subrange(0, j as int), min_price, max_price),
            decreases len - j,
        {
            proof {
                lemma_prefix_step(v, j as int);
                lemma_orders_in_range_bound(v.subrange(0, j + 1), min_price, max_price);
                lemma_order_total_prefix(v, j + 1);
                assert(self.levels()[j as int].wf());
            }
            let level = &self.price_levels[j];
            let price = level.price();
            if min_price <= price && price <= max_price {
                count = count + level.order_count();
            }
            j = j + 1;
        }
        proof { assert(v.subrange(0, len as int) =~= v); }
        count
    }

    /// Volume per bucket of prices, counted from the best price away from the
    /// spread: `num_buckets` buckets of equal width (at least 1), each with
    /// the price that starts it, or `(0, 0)` if no level falls in it. Levels
    /// beyond the last bucket count in the last bucket, so the buckets hold
    /// the whole side's volume. A side whose levels all share one price gives
    /// one bucket; an empty side or no buckets give nothing.
    #[verifier::spinoff_prover]
    #[verifier::rlimit(80)]
    pub fn volume_distribution(&self, num_buckets: usize) -> (r: Vec<(Price, Quantity)>)
        requires
            self.wf(),
            self.depth_view().len() > 0 ==> {
                let v = self.depth_view();
                v[v.len() - 1].0 - v[0].0 <= i64::MAX
            },
        ensures
            ({
                let v = self.depth_view();
                let side = self.kind();
                if v.len() == 0 || num_buckets == 0 {
                    r@.len() == 0
                } else {
                    let best = depth_best_price(v, side)->0;
                    let range = v[v.len() - 1].0 - v[0].0;
                    if range == 0 {
                        r@ == seq![(best, depth_total(v) as u64)]
                    } else {
                        let size = if range / (num_buckets as int) >= 1 { range / (num_buckets as int) } else { 1 };
                        &&& r@.len() == num_buckets
                        &&& forall|b: int| 0 <= b < num_buckets ==> {
                            &&& (#[trigger] r@[b]).1 == bucket_volume(v, side, best, size, num_buckets as int, b)
                            &&& r@[b].0 == if bucket_hit(v, side, best, size, num_buckets as int, b) {
                                bucket_price(side, best, size, b)
                            } else {
                                0
                            }
                        }
                    }
                }
            }),
    {
        let ghost v = self.depth_view();
        let ghost side = self.side_type;
        let len = self.price_levels.len();
        if len == 0 || num_buckets == 0 {
            return Vec::new();
        }
        let best = match self.get_best_price() {
            Some(p) => p,
            None => return Vec::new(),
        };
        let low = self.price_levels[0].price();
        let high = self.price_levels[len - 1].price();
        let price_range: u64 = (high as i128 - low as i128) as u64;
        if price_range == 0 {
            let mut single: Vec<(Price, Quantity)> = Vec::new();
            single.push((best, self.total_volume));
            return single;
        }
        let quotient: u64 = price_range / (num_buckets as u64);
        let bucket_size: u64 = if quotient >= 1 { quotient } else { 1 };
        proof {
            assert(quotient <= price_range) by (nonlinear_arith)
                requires quotient == price_range / (num_buckets as u64), num_buckets >= 1;
        }
        let mut buckets: Vec<(Price, Quantity)> = Vec::with_capacity(num_buckets);
        let mut b: usize = 0;
        while b < num_buckets
            invariant
                b <= num_buckets,
                buckets@.len() == b,
                forall|t: int| 0 <= t < b ==> #[trigger] buckets@[t] == (0i64, 0u64),
            decreases num_buckets - b,
        {
            buckets.push((0, 0));
            b = b + 1;
        }
        let mut j: usize = 0;
        proof {
            assert(v.subrange(0, 0) =~= Seq::<(Price, Seq<Order>)>::empty());
            assert forall|t: int| 0 <= t < num_buckets implies
                !bucket_hit(v.subrange(0, 0), side, best, bucket_size as int, num_buckets as int, t) by {}
        }
        while j < len
            invariant
                self.wf(),
                v == self.depth_view(),
                side == self.kind(),
                len == v.len(),
                len > 0,
                j <= len,
                best == depth_best_price(v, side)->0,
                low == v[0].0,
                high == v[len - 1].0,
                high - low <= i64::MAX,
                1 <= bucket_size <= high - low,
                num_buckets >= 1,
                buckets@.len() == num_buckets,
                forall|t: int| 0 <= t < num_buckets ==> {
                    &&& (#[trigger] buckets@[t]).1 == bucket_volume(v.subrange(0, j as int), side, best, bucket_size as int, num_buckets as int, t)
                    &&& buckets@[t].0 == if bucket_hit(v.subrange(0, j as int), side, best, bucket_size as int, num_buckets as int, t) {
                        bucket_price(side, best, bucket_size as int, t)
                    } else {
                        0
                    }
                },
            decreases len - j,
        {
            proof {
                lemma_prefix_step(v, j as int);
                assert(self.levels()[j as int].wf());
                assert(low <= v[j as int].0 <= high) by {
                    if j > 0 { assert(v[0].0 < v[j as int].0); }
                    if j < len - 1 { assert(v[j as int].0 < v[len - 1].0); }
                }
            }
            let level = &self.price_levels[j];
            let price = level.price();
            let relative: u64 = match self.side_type {
                OrderSide::Buy => (best as i128 - price as i128) as u64,
                OrderSide::Sell => (price as i128 - best as i128) as u64,
            };
            proof {
                assert(relative as int == distance_from_best(side, best, v[j as int].0));
                assert(relative <= high - low);
            }
            let quotient_index: u64 = relative / bucket_size;
            let bucket_index: u64 = if quotient_index < num_buckets as u64 {
                quotient_index
            } else {
                (num_buckets - 1) as u64
            };
            proof {
                assert(quotient_index * bucket_size <= relative) by (nonlinear_arith)
                    requires quotient_index == relative / bucket_size, bucket_size > 0;
                assert(bucket_index * bucket_size <= quotient_index * bucket_size) by (nonlinear_arith)
                    requires bucket_index <= quotient_index, bucket_size > 0;
                assert(bucket_index as int == bucket_of(side, best, bucket_size as int, num_buckets as int, v[j as int].0));
                lemma_bucket_step(v, side, best, bucket_size as int, num_buckets as int, j as int);
            }
            let idx = bucket_index as usize;
            let offset: i64 = (bucket_index * bucket_size) as i64;
            let bucket_price_value: i64 = match self.side_type {
                OrderSide::Buy => best - offset,
                OrderSide::Sell => best + offset,
            };
            proof {
                lemma_bucket_volume_bound(v.subrange(0, j + 1), side, best, bucket_size as int, num_buckets as int, idx as int);
                lemma_depth_total_prefix(v, j + 1);
            }
            let volume = buckets[idx].1 + level.total_quantity();
            buckets.set(idx, (bucket_price_value, volume));
            j = j + 1;
        }
        proof { assert(v.subrange(0, len as int) =~= v); }
        buckets
    }

    /// Replace the order with the given ID by `updater` applied to it, if it
    /// is on this side; the total volume is recomputed.
    fn replace_order<F: FnOnce(Order) -> Order>(&mut self, order_id: &OrderId, updater: F) -> (r: bool)
        requires
            old(self).wf(),
            forall|o: Order| updater.requires((o,)),
            keeps_identity(updater),
            depth_contains_id(old(self).depth_view(), *order_id) ==> forall|p: Order|
                updater.ensures((order_of_id(old(self).depth_view(), *order_id),), p) ==>
                    depth_total(old(self).depth_view()) - order_of_id(old(self).depth_view(), *order_id).remaining_quantity
                        + p.remaining_quantity <= u64::MAX,
        ensures
            final(self).wf(),
            final(self).kind() == old(self).kind(),
            final(self).level_buffer_size() == old(self).level_buffer_size(),
            r == depth_contains_id(old(self).depth_view(), *order_id),
            r ==> exists|p: Order|
                #[trigger] updater.ensures((order_of_id(old(self).depth_view(), *order_id),), p)
                    && final(self).depth_view() == depth_replaced(old(self).depth_view(), *order_id, p),
            !r ==> final(self).depth_view() == old(self).depth_view(),
    {
        let ghost v = self.depth_view();
        let ghost pre = *self;
        let price = match fnv_get(&self.order_map, &order_id.0) {
            Some(p) => p,
            None => {
                proof { assert(OrderId(order_id.0) == *order_id); }
                return false;
            },
        };
        proof { assert(OrderId(order_id.0) == *order_id); }
        let ghost i = level_of_id(v, *order_id);
        let ghost k = position_of_id(v[i].1, *order_id);
        proof {
            let kk = choose|kk: int| 0 <= kk < v[i].1.len() && #[trigger] v[i].1[kk].id == *order_id;
            lemma_locate(v, self.side_type, i, kk);
            lemma_levels_below(v, price);
            let b = levels_below(v, price) as int;
            if b < i {
                assert(v[b].0 < v[i].0);
            } else if b > i {
                assert(v[i].0 < price);
            }
            assert(self.levels()[i].wf());
            self.levels()[i].lemma_ids();
            lemma_position_of_id(v[i].1, *order_id, kk);
            lemma_depth_total_bound(v, i);
            lemma_total_remaining_bound(v[i].1, k);
        }
        let idx = self.find_level(price);
        if idx >= self.price_levels.len() || self.price_levels[idx].price() != price {
            return false;
        }
        let result = self.price_levels[idx].update_order_by_id(order_id, updater);
        let ghost p = self.levels()[i].queued()[k];
        proof {
            let w = self.depth_view();
            assert(w =~= v.update(i, (v[i].0, v[i].1.update(k, p))));
            assert(w == depth_replaced(v, *order_id, p));
            lemma_total_remaining_update(v[i].1, k, p);
            lemma_depth_total_update(v, i, (v[i].0, v[i].1.update(k, p)));
            lemma_replaced(v, self.side_type, i, k, p);
        }
        if result {
            let n = self.price_levels.len();
            let mut total: u64 = 0;
            let mut j: usize = 0;
            let ghost w = self.depth_view();
            proof { assert(w.subrange(0, 0) =~= Seq::<(Price, Seq<Order>)>::empty()); }
            while j < n
                invariant
                    n == self.levels().len(),
                    w == self.depth_view(),
                    forall|t: int| 0 <= t < self.levels().len() ==> (#[trigger] self.levels()[t]).wf(),
                    j <= n,
                    depth_total(w) <= u64::MAX,
                    total == depth_total(w.subrange(0, j as int)),
                decreases n - j,
            {
                proof {
                    lemma_prefix_step(w, j as int);
                    lemma_depth_total_prefix(w, j + 1);
                    assert(self.levels()[j as int].wf());
                }
                total = total + self.price_levels[j].total_quantity();
                j = j + 1;
            }
            proof { assert(w.subrange(0, n as int) =~= w); }
            self.total_volume = total;
        }
        proof {
            let w = self.depth_view();
            assert forall|x: u128| #[trigger] self.order_map@.contains_key(x) implies
                self.order_map@[x] == order_of_id(w, OrderId(x)).price by {
                let oid = OrderId(x);
                let j = level_of_id(v, oid);
                let l = choose|l: int| 0 <= l < v[j].1.len() && #[trigger] v[j].1[l].id == oid;
                lemma_locate(v, self.side_type, j, l);
                assert(w[j].1[l].id == oid);
                lemma_locate(w, self.side_type, j, l);
            }
            assert forall|x: u128| #[trigger] self.order_map@.contains_key(x) <==> depth_contains_id(w, OrderId(x)) by {
                let oid = OrderId(x);
                if depth_contains_id(w, oid) {
                    let j = level_of_id(w, oid);
                    let l = choose|l: int| 0 <= l < w[j].1.len() && #[trigger] w[j].1[l].id == oid;
                    assert(v[j].1[l].id == oid);
                    assert(contains_id(v[j].1, oid));
                }
                if depth_contains_id(v, oid) {
                    let j = level_of_id(v, oid);
                    let l = choose|l: int| 0 <= l < v[j].1.len() && #[trigger] v[j].1[l].id == oid;
                    assert(w[j].1[l].id == oid);
                    assert(contains_id(w[j].1, oid));
                }
            }
            assert(updater.ensures((order_of_id(v, *order_id),), p));
        }
        result
    }

    /// The summary data of each level, in ascending price order.
    pub open spec fn records(&self) -> Seq<PriceLevelData> {
        Seq::new(self.levels().len(), |i: int| level_data(self.levels()[i]))
    }

    /// Get a summary of this side.
    pub fn to_data(&self) -> (d: SideData)
        requires
            self.wf(),
            self.depth_view().len() > 0 ==> {
                let v = self.depth_view();
                v[v.len() - 1].0 - v[0].0 <= i64::MAX
            },
        ensures
            d.best_price == depth_best_price(self.depth_view(), self.kind()),
            d.total_volume == depth_total(self.depth_view()),
            d.depth == self.depth_view().len(),
            d.price_levels@.len() == self.levels().len(),
            forall|j: int| 0 <= j < d.price_levels@.len() ==> {
                let i = priority_index(self.levels().len(), self.kind(), j);
                &&& (#[trigger] d.price_levels@[j]).0 == self.depth_view()[i].0
                &&& d.price_levels@[j].1 == self.records()[i]
                &&& d.price_levels@[j].1.price == self.depth_view()[i].0
                &&& d.price_levels@[j].1.total_quantity == total_remaining(self.depth_view()[i].1)
                &&& d.price_levels@[j].1.order_count == self.depth_view()[i].1.len()
            },
            d.statistics.order_count == order_total(self.depth_view()),
            d.statistics.depth_in_pips == if self.depth_view().len() == 0 {
                0
            } else {
                let v = self.depth_view();
                v[v.len() - 1].0 - v[0].0
            },
    {
        let order_count = self.order_count();
        let best = self.get_best_price();
        let worst = self.get_worst_price();
        let depth_in_pips: i64 = match (best, worst) {
            (Some(b), Some(w)) => {
                if w >= b { w - b } else { b - w }
            },
            _ => 0,
        };
        SideData {
            best_price: best,
            total_volume: self.total_volume,
            depth: self.price_levels.len(),
            price_levels: self.levels_in_priority(),
            statistics: SideStatistics { order_count, depth_in_pips },
        }
    }
}

/// Summary of one side of the order book
#[derive(Debug, Clone)]
pub struct SideData {
    /// Best price on this side
    pub best_price: Option<Price>,
    /// Total volume on this side
    pub total_volume: Quantity,
    /// Number of price levels
    pub depth: usize,
    /// Price levels, best price first
    pub price_levels: Vec<(Price, PriceLevelData)>,
    /// Statistics
    pub statistics: SideStatistics,
}

/// Statistics for a side of the order book
#[derive(Debug, Clone, Copy, PartialEq, Eq, Structural)]
pub struct SideStatistics {
    /// Number of orders
    pub order_count: usize,
    /// Depth in pips (difference between best and worst price)
    pub depth_in_pips: i64,
}

/// Generic side of the order book (either bid or ask)
pub trait Side {
    /// The side's contents: price levels in ascending price order, each with
    /// its orders in time priority.
    spec fn contents(&self) -> DepthView;

    /// Bid (`Buy`) or ask (`Sell`).
    spec fn side_kind(&self) -> OrderSide;

    /// Internal consistency.
    spec fn well_formed(&self) -> bool;

    /// The summary data of each level, in ascending price order.
    spec fn level_records(&self) -> Seq<PriceLevelData>;


    /// Add an order to this side
    fn add_order(&mut self, order: Order) -> (id: OrderId)
        requires
            old(self).well_formed(),
            order.side == old(self).side_kind(),
            !depth_contains_id(old(self).contents(), order.id),
            level_size(old(self).contents(), order.price) <= usize::MAX / 2,
            depth_total(old(self).contents()) + order.remaining_quantity <= u64::MAX,
        ensures
            final(self).well_formed(),
            final(self).side_kind() == old(self).side_kind(),
            id == order.id,
            final(self).contents() == depth_added(old(self).contents(), order),
    ;

    /// Remove an order from this side
    fn remove_order(&mut self, order_id: &OrderId) -> (r: Option<Order>)
        requires
            old(self).well_formed(),
        ensures
            final(self).well_formed(),
            final(self).side_kind() == old(self).side_kind(),
            if depth_contains_id(old(self).contents(), *order_id) {
                &&& r == Some(order_of_id(old(self).contents(), *order_id))
                &&& final(self).contents() == depth_removed(old(self).contents(), *order_id)
            } else {
                &&& r is None
                &&& final(self).contents() == old(self).contents()
            },
    ;

    /// Get the best price on this side
    fn best_price(&self) -> (p: Option<Price>)
        requires
            self.well_formed(),
        ensures
            p == depth_best_price(self.contents(), self.side_kind()),
    ;

    /// Get the total volume on this side
    fn total_volume(&self) -> (q: Quantity)
        requires
            self.well_formed(),
        ensures
            q == depth_total(self.contents()),
    ;

    /// Get the depth of this side (number of price levels)
    fn depth(&self) -> (n: usize)
        requires
            self.well_formed(),
        ensures
            n == self.contents().len(),
    ;

    /// Get an order by ID
    fn get_order(&self, order_id: &OrderId) -> (r: Option<Order>)
        requires
            self.well_formed(),
        ensures
            if depth_contains_id(self.contents(), *order_id) {
                r matches Some(o) && o@ == order_of_id(self.contents(), *order_id)@
            } else {
                r is None
            },
    ;

    /// Update an order: replace it by `updater` applied to it. The updater
    /// must keep the order's id, price and side.
    fn update_order<F: FnOnce(Order) -> Order>(&mut self, order_id: &OrderId, updater: F) -> (r: bool)
        requires
            old(self).well_formed(),
            forall|o: Order| updater.requires((o,)),
            keeps_identity(updater),
            depth_contains_id(old(self).contents(), *order_id) ==> forall|p: Order|
                updater.ensures((order_of_id(old(self).contents(), *order_id),), p) ==>
                    depth_total(old(self).contents()) - order_of_id(old(self).contents(), *order_id).remaining_quantity
                        + p.remaining_quantity <= u64::MAX,
        ensures
            final(self).well_formed(),
            final(self).side_kind() == old(self).side_kind(),
            r == depth_contains_id(old(self).contents(), *order_id),
            r ==> exists|p: Order|
                #[trigger] updater.ensures((order_of_id(old(self).contents(), *order_id),), p)
                    && final(self).contents() == depth_replaced(old(self).contents(), *order_id, p),
            !r ==> final(self).contents() == old(self).contents(),
    ;

    /// Get the price levels sorted by price, best first
    fn price_levels(&self) -> (r: Vec<(Price, PriceLevelData)>)
        requires
            self.well_formed(),
        ensures
            r@.len() == self.contents().len(),
            forall|j: int| 0 <= j < r@.len() ==> {
                let i = priority_index(self.contents().len(), self.side_kind(), j);
                &&& (#[trigger] r@[j]).0 == self.contents()[i].0
                &&& r@[j].1 == self.level_records()[i]
                &&& r@[j].1.price == self.contents()[i].0
                &&& r@[j].1.total_quantity == total_remaining(self.contents()[i].1)
                &&& r@[j].1.order_count == self.contents()[i].1.len()
            },
    ;

    /// Get a specific price level
    fn get_price_level(&self, price: Price) -> (r: Option<PriceLevelData>)
        requires
            self.well_formed(),
        ensures
            if has_level(self.contents(), price) {
                &&& r == Some(self.level_records()[levels_below(self.contents(), price) as int])
                &&& r->0.order_count == self.contents()[levels_below(self.contents(), price) as int].1.len()
            } else {
                r is None
            },
    ;

    /// Get the next order at the best price (for matching): the oldest order
    /// of the best level leaves the side.
    fn next_best_order(&mut self) -> (r: Option<Order>)
        requires
            old(self).well_formed(),
        ensures
            final(self).well_formed(),
            final(self).side_kind() == old(self).side_kind(),
            if old(self).contents().len() > 0 {
                let i = best_index(old(self).contents(), old(self).side_kind());
                &&& r == Some(old(self).contents()[i].1[0])
                &&& final(self).contents() == depth_removed_at(old(self).contents(), i, 0)
            } else {
                &&& r is None
                &&& final(self).contents() == old(self).contents()
            },
    ;
}

/// Bid side of the order book (buy orders)
pub struct BidSide(BookSide);

/// Ask side of the order book (sell orders)
pub struct AskSide(BookSide);

impl BidSide {
    /// Create a new, empty bid side whose levels queue `buffer_size` orders.
    pub fn new(buffer_size: usize) -> (s: Self)
        requires
            buffer_size <= usize::MAX / 2 + 1,
        ensures
            s.well_formed(),
            s.side_kind() == OrderSide::Buy,
            s.contents() == Seq::<(Price, Seq<Order>)>::empty(),
    {
        BidSide(BookSide::new(OrderSide::Buy, buffer_size))
    }

    /// A well-formed side has well-formed contents whose total fits a quantity.
    pub proof fn lemma_contents_wf(&self)
        requires
            self.well_formed(),
        ensures
            depth_wf(self.contents(), self.side_kind()),
            depth_total(self.contents()) <= u64::MAX,
            forall|i: int| 0 <= i < self.contents().len() ==> (#[trigger] self.contents()[i]).1.len() <= usize::MAX,
    {
        self.0.lemma_wf();
    }

    /// The underlying book side.
    pub fn book_side(&self) -> (b: &BookSide)
        ensures
            b.depth_view() == self.contents(),
            b.kind() == self.side_kind(),
            self.well_formed() ==> b.wf(),
            b.records() == self.level_records(),
    {
        &self.0
    }
}

impl AskSide {
    /// Create a new, empty ask side whose levels queue `buffer_size` orders.
    pub fn new(buffer_size: usize) -> (s: Self)
        requires
            buffer_size <= usize::MAX / 2 + 1,
        ensures
            s.well_formed(),
            s.side_kind() == OrderSide::Sell,
            s.contents() == Seq::<(Price, Seq<Order>)>::empty(),
    {
        AskSide(BookSide::new(OrderSide::Sell, buffer_size))
    }

    /// A well-formed side has well-formed contents whose total fits a quantity.
    pub proof fn lemma_contents_wf(&self)
        requires
            self.well_formed(),
        ensures
            depth_wf(self.contents(), self.side_kind()),
            depth_total(self.contents()) <= u64::MAX,
            forall|i: int| 0 <= i < self.contents().len() ==> (#[trigger] self.contents()[i]).1.len() <= usize::MAX,
    {
        self.0.lemma_wf();
    }

    /// The underlying book side.
    pub fn book_side(&self) -> (b: &BookSide)
        ensures
            b.depth_view() == self.contents(),
            b.kind() == self.side_kind(),
            self.well_formed() ==> b.wf(),
            b.records() == self.level_records(),
    {
        &self.0
    }
}

impl Side for BidSide {
    closed spec fn contents(&self) -> DepthView {
        self.0.depth_view()
    }

    closed spec fn side_kind(&self) -> OrderSide {
        self.0.kind()
    }

    closed spec fn well_formed(&self) -> bool {
        self.0.wf() && self.0.kind() == OrderSide::Buy
    }

    closed spec fn level_records(&self) -> Seq<PriceLevelData> {
        self.0.records()
    }

    fn add_order(&mut self, order: Order) -> (id: OrderId) {
        self.0.insert_order(order)
    }

    fn remove_order(&mut self, order_id: &OrderId) -> (r: Option<Order>) {
        self.0.take_order(order_id)
    }

    fn best_price(&self) -> (p: Option<Price>) {
        self.0.get_best_price()
    }

    fn total_volume(&self) -> (q: Quantity) {
        self.0.volume()
    }

    fn depth(&self) -> (n: usize) {
        self.0.level_count()
    }

    fn get_order(&self, order_id: &OrderId) -> (r: Option<Order>) {
        self.0.find_order(order_id)
    }

    fn update_order<F: FnOnce(Order) -> Order>(&mut self, order_id: &OrderId, updater: F) -> (r: bool) {
        self.0.replace_order(order_id, updater)
    }

    fn price_levels(&self) -> (r: Vec<(Price, PriceLevelData)>) {
        self.0.levels_in_priority()
    }

    fn get_price_level(&self, price: Price) -> (r: Option<PriceLevelData>) {
        self.0.level_data_at(price)
    }

    fn next_best_order(&mut self) -> (r: Option<Order>) {
        self.0.take_next_best()
    }
}

impl Side for AskSide {
    closed spec fn contents(&self) -> DepthView {
        self.0.depth_view()
    }

    closed spec fn side_kind(&self) -> OrderSide {
        self.0.kind()
    }

    closed spec fn well_formed(&self) -> bool {
        self.0.wf() && self.0.kind() == OrderSide::Sell
    }

    closed spec fn level_records(&self) -> Seq<PriceLevelData> {
        self.0.records()
    }

    fn add_order(&mut self, order: Order) -> (id: OrderId) {
        self.0.insert_order(order)
    }

    fn remove_order(&mut self, order_id: &OrderId) -> (r: Option<Order>) {
        self.0.take_order(order_id)
    }

    fn best_price(&self) -> (p: Option<Price>) {
        self.0.get_best_price()
    }

    fn total_volume(&self) -> (q: Quantity) {
        self.0.volume()
    }

    fn depth(&self) -> (n: usize) {
        self.0.level_count()
    }

    fn get_order(&self, order_id: &OrderId) -> (r: Option<Order>) {
        self.0.find_order(order_id)
    }

    fn update_order<F: FnOnce(Order) -> Order>(&mut self, order_id: &OrderId, updater: F) -> (r: bool) {
        self.0.replace_order(order_id, updater)
    }

    fn price_levels(&self) -> (r: Vec<(Price, PriceLevelData)>) {
        self.0.levels_in_priority()
    }

    fn get_price_level(&self, price: Price) -> (r: Option<PriceLevelData>) {
        self.0.level_data_at(price)
    }

    fn next_best_order(&mut self) -> (r: Option<Order>) {
        self.0.take_next_best()
    }
}

} // verus!
