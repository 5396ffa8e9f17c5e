//! Market depth snapshots, market impact estimates and liquidity in a price
//! range: the integer data the book computes from its levels.

use vstd::prelude::*;
use crate::order::{Order, OrderSide, Price, Quantity, Timestamp, total_remaining};
use crate::side::{DepthView, best_levels, depth_total, priority_index, lemma_depth_total_concat, lemma_depth_total_single};

verus! {

/// One price level in a market depth snapshot
#[derive(Debug, Clone, Copy, PartialEq, Eq, Structural)]
pub struct PriceVolumeLevel {
    /// Price of the level
    pub price: Price,
    /// Volume at the level
    pub volume: Quantity,
    /// Number of orders at the level
    pub order_count: usize,
    /// Volume of this level and all better ones (0 when not requested)
    pub cumulative_volume: Quantity,
}

/// Market depth: bids by descending price, asks by ascending price
#[derive(Debug, Clone)]
pub struct MarketDepthData {
    /// When the book last changed
    pub timestamp: Timestamp,
    /// Bid levels, best (highest) price first
    pub bids: Vec<PriceVolumeLevel>,
    /// Ask levels, best (lowest) price first
    pub asks: Vec<PriceVolumeLevel>,
    /// Total volume on the bid side
    pub total_bid_volume: Quantity,
    /// Total volume on the ask side
    pub total_ask_volume: Quantity,
}

/// One price level that a market order would take volume from
#[derive(Debug, Clone, Copy, PartialEq, Eq, Structural)]
pub struct ExecutionLevel {
    /// Price of the level
    pub price: Price,
    /// Volume the order would take there
    pub executed_volume: Quantity,
}

/// What a market order of a given size would fill against the book
#[derive(Debug, Clone)]
pub struct MarketImpactData {
    /// Size of the order
    pub order_size: Quantity,
    /// Side of the order
    pub side: OrderSide,
    /// Volume that the book can fill
    pub executed_quantity: Quantity,
    /// Sum over the execution levels of price times executed volume, in
    /// internal price units times internal quantity units
    pub total_value: i128,
    /// Best price on the side the order takes from
    pub base_price: Option<Price>,
    /// The levels the order would take volume from, best price first
    pub execution_levels: Vec<ExecutionLevel>,
}

/// Volume and order counts near the middle of the book
#[derive(Debug, Clone, Copy, PartialEq, Eq, Structural)]
pub struct LiquidityData {
    /// Volume of the bid levels priced at or above the lower bound
    pub bid_volume_in_range: Quantity,
    /// Volume of the ask levels priced at or below the upper bound
    pub ask_volume_in_range: Quantity,
    /// Orders at the bid levels priced at or above the lower bound
    pub bid_orders_in_range: usize,
    /// Orders at the ask levels priced at or below the upper bound
    pub ask_orders_in_range: usize,
    /// Total volume on the bid side
    pub total_bid_volume: Quantity,
    /// Total volume on the ask side
    pub total_ask_volume: Quantity,
}

/// Options for a market depth query
#[derive(Debug, Clone, Copy, PartialEq, Eq, Structural)]
pub struct MarketDepthOptions {
    /// Maximum number of levels per side
    pub max_levels: usize,
    /// Whether statistics are wanted
    pub calculate_statistics: bool,
    /// Whether cumulative volumes are wanted
    pub calculate_cumulative: bool,
    /// Whether nearby levels are to be grouped
    pub group_levels: bool,
    /// Smallest distance between grouped levels
    pub group_threshold: Option<Price>,
}

/// The default options: ten levels a side, with statistics and cumulative
/// volumes, no grouping.
pub open spec fn default_depth_options() -> MarketDepthOptions {
    MarketDepthOptions {
        max_levels: 10,
        calculate_statistics: true,
        calculate_cumulative: true,
        group_levels: false,
        group_threshold: None,
    }
}

impl Default for MarketDepthOptions {
    fn default() -> (o: Self)
        ensures
            o == default_depth_options(),
    {
        MarketDepthOptions {
            max_levels: 10,
            calculate_statistics: true,
            calculate_cumulative: true,
            group_levels: false,
            group_threshold: None,
        }
    }
}

/// The market depth row of the `j`-th level of a side in priority order; the
/// cumulative volume counts that level and all better ones.
pub open spec fn depth_row(v: DepthView, side: OrderSide, j: int, cumulative: bool) -> PriceVolumeLevel {
    let i = priority_index(v.len(), side, j);
    PriceVolumeLevel {
        price: v[i].0,
        volume: total_remaining(v[i].1) as u64,
        order_count: v[i].1.len() as usize,
        cumulative_volume: if cumulative { depth_total(best_levels(v, side, j + 1)) as u64 } else { 0 },
    }
}

/// A side's levels in priority order (best price first), as (price, volume).
pub open spec fn ladder(v: DepthView, side: OrderSide) -> Seq<(Price, nat)> {
    Seq::new(
        v.len(),
        |j: int| (v[priority_index(v.len(), side, j)].0, total_remaining(v[priority_index(v.len(), side, j)].1)),
    )
}

/// What an order of size `remaining` takes, level by level, from a ladder:
/// from each level in turn the smaller of what is left of the order and the
/// level's volume, skipping levels it would take nothing from, until nothing
/// is left.
pub open spec fn fill_plan(l: Seq<(Price, nat)>, remaining: nat) -> Seq<(Price, nat)>
    decreases l.len(),
{
    if l.len() == 0 || remaining == 0 {
        Seq::empty()
    } else {
        let e = if remaining < l[0].1 { remaining } else { l[0].1 };
        if e > 0 {
            seq![(l[0].0, e)] + fill_plan(l.drop_first(), (remaining - e) as nat)
        } else {
            fill_plan(l.drop_first(), remaining)
        }
    }
}

/// Total volume of a plan or ladder.
pub open spec fn plan_volume(p: Seq<(Price, nat)>) -> nat
    decreases p.len(),
{
    if p.len() == 0 {
        0
    } else {
        plan_volume(p.drop_last()) + p.last().1
    }
}

/// Total value (price times volume) of a plan.
pub open spec fn plan_value(p: Seq<(Price, nat)>) -> int
    decreases p.len(),
{
    if p.len() == 0 {
        0
    } else {
        plan_value(p.drop_last()) + p.last().0 * p.last().1
    }
}

/// Execution levels as (price, volume) pairs.
pub open spec fn executions_view(e: Seq<ExecutionLevel>) -> Seq<(Price, nat)> {
    e.map_values(|x: ExecutionLevel| (x.price, x.executed_volume as nat))
}

/// The volume of a concatenation is the sum of the volumes.
pub proof fn lemma_plan_volume_concat(a: Seq<(Price, nat)>, b: Seq<(Price, nat)>)
    ensures
        plan_volume(a + b) == plan_volume(a) + plan_volume(b),
    decreases b.len(),
{
    if b.len() == 0 {
        assert(a + b =~= a);
    } else {
        lemma_plan_volume_concat(a, b.drop_last());
        assert((a + b).drop_last() =~= a + b.drop_last());
    }
}

/// Each unit of volume in a plan is worth at most a price's magnitude.
pub proof fn lemma_plan_value_bound(p: Seq<(Price, nat)>)
    ensures
        -0x8000_0000_0000_0000 * plan_volume(p) <= plan_value(p) <= 0x7fff_ffff_ffff_ffff * plan_volume(p),
    decreases p.len(),
{
    if p.len() > 0 {
        lemma_plan_value_bound(p.drop_last());
        let (price, vol) = p.last();
        assert(-0x8000_0000_0000_0000 * vol <= price * vol <= 0x7fff_ffff_ffff_ffff * vol) by (nonlinear_arith)
            requires i64::MIN <= price <= i64::MAX, vol >= 0;
        assert(-0x8000_0000_0000_0000 * plan_volume(p) == -0x8000_0000_0000_0000 * plan_volume(p.drop_last())
            + -0x8000_0000_0000_0000 * vol) by (nonlinear_arith)
            requires plan_volume(p) == plan_volume(p.drop_last()) + vol;
        assert(0x7fff_ffff_ffff_ffff * plan_volume(p) == 0x7fff_ffff_ffff_ffff * plan_volume(p.drop_last())
            + 0x7fff_ffff_ffff_ffff * vol) by (nonlinear_arith)
            requires plan_volume(p) == plan_volume(p.drop_last()) + vol;
    }
}

/// A single entry's volume.
proof fn lemma_plan_volume_single(x: (Price, nat))
    ensures
        plan_volume(seq![x]) == x.1,
{
    assert(seq![x].drop_last() =~= Seq::<(Price, nat)>::empty());
    assert(plan_volume(Seq::<(Price, nat)>::empty()) == 0);
    assert(seq![x].last() == x);
}

/// The volume of a non-empty sequence is its first entry's plus the rest's.
proof fn lemma_plan_volume_first(l: Seq<(Price, nat)>)
    requires
        l.len() > 0,
    ensures
        plan_volume(l) == l[0].1 + plan_volume(l.drop_first()),
{
    assert(seq![l[0]] + l.drop_first() =~= l);
    lemma_plan_volume_concat(seq![l[0]], l.drop_first());
    lemma_plan_volume_single(l[0]);
}

/// A plan takes exactly the smaller of the order's size and the ladder's
/// whole volume.
pub proof fn lemma_fill_plan_volume(l: Seq<(Price, nat)>, remaining: nat)
    ensures
        plan_volume(fill_plan(l, remaining)) == if remaining < plan_volume(l) { remaining } else { plan_volume(l) },
    decreases l.len(),
{
    if l.len() == 0 {
        assert(plan_volume(fill_plan(l, remaining)) == 0);
    } else if remaining == 0 {
        assert(fill_plan(l, remaining) =~= Seq::<(Price, nat)>::empty());
        assert(plan_volume(Seq::<(Price, nat)>::empty()) == 0);
    } else {
        lemma_plan_volume_first(l);
        let e = if remaining < l[0].1 { remaining } else { l[0].1 };
        if e > 0 {
            let rest = fill_plan(l.drop_first(), (remaining - e) as nat);
            lemma_fill_plan_volume(l.drop_first(), (remaining - e) as nat);
            assert(fill_plan(l, remaining) == seq![(l[0].0, e)] + rest);
            lemma_plan_volume_concat(seq![(l[0].0, e)], rest);
            lemma_plan_volume_single((l[0].0, e));
        } else {
            lemma_fill_plan_volume(l.drop_first(), remaining);
            assert(fill_plan(l, remaining) == fill_plan(l.drop_first(), remaining));
        }
    }
}

/// The ladder of a side holds the side's whole volume.
pub proof fn lemma_ladder_volume(v: DepthView, side: OrderSide)
    ensures
        plan_volume(ladder(v, side)) == depth_total(v),
    decreases v.len(),
{
    let l = ladder(v, side);
    if v.len() == 0 {
        assert(l =~= Seq::<(Price, nat)>::empty());
        assert(plan_volume(Seq::<(Price, nat)>::empty()) == 0);
    } else {
        lemma_plan_volume_first(l);
        match side {
            OrderSide::Buy => {
                let w = v.drop_last();
                lemma_ladder_volume(w, side);
                assert(l.drop_first() =~= ladder(w, side));
                assert(l[0].1 == total_remaining(v.last().1));
            },
            OrderSide::Sell => {
                let w = v.drop_first();
                lemma_ladder_volume(w, side);
                assert(l.drop_first() =~= ladder(w, side));
                assert(v =~= seq![v[0]] + w);
                lemma_depth_total_concat(seq![v[0]], w);
                lemma_depth_total_single(v[0]);
            },
        }
    }
}

} // verus!
