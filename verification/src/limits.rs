//! The exchange's position limit: which orders of a tick are accepted, and
//! why accepted orders keep the strategy within the limit.

use vstd::prelude::*;

use crate::book::{
    Level, LevelOwner, lemma_owned_entry_bound, lemma_with_level, nonnegative_side, owned_total,
};
use crate::matching::{
    Order, ProductLedger, apply_orders, lemma_apply_orders, lemma_order_totals,
    lemma_order_totals_prefix,
    lemma_resting_total_nonnegative, opening, positive_entries, resting_total, rest_orders,
    strategy_matching, total_buy, total_sell,
};

verus! {

/// Position limit of a product that the configuration does not name.
pub const DEFAULT_POSITION_LIMIT: i32 = 80;

/// Filling every order completely would keep the position within the limit.
pub open spec fn within_limit(position: int, limit: int, os: Seq<Order>) -> bool {
    &&& position + total_buy(os) <= limit
    &&& position - total_sell(os) >= -limit
}

/// The orders of one product that the exchange accepts: all of them when
/// filling every one would keep the position within the limit, none
/// otherwise.
pub open spec fn accepted_orders(position: int, limit: int, os: Seq<Order>) -> Seq<Order> {
    if within_limit(position, limit, os) {
        os
    } else {
        seq![]
    }
}

/// The value held, or the default when there is none.
pub open spec fn value_or(v: Option<i32>, default: i32) -> i32 {
    match v {
        Some(x) => x,
        None => default,
    }
}

/// Sums the buy and sell quantities of the orders.
fn order_totals(orders: &Vec<Order>) -> (r: (i32, i32))
    requires
        total_buy(orders@) <= i32::MAX,
        total_sell(orders@) <= i32::MAX,
    ensures
        r.0 == total_buy(orders@),
        r.1 == total_sell(orders@),
{
    let mut buy: i32 = 0;
    let mut sell: i32 = 0;
    let mut i: usize = 0;
    while i < orders.len()
        invariant
            i <= orders.len(),
            total_buy(orders@) <= i32::MAX,
            total_sell(orders@) <= i32::MAX,
            buy == total_buy(orders@.take(i as int)),
            sell == total_sell(orders@.take(i as int)),
        decreases orders.len() - i,
    {
        proof {
            lemma_order_totals_prefix(orders@, i + 1);
            assert(orders@.take(i + 1).drop_last() =~= orders@.take(i as int));
        }
        let q = orders[i].quantity;
        if q > 0 {
            buy = buy + q;
        } else if q < 0 {
            sell = sell - q;
        }
        i = i + 1;
    }
    assert(orders@.take(orders.len() as int) =~= orders@);
    (buy, sell)
}

/// Applies the position limit to one product's orders for this tick. The
/// position is the ledger's (zero for a product without one), the limit the
/// product's (`DEFAULT_POSITION_LIMIT` when it is not configured).
pub fn enforce_strategy_limits(
    orders: &Vec<Order>,
    current_position: Option<i32>,
    position_limit: Option<i32>,
) -> (accepted: Vec<Order>)
    requires
        total_buy(orders@) <= i32::MAX,
        total_sell(orders@) <= i32::MAX,
        value_or(position_limit, DEFAULT_POSITION_LIMIT) > i32::MIN,
        value_or(current_position, 0) + total_buy(orders@) <= i32::MAX,
        value_or(current_position, 0) - total_sell(orders@) >= i32::MIN,
    ensures
        accepted@ == accepted_orders(
            value_or(current_position, 0) as int,
            value_or(position_limit, DEFAULT_POSITION_LIMIT) as int,
            orders@,
        ),
{
    let limit = match position_limit {
        Some(l) => l,
        None => DEFAULT_POSITION_LIMIT,
    };
    let position = match current_position {
        Some(p) => p,
        None => 0,
    };
    let (buy, sell) = order_totals(orders);
    proof {
        lemma_order_totals(orders@);
    }
    if position + buy > limit || position - sell < -limit {
        Vec::new()
    } else {
        let mut accepted: Vec<Order> = Vec::new();
        let mut i: usize = 0;
        while i < orders.len()
            invariant
                i <= orders.len(),
                accepted@ == orders@.take(i as int),
            decreases orders.len() - i,
        {
            accepted.push(orders[i]);
            proof {
                assert(orders@.take(i + 1) =~= orders@.take(i as int).push(orders@[i as int]));
            }
            i = i + 1;
        }
        assert(orders@.take(orders.len() as int) =~= orders@);
        accepted
    }
}

/// The strategy's exposure on a side: its position plus what it still bids
/// for stays at or below the limit, and its position minus what it still
/// offers stays at or above minus the limit.
pub open spec fn exposure_within(bids: Seq<Level>, asks: Seq<Level>, position: int, limit: int) -> bool {
    &&& position + owned_total(bids, LevelOwner::Strategy) <= limit
    &&& position - owned_total(asks, LevelOwner::Strategy) >= -limit
}

/// Resting orders add exactly their quantity to the strategy's levels.
pub proof fn lemma_rest_orders_totals(levels: Seq<Level>, ps: Seq<(i32, i32)>, descending: bool)
    requires
        nonnegative_side(levels),
        positive_entries(ps),
        owned_total(levels, LevelOwner::Strategy) + resting_total(ps) <= i32::MAX,
    ensures
        nonnegative_side(rest_orders(levels, ps, descending)),
        owned_total(rest_orders(levels, ps, descending), LevelOwner::Strategy) == owned_total(
            levels,
            LevelOwner::Strategy,
        ) + resting_total(ps),
        owned_total(rest_orders(levels, ps, descending), LevelOwner::Bot) == owned_total(
            levels,
            LevelOwner::Bot,
        ),
    decreases ps.len(),
{
    if ps.len() > 0 {
        let pre = ps.drop_last();
        assert(positive_entries(pre));
        lemma_resting_total_nonnegative(pre);
        lemma_rest_orders_totals(levels, pre, descending);
        let s = rest_orders(levels, pre, descending);
        let l = Level { price: ps.last().0, quantity: ps.last().1, owner: LevelOwner::Strategy };
        crate::book::lemma_slot_index_facts(s, l);
        let i = crate::book::slot_index(s, l);
        if i < s.len() {
            lemma_owned_entry_bound(s, i);
        }
        lemma_with_level(s, l, descending, LevelOwner::Strategy);
        lemma_with_level(s, l, descending, LevelOwner::Bot);
    }
}

/// Law: when the book holds no strategy levels and the position is within
/// the limit, matching the orders that pass the limit check leaves the
/// strategy's exposure within the limit; in particular its position is.
pub proof fn law_accepted_orders_keep_exposure(
    bids: Seq<Level>,
    asks: Seq<Level>,
    ledger: ProductLedger,
    os: Seq<Order>,
    limit: int,
)
    requires
        nonnegative_side(bids),
        nonnegative_side(asks),
        owned_total(bids, LevelOwner::Strategy) == 0,
        owned_total(asks, LevelOwner::Strategy) == 0,
        -limit <= ledger.position <= limit,
        limit <= i32::MAX,
        total_buy(os) <= i32::MAX,
        total_sell(os) <= i32::MAX,
    ensures
        ({
            let m = strategy_matching(bids, asks, ledger, accepted_orders(ledger.position as int, limit, os));
            let final_bids = rest_orders(m.bids, m.resting_bids, true);
            let final_asks = rest_orders(m.asks, m.resting_asks, false);
            &&& exposure_within(final_bids, final_asks, m.position, limit)
            &&& -limit <= m.position <= limit
            &&& nonnegative_side(final_bids)
            &&& nonnegative_side(final_asks)
        }),
{
    let acc = accepted_orders(ledger.position as int, limit, os);
    let m0 = opening(bids, asks, ledger);
    if within_limit(ledger.position as int, limit, os) {
        lemma_apply_orders(m0, os);
    } else {
        assert(acc.len() == 0);
        lemma_order_totals(acc);
        lemma_apply_orders(m0, acc);
    }
    let m = apply_orders(m0, acc);
    lemma_resting_total_nonnegative(m.resting_bids);
    lemma_resting_total_nonnegative(m.resting_asks);
    lemma_rest_orders_totals(m.bids, m.resting_bids, true);
    lemma_rest_orders_totals(m.asks, m.resting_asks, false);
}


} // verus!
