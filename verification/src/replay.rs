//! What the simulator reads from historical data: trade counts per tick and
//! the bot walls of a recorded book.

use vstd::prelude::*;

verus! {

/// Ticks in one historical day.
pub const DEFAULT_TICKS_PER_DAY: usize = 10_000;

/// Timestamp distance between two ticks.
pub const TIMESTAMP_STEP: i32 = 100;

/// Why historical trades could not be bucketed.
#[derive(Clone, Copy, Debug, PartialEq, Eq, Structural)]
pub enum ReplayError {
    /// A trade's timestamp falls before the first tick.
    NegativeTimestamp,
}

/// Tick of a timestamp: the timestamp divided by the step, rounded toward zero.
pub open spec fn tick_of(timestamp: i32) -> int {
    if timestamp >= 0 {
        timestamp as int / 100
    } else {
        -((-(timestamp as int)) / 100)
    }
}

/// Timestamps of the trades of one product, in order.
pub open spec fn product_timestamps(trades: Seq<(String, i32)>, product: Seq<char>) -> Seq<i32>
    decreases trades.len(),
{
    if trades.len() == 0 {
        seq![]
    } else if trades.last().0@ == product {
        product_timestamps(trades.drop_last(), product).push(trades.last().1)
    } else {
        product_timestamps(trades.drop_last(), product)
    }
}

/// Number of timestamps that fall on tick `k`.
pub open spec fn tick_count(ts: Seq<i32>, k: int) -> int
    decreases ts.len(),
{
    if ts.len() == 0 {
        0
    } else {
        tick_count(ts.drop_last(), k) + if tick_of(ts.last()) == k {
            1int
        } else {
            0
        }
    }
}

/// Some timestamp falls before the first tick.
pub open spec fn has_negative_tick(ts: Seq<i32>) -> bool {
    exists|i: int| 0 <= i < ts.len() && tick_of(#[trigger] ts[i]) < 0
}

proof fn lemma_tick_count_bound(ts: Seq<i32>, k: int)
    ensures
        0 <= tick_count(ts, k) <= ts.len(),
    decreases ts.len(),
{
    if ts.len() > 0 {
        lemma_tick_count_bound(ts.drop_last(), k);
    }
}

/// Counts, for each tick of a historical day, the trades of `product` at
/// that tick. Trades at or past the last tick are left out. A trade before
/// the first tick makes the data unusable.
pub fn replay_trade_counts(trades: &Vec<(String, i32)>, product: &String) -> (r: Result<
    Vec<usize>,
    ReplayError,
>)
    ensures
        r is Err <==> has_negative_tick(product_timestamps(trades@, product@)),
        r matches Ok(counts) ==> counts@.len() == DEFAULT_TICKS_PER_DAY && forall|k: int|
            0 <= k < DEFAULT_TICKS_PER_DAY ==> #[trigger] counts@[k] == tick_count(
                product_timestamps(trades@, product@),
                k,
            ),
{
    let mut counts: Vec<usize> = Vec::new();
    while counts.len() < DEFAULT_TICKS_PER_DAY
        invariant
            counts@.len() <= DEFAULT_TICKS_PER_DAY,
            forall|k: int| 0 <= k < counts@.len() ==> #[trigger] counts@[k] == 0,
        decreases DEFAULT_TICKS_PER_DAY - counts.len(),
    {
        counts.push(0);
    }
    let mut i: usize = 0;
    proof {
        assert(trades@.take(0) =~= Seq::<(String, i32)>::empty());
    }
    while i < trades.len()
        invariant
            i <= trades.len(),
            counts@.len() == DEFAULT_TICKS_PER_DAY,
            !has_negative_tick(product_timestamps(trades@.take(i as int), product@)),
            forall|k: int|
                0 <= k < DEFAULT_TICKS_PER_DAY ==> #[trigger] counts@[k] == tick_count(
                    product_timestamps(trades@.take(i as int), product@),
                    k,
                ),
        decreases trades.len() - i,
    {
        let ghost pre = product_timestamps(trades@.take(i as int), product@);
        proof {
            assert(trades@.take(i + 1).drop_last() =~= trades@.take(i as int));
            assert(trades@.take(i + 1).last() == trades@[i as int]);
        }
        let (symbol, timestamp) = (&trades[i].0, trades[i].1);
        if *symbol == *product {
            let ghost next = pre.push(timestamp);
            assert(product_timestamps(trades@.take(i + 1), product@) == next);
            if timestamp < 0 {
                if timestamp <= -TIMESTAMP_STEP {
                    proof {
                        assert(next[pre.len() as int] == timestamp);
                        assert(tick_of(next[pre.len() as int]) < 0);
                        lemma_negative_tick_extends(trades@, product@, i as int + 1);
                    }
                    return Err(ReplayError::NegativeTimestamp);
                }
            }
            let index: usize = if timestamp < 0 {
                0
            } else {
                (timestamp / TIMESTAMP_STEP) as usize
            };
            proof {
                assert(tick_of(timestamp) == index);
                assert forall|j: int| 0 <= j < next.len() implies tick_of(#[trigger] next[j]) >= 0 by {
                    if j < pre.len() {
                        assert(next[j] == pre[j]);
                    }
                }
            }
            if index < counts.len() {
                proof {
                    lemma_tick_count_bound(pre, index as int);
                    lemma_product_timestamps_len(trades@.take(i as int), product@);
                }
                let c = counts[index];
                counts.set(index, c + 1);
            }
            proof {
                assert forall|k: int| 0 <= k < DEFAULT_TICKS_PER_DAY implies #[trigger] counts@[k]
                    == tick_count(next, k) by {
                    assert(next.drop_last() =~= pre);
                }
            }
        } else {
            proof {
                assert(product_timestamps(trades@.take(i + 1), product@) == pre);
            }
        }
        i = i + 1;
    }
    proof {
        assert(trades@.take(trades.len() as int) =~= trades@);
    }
    Ok(counts)
}

proof fn lemma_product_timestamps_len(trades: Seq<(String, i32)>, product: Seq<char>)
    ensures
        product_timestamps(trades, product).len() <= trades.len(),
    decreases trades.len(),
{
    if trades.len() > 0 {
        lemma_product_timestamps_len(trades.drop_last(), product);
    }
}

/// Once a prefix of the trades holds a trade before the first tick, so do
/// all the trades.
proof fn lemma_negative_tick_extends(trades: Seq<(String, i32)>, product: Seq<char>, i: int)
    requires
        0 <= i <= trades.len(),
        has_negative_tick(product_timestamps(trades.take(i), product)),
    ensures
        has_negative_tick(product_timestamps(trades, product)),
    decreases trades.len() - i,
{
    if i == trades.len() {
        assert(trades.take(i) =~= trades);
    } else {
        let a = product_timestamps(trades.take(i), product);
        let b = product_timestamps(trades.take(i + 1), product);
        assert(trades.take(i + 1).drop_last() =~= trades.take(i));
        let w = choose|j: int| 0 <= j < a.len() && tick_of(#[trigger] a[j]) < 0;
        assert(b[w] == a[w]);
        lemma_negative_tick_extends(trades, product, i + 1);
    }
}

/// Best-to-worst prices of the three bid and three ask levels of a
/// recorded book; levels the recording leaves empty are `None`.
#[derive(Clone, Copy, Debug, PartialEq, Eq, Structural)]
pub struct PriceLevels {
    pub bid_price_1: Option<i32>,
    pub bid_price_2: Option<i32>,
    pub bid_price_3: Option<i32>,
    pub ask_price_1: Option<i32>,
    pub ask_price_2: Option<i32>,
    pub ask_price_3: Option<i32>,
}

/// The four wall prices `(inner bid, outer bid, inner ask, outer ask)` of a
/// recorded book, both present on each side.
pub open spec fn walls(a: Option<i32>, b: Option<i32>, c: Option<i32>, d: Option<i32>) -> Option<
    (i32, i32, i32, i32),
> {
    match (a, b, c, d) {
        (Some(w), Some(x), Some(y), Some(z)) => Some((w, x, y, z)),
        _ => None,
    }
}

/// The inner and outer walls of a recorded tomato book. A third level on
/// one side is an inside quote in front of the walls, so that side's walls
/// are its second and third levels; with a third level on both sides the
/// walls cannot be told apart.
pub open spec fn wall_quotes(row: PriceLevels) -> Option<(i32, i32, i32, i32)> {
    match (row.bid_price_3 is Some, row.ask_price_3 is Some) {
        (false, false) => walls(row.bid_price_1, row.bid_price_2, row.ask_price_1, row.ask_price_2),
        (true, false) => walls(row.bid_price_2, row.bid_price_3, row.ask_price_1, row.ask_price_2),
        (false, true) => walls(row.bid_price_1, row.bid_price_2, row.ask_price_2, row.ask_price_3),
        (true, true) => None,
    }
}

fn four(a: Option<i32>, b: Option<i32>, c: Option<i32>, d: Option<i32>) -> (r: Option<
    (i32, i32, i32, i32),
>)
    ensures
        r == walls(a, b, c, d),
{
    match (a, b, c, d) {
        (Some(w), Some(x), Some(y), Some(z)) => Some((w, x, y, z)),
        _ => None,
    }
}

/// Picks the wall prices out of a recorded book (see `wall_quotes`).
pub fn tomato_wall_quotes(row: &PriceLevels) -> (r: Option<(i32, i32, i32, i32)>)
    ensures
        r == wall_quotes(*row),
{
    match (row.bid_price_3.is_some(), row.ask_price_3.is_some()) {
        (false, false) => four(row.bid_price_1, row.bid_price_2, row.ask_price_1, row.ask_price_2),
        (true, false) => four(row.bid_price_2, row.bid_price_3, row.ask_price_1, row.ask_price_2),
        (false, true) => four(row.bid_price_1, row.bid_price_2, row.ask_price_2, row.ask_price_3),
        (true, true) => None,
    }
}

/// The smaller of two optional prices, ignoring absent ones.
pub open spec fn lower(a: Option<i32>, b: Option<i32>) -> Option<i32> {
    match (a, b) {
        (Some(x), Some(y)) => Some(if x <= y { x } else { y }),
        (Some(x), None) => Some(x),
        (None, y) => y,
    }
}

/// The larger of two optional prices, ignoring absent ones.
pub open spec fn higher(a: Option<i32>, b: Option<i32>) -> Option<i32> {
    match (a, b) {
        (Some(x), Some(y)) => Some(if x >= y { x } else { y }),
        (Some(x), None) => Some(x),
        (None, y) => y,
    }
}

fn lower_of(a: Option<i32>, b: Option<i32>) -> (r: Option<i32>)
    ensures
        r == lower(a, b),
{
    match (a, b) {
        (Some(x), Some(y)) => Some(if x <= y { x } else { y }),
        (Some(x), None) => Some(x),
        (None, y) => y,
    }
}

fn higher_of(a: Option<i32>, b: Option<i32>) -> (r: Option<i32>)
    ensures
        r == higher(a, b),
{
    match (a, b) {
        (Some(x), Some(y)) => Some(if x >= y { x } else { y }),
        (Some(x), None) => Some(x),
        (None, y) => y,
    }
}

/// The worst (lowest) bid and worst (highest) ask of a recorded book, zero
/// for a side without levels. Their midpoint is the observed fair value.
pub fn worst_quotes(row: &PriceLevels) -> (r: (i32, i32))
    ensures
        r.0 == (match lower(lower(row.bid_price_1, row.bid_price_2), row.bid_price_3) {
            Some(p) => p,
            None => 0,
        }),
        r.1 == (match higher(higher(row.ask_price_1, row.ask_price_2), row.ask_price_3) {
            Some(p) => p,
            None => 0,
        }),
{
    let bid = match lower_of(lower_of(row.bid_price_1, row.bid_price_2), row.bid_price_3) {
        Some(p) => p,
        None => 0,
    };
    let ask = match higher_of(higher_of(row.ask_price_1, row.ask_price_2), row.ask_price_3) {
        Some(p) => p,
        None => 0,
    };
    (bid, ask)
}

} // verus!
