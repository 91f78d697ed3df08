//! The bot taker flow: how many units a market order asks for, and how it
//! sweeps the book.

use vstd::prelude::*;

use crate::book::{
    Book, Level, LevelOwner, SimBook, is_ordered, level_total, nonnegative_side, owned_total,
};
use crate::limits::{accepted_orders, exposure_within, law_accepted_orders_keep_exposure};
use crate::matching::{
    Fill, Order, Party, ProductLedger, Trade, cash_flow, cash_limit, fill_is, fills_are,
    lemma_front_change_keeps_order, lemma_level_total_update, lemma_notional_bound, rest_orders,
    strategy_matching, total_buy, total_sell, unit_flow,
};
use crate::rng::{
    WeightedChoice, index_weights, new_weighted_index, sample_weighted_index, weight_sum,
};
use rand_chacha::ChaCha8Rng;

verus! {

/// What is left of a side after a taker order swept it, and the levels it
/// hit, each with the quantity taken from it.
pub ghost struct TakerSweep {
    pub levels: Seq<Level>,
    pub hits: Seq<Level>,
}

/// A taker order for `wanted` units takes the side's levels from the front,
/// bot and strategy levels alike, each up to what is still wanted;
/// exhausted levels leave the side. A level with nothing on it is removed
/// and ends the order.
pub open spec fn taker_sweep(levels: Seq<Level>, wanted: int) -> TakerSweep
    decreases levels.len(),
{
    if wanted <= 0 || levels.len() == 0 {
        TakerSweep { levels, hits: seq![] }
    } else {
        let best = levels[0];
        let q: int = if wanted < best.quantity {
            wanted
        } else {
            best.quantity as int
        };
        if best.quantity - q == 0 {
            if q <= 0 {
                TakerSweep { levels: levels.drop_first(), hits: seq![] }
            } else {
                let rest = taker_sweep(levels.drop_first(), wanted - q);
                TakerSweep { hits: seq![Level { quantity: q as i32, ..best }] + rest.hits, ..rest }
            }
        } else {
            TakerSweep {
                levels: levels.update(0, Level { quantity: (best.quantity - q) as i32, ..best }),
                hits: seq![Level { quantity: q as i32, ..best }],
            }
        }
    }
}

/// The trade a taker order makes with one level: the taker bot is on the
/// order's side, the level's owner on the other.
pub open spec fn taker_trade(h: Level, market_buy: bool) -> Trade {
    let maker = match h.owner {
        LevelOwner::Bot => Party::BotMaker,
        LevelOwner::Strategy => Party::Submission,
    };
    if market_buy {
        Trade { price: h.price, quantity: h.quantity, buyer: Party::BotTaker, seller: maker }
    } else {
        Trade { price: h.price, quantity: h.quantity, buyer: maker, seller: Party::BotTaker }
    }
}

/// The trades of a taker order, one per level hit.
pub open spec fn taker_trades(hits: Seq<Level>, market_buy: bool) -> Seq<Trade> {
    Seq::new(hits.len(), |i: int| taker_trade(hits[i], market_buy))
}

/// Value `price * quantity` of the strategy's levels among the hits.
pub open spec fn strategy_notional(hits: Seq<Level>) -> int
    decreases hits.len(),
{
    if hits.len() == 0 {
        0
    } else {
        (if hits[0].owner == LevelOwner::Strategy {
            hits[0].price * hits[0].quantity
        } else {
            0
        }) + strategy_notional(hits.drop_first())
    }
}

/// Facts about a taker sweep: what it takes off each owner's levels is
/// exactly what its hits record.
pub proof fn lemma_taker_sweep(levels: Seq<Level>, wanted: int)
    requires
        nonnegative_side(levels),
    ensures
        nonnegative_side(taker_sweep(levels, wanted).levels),
        nonnegative_side(taker_sweep(levels, wanted).hits),
        owned_total(taker_sweep(levels, wanted).levels, LevelOwner::Strategy) + owned_total(
            taker_sweep(levels, wanted).hits,
            LevelOwner::Strategy,
        ) == owned_total(levels, LevelOwner::Strategy),
        owned_total(taker_sweep(levels, wanted).levels, LevelOwner::Bot) + owned_total(
            taker_sweep(levels, wanted).hits,
            LevelOwner::Bot,
        ) == owned_total(levels, LevelOwner::Bot),
        wanted >= 0 ==> level_total(taker_sweep(levels, wanted).hits) <= wanted,
        -0x8000_0000 * owned_total(taker_sweep(levels, wanted).hits, LevelOwner::Strategy)
            <= strategy_notional(taker_sweep(levels, wanted).hits) <= 0x8000_0000 * owned_total(
            taker_sweep(levels, wanted).hits,
            LevelOwner::Strategy,
        ),
    decreases levels.len(),
{
    let r = taker_sweep(levels, wanted);
    let e = Seq::<Level>::empty();
    assert(owned_total(e, LevelOwner::Strategy) == 0);
    assert(owned_total(e, LevelOwner::Bot) == 0);
    assert(level_total(e) == 0);
    assert(strategy_notional(e) == 0);
    if wanted <= 0 || levels.len() == 0 {
    } else {
        let best = levels[0];
        let t = levels.drop_first();
        assert forall|k: int| 0 <= k < t.len() implies (#[trigger] t[k]).quantity >= 0 by {
            assert(t[k] == levels[k + 1]);
        }
        let q: int = if wanted < best.quantity {
            wanted
        } else {
            best.quantity as int
        };
        assert(best.quantity >= 0);
        let h = Level { quantity: q as i32, ..best };
        lemma_notional_bound(best.price, q);
        if best.quantity - q == 0 {
            if q <= 0 {
            } else {
                lemma_taker_sweep(t, wanted - q);
                let rest = taker_sweep(t, wanted - q);
                assert(r.hits == seq![h] + rest.hits);
                assert(r.levels == rest.levels);
                assert((seq![h] + rest.hits).drop_first() =~= rest.hits);
                assert forall|k: int| 0 <= k < r.hits.len() implies (#[trigger] r.hits[k]).quantity
                    >= 0 by {
                    if k > 0 {
                        assert(r.hits[k] == rest.hits[k - 1]);
                    }
                }
            }
        } else {
            let nl = Level { quantity: (best.quantity - q) as i32, ..best };
            lemma_level_total_update(levels, nl);
            assert(r.hits == seq![h]);
            assert(seq![h].drop_first() =~= e);
            assert(levels.update(0, nl).drop_first() =~= t);
            assert forall|k: int| 0 <= k < r.levels.len() implies (#[trigger] r.levels[k]).quantity
                >= 0 by {
                if k > 0 {
                    assert(r.levels[k] == levels[k]);
                }
            }
        }
    }
}

/// Every level of the side holds a positive quantity.
pub open spec fn positive_side(levels: Seq<Level>) -> bool {
    forall|i: int| 0 <= i < levels.len() ==> (#[trigger] levels[i]).quantity > 0
}

/// Law: a taker sweep leaves no exhausted level behind. When every level of
/// the side holds something, every level left does too. The levels left are
/// the side's last levels, untouched but for the first, which keeps its
/// price and owner and holds no more than before; every hit takes something.
pub proof fn law_taker_sweep_leaves_no_empty_level(levels: Seq<Level>, wanted: int)
    requires
        positive_side(levels),
    ensures
        ({
            let r = taker_sweep(levels, wanted);
            let d = levels.len() - r.levels.len();
            &&& positive_side(r.levels)
            &&& positive_side(r.hits)
            &&& 0 <= d <= levels.len()
            &&& forall|i: int| 1 <= i < r.levels.len() ==> #[trigger] r.levels[i] == levels[i + d]
            &&& r.levels.len() > 0 ==> r.levels[0].price == levels[d].price && r.levels[0].owner
                == levels[d].owner && r.levels[0].quantity <= levels[d].quantity
        }),
    decreases levels.len(),
{
    let r = taker_sweep(levels, wanted);
    if wanted <= 0 || levels.len() == 0 {
    } else {
        let best = levels[0];
        let t = levels.drop_first();
        assert forall|k: int| 0 <= k < t.len() implies (#[trigger] t[k]).quantity > 0 by {
            assert(t[k] == levels[k + 1]);
        }
        let q: int = if wanted < best.quantity {
            wanted
        } else {
            best.quantity as int
        };
        assert(best.quantity > 0);
        if best.quantity - q == 0 {
            law_taker_sweep_leaves_no_empty_level(t, wanted - q);
            let rest = taker_sweep(t, wanted - q);
            assert(r.levels == rest.levels);
            assert forall|k: int| 0 <= k < r.hits.len() implies (#[trigger] r.hits[k]).quantity
                > 0 by {
                if k > 0 {
                    assert(r.hits[k] == rest.hits[k - 1]);
                }
            }
            assert forall|i: int| 1 <= i < r.levels.len() implies #[trigger] r.levels[i]
                == levels[i + (levels.len() - r.levels.len())] by {
                assert(rest.levels[i] == t[i + (t.len() - rest.levels.len())]);
            }
            if r.levels.len() > 0 {
                let d = levels.len() - r.levels.len();
                assert(t[d - 1] == levels[d]);
            }
        } else {
            assert forall|k: int| 0 <= k < r.levels.len() implies (#[trigger] r.levels[k]).quantity
                > 0 by {
                if k > 0 {
                    assert(r.levels[k] == levels[k]);
                }
            }
            assert forall|k: int| 0 <= k < r.hits.len() implies (#[trigger] r.hits[k]).quantity
                > 0 by {
                assert(r.hits[k].quantity == q);
            }
        }
    }
}

/// The taker order for `quantity` units leaves the book and ledger without
/// overflow: quantities are nonnegative and the strategy's levels on the
/// side hit, moved into its position, fit in 32 bits.
pub open spec fn taker_fits(
    bids: Seq<Level>,
    asks: Seq<Level>,
    ledger: ProductLedger,
    market_buy: bool,
) -> bool {
    &&& nonnegative_side(bids)
    &&& nonnegative_side(asks)
    &&& if market_buy {
        ledger.position - owned_total(asks, LevelOwner::Strategy) >= i32::MIN
    } else {
        ledger.position + owned_total(bids, LevelOwner::Strategy) <= i32::MAX
    }
    &&& -cash_limit() <= ledger.cash <= cash_limit()
}

/// Sweeps one side of the book with a taker order and moves the ledger by
/// what was taken from the strategy's levels.
fn sweep_for_taker(
    levels: &mut Vec<Level>,
    ledger: &mut ProductLedger,
    fills: &mut Vec<Fill>,
    product: &str,
    timestamp: i32,
    market_buy: bool,
    quantity: i32,
)
    requires
        nonnegative_side(old(levels)@),
        old(fills)@.len() == 0,
        if market_buy {
            old(ledger).position - owned_total(old(levels)@, LevelOwner::Strategy) >= i32::MIN
        } else {
            old(ledger).position + owned_total(old(levels)@, LevelOwner::Strategy) <= i32::MAX
        },
        -cash_limit() <= old(ledger).cash <= cash_limit(),
    ensures
        ({
            let r = taker_sweep(old(levels)@, quantity as int);
            let taken = owned_total(r.hits, LevelOwner::Strategy);
            &&& final(levels)@ == r.levels
            &&& final(ledger).position == (if market_buy {
                old(ledger).position - taken
            } else {
                old(ledger).position + taken
            })
            &&& final(ledger).cash == (if market_buy {
                old(ledger).cash + strategy_notional(r.hits)
            } else {
                old(ledger).cash - strategy_notional(r.hits)
            })
            &&& fills_are(final(fills)@, taker_trades(r.hits, market_buy), product@, timestamp)
        }),
{
    let ghost start = levels@;
    let ghost ledger0 = *ledger;
    let mut remaining = quantity;
    proof {
        lemma_taker_sweep(start, quantity as int);
        crate::book::lemma_owned_total_nonnegative(start, LevelOwner::Strategy);
    }
    let ghost hits: Seq<Level> = seq![];
    while remaining > 0
        invariant_except_break
            remaining > 0 ==> taker_sweep(start, quantity as int).levels == taker_sweep(
                levels@,
                remaining as int,
            ).levels,
            remaining > 0 ==> taker_sweep(start, quantity as int).hits == hits + taker_sweep(
                levels@,
                remaining as int,
            ).hits,
        invariant
            nonnegative_side(levels@),
            remaining <= 0 ==> taker_sweep(start, quantity as int).levels == levels@,
            remaining <= 0 ==> taker_sweep(start, quantity as int).hits == hits,
            nonnegative_side(hits),
            owned_total(levels@, LevelOwner::Strategy) + owned_total(hits, LevelOwner::Strategy)
                == owned_total(start, LevelOwner::Strategy),
            -0x8000_0000 * owned_total(hits, LevelOwner::Strategy) <= strategy_notional(hits)
                <= 0x8000_0000 * owned_total(hits, LevelOwner::Strategy),
            ledger.position == (if market_buy {
                ledger0.position - owned_total(hits, LevelOwner::Strategy)
            } else {
                ledger0.position + owned_total(hits, LevelOwner::Strategy)
            }),
            ledger.cash == (if market_buy {
                ledger0.cash + strategy_notional(hits)
            } else {
                ledger0.cash - strategy_notional(hits)
            }),
            if market_buy {
                ledger0.position - owned_total(start, LevelOwner::Strategy) >= i32::MIN
            } else {
                ledger0.position + owned_total(start, LevelOwner::Strategy) <= i32::MAX
            },
            -cash_limit() <= ledger0.cash <= cash_limit(),
            0 <= owned_total(start, LevelOwner::Strategy),
            fills_are(fills@, taker_trades(hits, market_buy), product@, timestamp),
        ensures
            taker_sweep(start, quantity as int).levels == levels@,
            taker_sweep(start, quantity as int).hits == hits,
        decreases levels.len(), remaining,
    {
        if levels.len() == 0 {
            break;
        }
        let best = levels[0];
        let q = if remaining < best.quantity {
            remaining
        } else {
            best.quantity
        };
        let ghost before = levels@;
        let ghost rem0 = remaining as int;
        let ghost h = Level { quantity: q, ..best };
        proof {
            lemma_taker_sweep(before, rem0);
            crate::book::lemma_owned_total_nonnegative(before, LevelOwner::Strategy);
            crate::book::lemma_owned_total_nonnegative(hits, LevelOwner::Strategy);
            assert(best.quantity >= 0);
            lemma_notional_bound(best.price, q as int);
        }
        if best.quantity - q == 0 {
            levels.remove(0);
        } else {
            levels.set(0, Level { quantity: best.quantity - q, ..best });
        }
        if q <= 0 {
            proof {
                assert(levels@ == before.drop_first());
                assert forall|k: int| 0 <= k < levels@.len() implies (
                #[trigger] levels@[k]).quantity >= 0 by {
                    assert(levels@[k] == before[k + 1]);
                }
                assert(hits + Seq::<Level>::empty() =~= hits);
            }
            break;
        }
        proof {
            assert(h.quantity >= 0);
            let nh = hits.push(h);
            crate::book::lemma_owned_total_push_pub(hits, h, LevelOwner::Strategy);
            lemma_strategy_notional_push(hits, h);
            crate::book::lemma_owned_total_nonnegative(levels@, LevelOwner::Strategy);
            if best.quantity - q == 0 {
                assert(levels@ == before.drop_first());
                assert(owned_total(before, LevelOwner::Strategy) == crate::book::contribution(
                    best,
                    LevelOwner::Strategy,
                ) + owned_total(levels@, LevelOwner::Strategy));
            } else {
                let nl = Level { quantity: (best.quantity - q) as i32, ..best };
                crate::book::lemma_owned_total_update(before, 0, nl, LevelOwner::Strategy);
            }
        }
        let price = best.price;
        let owner = best.owner;
        let symbol = product.to_owned();
        let (buyer, seller) = match (market_buy, owner) {
            (true, LevelOwner::Bot) => (Party::BotTaker, Party::BotMaker),
            (true, LevelOwner::Strategy) => {
                ledger.position = ledger.position - q;
                ledger.cash = ledger.cash + (price as i128) * (q as i128);
                (Party::BotTaker, Party::Submission)
            },
            (false, LevelOwner::Bot) => (Party::BotMaker, Party::BotTaker),
            (false, LevelOwner::Strategy) => {
                ledger.position = ledger.position + q;
                ledger.cash = ledger.cash - (price as i128) * (q as i128);
                (Party::Submission, Party::BotTaker)
            },
        };
        let ghost fills_before = fills@;
        fills.push(Fill { symbol, price, quantity: q, buyer, seller, timestamp });
        proof {
            let nh = hits.push(h);
            assert(taker_trades(nh, market_buy) =~= taker_trades(hits, market_buy).push(
                taker_trade(h, market_buy),
            ));
            assert forall|k: int| 0 <= k < fills@.len() implies fill_is(
                #[trigger] fills@[k],
                taker_trades(nh, market_buy)[k],
                product@,
                timestamp,
            ) by {
                if k < fills_before.len() {
                    assert(fills@[k] == fills_before[k]);
                }
            }
            let rest = taker_sweep(before.drop_first(), rem0 - q);
            if best.quantity - q == 0 {
                assert(nh + rest.hits =~= hits + (seq![h] + rest.hits));
            } else {
                assert(nh =~= hits + seq![h]);
            }
            assert forall|k: int| 0 <= k < nh.len() implies (#[trigger] nh[k]).quantity >= 0 by {
                if k < hits.len() {
                    assert(nh[k] == hits[k]);
                }
            }
            hits = nh;
        }
        remaining = remaining - q;
    }
}

proof fn lemma_strategy_notional_push(hits: Seq<Level>, h: Level)
    ensures
        strategy_notional(hits.push(h)) == strategy_notional(hits) + (if h.owner
            == LevelOwner::Strategy {
            h.price * h.quantity
        } else {
            0
        }),
    decreases hits.len(),
{
    if hits.len() > 0 {
        lemma_strategy_notional_push(hits.drop_first(), h);
        assert(hits.push(h).drop_first() =~= hits.drop_first().push(h));
    } else {
        assert(hits.push(h).drop_first() =~= hits);
    }
}


/// The strategy is one side of the fill.
pub proof fn law_taker_keeps_side_ordered(levels: Seq<Level>, wanted: int, descending: bool)
    requires
        is_ordered(levels, descending),
    ensures
        is_ordered(taker_sweep(levels, wanted).levels, descending),
    decreases levels.len(),
{
    if wanted <= 0 || levels.len() == 0 {
    } else {
        let best = levels[0];
        let q: int = if wanted < best.quantity {
            wanted
        } else {
            best.quantity as int
        };
        let nl = Level { quantity: (best.quantity - q) as i32, ..best };
        lemma_front_change_keeps_order(levels, nl, descending);
        if best.quantity - q == 0 && q > 0 {
            law_taker_keeps_side_ordered(levels.drop_first(), wanted - q, descending);
        }
    }
}


/// Cash a trade pays the strategy: the value of what it sells minus the
/// value of what it buys.

/// The quantities a taker order of a product may ask for, with their
/// weights, by side.
pub open spec fn taker_table(product: Seq<char>, market_buy: bool) -> Seq<(i32, u32)> {
    if product == "EMERALDS"@ {
        if market_buy {
            seq![(3i32, 32u32), (4, 30), (5, 34), (6, 36), (7, 29), (8, 34)]
        } else {
            seq![(3i32, 28u32), (4, 33), (5, 40), (6, 49), (7, 30), (8, 24)]
        }
    } else if product == "TOMATOES"@ {
        if market_buy {
            seq![(2i32, 99u32), (3, 85), (4, 101), (5, 100), (6, 2)]
        } else {
            seq![(2i32, 110u32), (3, 125), (4, 101), (5, 97)]
        }
    } else {
        seq![(1i32, 1u32)]
    }
}

/// The entries of the table whose quantity the book can serve.
pub open spec fn eligible(t: Seq<(i32, u32)>, limit: i32) -> Seq<(i32, u32)>
    decreases t.len(),
{
    if t.len() == 0 {
        t
    } else if t.last().0 <= limit {
        eligible(t.drop_last(), limit).push(t.last())
    } else {
        eligible(t.drop_last(), limit)
    }
}

/// `q` is a quantity a taker order may ask for when `limit` units rest on
/// the side it hits: an eligible table quantity of positive weight, or, when
/// none is eligible, the whole `limit` (at least one unit).
pub open spec fn taker_quantity_choice(product: Seq<char>, market_buy: bool, limit: i32, q: i32) -> bool {
    let e = eligible(taker_table(product, market_buy), limit);
    if e.len() == 0 {
        q == (if limit > 1 {
            limit
        } else {
            1
        })
    } else {
        exists|i: int| 0 <= i < e.len() && e[i].0 == q && e[i].1 > 0
    }
}

/// Weights of the table entries all lie between one and `125`.
pub open spec fn modest_weights(t: Seq<(i32, u32)>) -> bool {
    forall|i: int| 0 <= i < t.len() ==> 1 <= (#[trigger] t[i]).1 <= 125
}

proof fn lemma_table_weights(product: Seq<char>, market_buy: bool)
    ensures
        modest_weights(taker_table(product, market_buy)),
        taker_table(product, market_buy).len() <= 6,
{
}

proof fn lemma_eligible(t: Seq<(i32, u32)>, limit: i32)
    requires
        modest_weights(t),
    ensures
        modest_weights(eligible(t, limit)),
        eligible(t, limit).len() <= t.len(),
        forall|i: int|
            0 <= i < eligible(t, limit).len() ==> (#[trigger] eligible(t, limit)[i]).0 <= limit,
    decreases t.len(),
{
    if t.len() > 0 {
        let pre = t.drop_last();
        assert forall|i: int| 0 <= i < pre.len() implies 1 <= (#[trigger] pre[i]).1 <= 125 by {
            assert(pre[i] == t[i]);
        }
        lemma_eligible(pre, limit);
    }
}

proof fn lemma_weight_sum_bound(ws: Seq<u32>)
    requires
        forall|i: int| 0 <= i < ws.len() ==> 1 <= #[trigger] ws[i] <= 125,
    ensures
        ws.len() <= weight_sum(ws) <= 125 * ws.len(),
    decreases ws.len(),
{
    if ws.len() > 0 {
        let pre = ws.drop_last();
        assert forall|i: int| 0 <= i < pre.len() implies 1 <= #[trigger] pre[i] <= 125 by {
            assert(pre[i] == ws[i]);
        }
        lemma_weight_sum_bound(pre);
    }
}

/// Builds the table of taker quantities for a product and side.
fn taker_table_of(product: &str, market_buy: bool) -> (t: Vec<(i32, u32)>)
    ensures
        t@ == taker_table(product@, market_buy),
{
    let name = product.to_owned();
    if name == String::from_str("EMERALDS") {
        if market_buy {
            vec![(3i32, 32u32), (4, 30), (5, 34), (6, 36), (7, 29), (8, 34)]
        } else {
            vec![(3i32, 28u32), (4, 33), (5, 40), (6, 49), (7, 30), (8, 24)]
        }
    } else if name == String::from_str("TOMATOES") {
        if market_buy {
            vec![(2i32, 99u32), (3, 85), (4, 101), (5, 100), (6, 2)]
        } else {
            vec![(2i32, 110u32), (3, 125), (4, 101), (5, 97)]
        }
    } else {
        vec![(1i32, 1u32)]
    }
}

/// Keeps the table entries whose quantity is at most `limit`, split into
/// quantities and weights.
fn eligible_entries(table: &Vec<(i32, u32)>, limit: i32) -> (r: (Vec<i32>, Vec<u32>))
    ensures
        r.0@.len() == eligible(table@, limit).len(),
        r.1@.len() == eligible(table@, limit).len(),
        forall|i: int|
            0 <= i < r.0@.len() ==> r.0@[i] == (#[trigger] eligible(table@, limit)[i]).0 && r.1@[i]
                == eligible(table@, limit)[i].1,
{
    let mut values: Vec<i32> = Vec::new();
    let mut weights: Vec<u32> = Vec::new();
    let mut i: usize = 0;
    while i < table.len()
        invariant
            i <= table.len(),
            values@.len() == eligible(table@.take(i as int), limit).len(),
            weights@.len() == values@.len(),
            forall|k: int|
                0 <= k < values@.len() ==> values@[k] == (#[trigger] eligible(
                    table@.take(i as int),
                    limit,
                )[k]).0 && weights@[k] == eligible(table@.take(i as int), limit)[k].1,
        decreases table.len() - i,
    {
        let (v, w) = table[i];
        proof {
            assert(table@.take(i + 1).drop_last() =~= table@.take(i as int));
            assert(table@.take(i + 1).last() == (v, w));
        }
        if v <= limit {
            values.push(v);
            weights.push(w);
        }
        i = i + 1;
    }
    assert(table@.take(table.len() as int) =~= table@);
    (values, weights)
}

/// Draws the quantity of one taker order on a side that holds
/// `volume_limit` units: a quantity from the product's table that the side
/// can serve, drawn by weight; when none can be served, the whole side (at
/// least one unit).
pub fn sample_trade_quantity_by_side(
    product: &str,
    market_buy: bool,
    volume_limit: i32,
    rng: &mut ChaCha8Rng,
) -> (q: i32)
    ensures
        taker_quantity_choice(product@, market_buy, volume_limit, q),
        eligible(taker_table(product@, market_buy), volume_limit).len() == 0 ==> *final(rng)
            == *old(rng),
{
    let table = taker_table_of(product, market_buy);
    let (values, weights) = eligible_entries(&table, volume_limit);
    let ghost e = eligible(table@, volume_limit);
    proof {
        lemma_table_weights(product@, market_buy);
        lemma_eligible(table@, volume_limit);
        assert forall|i: int| 0 <= i < weights@.len() implies 1 <= #[trigger] weights@[i] <= 125 by {
            assert(weights@[i] == e[i].1);
        }
        lemma_weight_sum_bound(weights@);
    }
    if values.len() == 0 {
        return if volume_limit > 1 {
            volume_limit
        } else {
            1
        };
    }
    let chooser = match new_weighted_index(&weights) {
        Ok(c) => c,
        Err(_) => {
            proof {
                assert(false);
            }
            return 1;
        },
    };
    let i = sample_weighted_index(&chooser, rng);
    proof {
        assert(e[i as int].0 == values@[i as int]);
        assert(e[i as int].1 == weights@[i as int]);
    }
    values[i]
}

/// The book and ledger after a taker order for `quantity` units hit one
/// side: the order sweeps the asks (a market buy) or the bids (a market
/// sell); what it takes from the strategy's levels moves the strategy's
/// position and cash.
pub ghost struct TakerOutcome {
    pub bids: Seq<Level>,
    pub asks: Seq<Level>,
    pub position: int,
    pub cash: int,
    pub trades: Seq<Trade>,
}

/// The outcome of a taker order for `quantity` units.
pub open spec fn taker_outcome(
    bids: Seq<Level>,
    asks: Seq<Level>,
    ledger: ProductLedger,
    market_buy: bool,
    quantity: int,
) -> TakerOutcome {
    let r = taker_sweep(
        if market_buy {
            asks
        } else {
            bids
        },
        quantity,
    );
    let taken = owned_total(r.hits, LevelOwner::Strategy);
    TakerOutcome {
        bids: if market_buy {
            bids
        } else {
            r.levels
        },
        asks: if market_buy {
            r.levels
        } else {
            asks
        },
        position: if market_buy {
            ledger.position - taken
        } else {
            ledger.position + taken
        },
        cash: if market_buy {
            ledger.cash + strategy_notional(r.hits)
        } else {
            ledger.cash - strategy_notional(r.hits)
        },
        trades: taker_trades(r.hits, market_buy),
    }
}

/// The book, ledger and fills are those of a taker order for `quantity` units.
pub open spec fn taker_applied(
    old_book: SimBook,
    old_ledger: ProductLedger,
    book: SimBook,
    ledger: ProductLedger,
    fills: Seq<Fill>,
    product: Seq<char>,
    timestamp: i32,
    market_buy: bool,
    quantity: int,
) -> bool {
    let t = taker_outcome(old_book.bids@, old_book.asks@, old_ledger, market_buy, quantity);
    &&& book.bids@ == t.bids
    &&& book.asks@ == t.asks
    &&& ledger.position == t.position
    &&& ledger.cash == t.cash
    &&& fills_are(fills, t.trades, product, timestamp)
}

/// Executes a taker order of `quantity` units against one side of the live
/// book. Bot and strategy levels are taken alike, best first; trades with
/// the strategy's levels move its ledger.
pub fn execute_taker_fill(
    product: &str,
    timestamp: i32,
    book: &mut SimBook,
    ledger: &mut ProductLedger,
    market_buy: bool,
    quantity: i32,
) -> (fills: Vec<Fill>)
    requires
        taker_fits(old(book).bids@, old(book).asks@, *old(ledger), market_buy),
    ensures
        taker_applied(
            *old(book),
            *old(ledger),
            *final(book),
            *final(ledger),
            fills@,
            product@,
            timestamp,
            market_buy,
            quantity as int,
        ),
{
    let mut fills: Vec<Fill> = Vec::new();
    if market_buy {
        sweep_for_taker(&mut book.asks, ledger, &mut fills, product, timestamp, true, quantity);
    } else {
        sweep_for_taker(&mut book.bids, ledger, &mut fills, product, timestamp, false, quantity);
    }
    fills
}

/// Total volume on a side, as computed at run time.
fn side_volume(levels: &Vec<Level>) -> (total: i32)
    requires
        nonnegative_side(levels@),
        level_total(levels@) <= i32::MAX,
    ensures
        total == level_total(levels@),
{
    let mut total: i32 = 0;
    let mut i: usize = 0;
    while i < levels.len()
        invariant
            i <= levels.len(),
            nonnegative_side(levels@),
            level_total(levels@) <= i32::MAX,
            total == level_total(levels@.take(i as int)),
        decreases levels.len() - i,
    {
        proof {
            assert(levels@.take(i + 1) =~= levels@.take(i as int).push(levels@[i as int]));
            crate::book::lemma_owned_total_push_pub(
                levels@.take(i as int),
                levels@[i as int],
                LevelOwner::Bot,
            );
            lemma_level_total_prefix(levels@, i + 1);
        }
        total = total + levels[i].quantity;
        i = i + 1;
    }
    assert(levels@.take(levels.len() as int) =~= levels@);
    total
}

/// The total of a prefix of a side is no larger than the whole side's.
proof fn lemma_level_total_prefix(s: Seq<Level>, i: int)
    requires
        nonnegative_side(s),
        0 <= i <= s.len(),
    ensures
        0 <= level_total(s.take(i)) <= level_total(s),
    decreases s.len() - i,
{
    assert(nonnegative_side(s.take(i)));
    crate::book::lemma_owned_total_nonnegative(s.take(i), LevelOwner::Bot);
    if i < s.len() {
        lemma_level_total_prefix(s, i + 1);
        assert(s.take(i + 1) =~= s.take(i).push(s[i]));
        crate::book::lemma_owned_total_push_pub(s.take(i), s[i], LevelOwner::Bot);
    } else {
        assert(s.take(i) =~= s);
    }
}

/// A bot taker order on one side of the live book: when the side holds any
/// volume, a quantity is drawn for it (see `sample_trade_quantity_by_side`)
/// and the side is swept for that quantity; an empty side is left alone and
/// no draw is made.
pub fn execute_taker_trade(
    product: &str,
    timestamp: i32,
    book: &mut SimBook,
    ledger: &mut ProductLedger,
    market_buy: bool,
    rng: &mut ChaCha8Rng,
) -> (fills: Vec<Fill>)
    requires
        taker_fits(old(book).bids@, old(book).asks@, *old(ledger), market_buy),
        level_total(
            if market_buy {
                old(book).asks@
            } else {
                old(book).bids@
            },
        ) <= i32::MAX,
    ensures
        ({
            let available = level_total(
                if market_buy {
                    old(book).asks@
                } else {
                    old(book).bids@
                },
            );
            &&& available <= 0 ==> fills@.len() == 0 && final(book).bids@ == old(book).bids@
                && final(book).asks@ == old(book).asks@ && *final(ledger) == *old(ledger)
                && *final(rng) == *old(rng)
            &&& available > 0 ==> exists|q: i32|
                taker_quantity_choice(product@, market_buy, available as i32, q) && taker_applied(
                    *old(book),
                    *old(ledger),
                    *final(book),
                    *final(ledger),
                    fills@,
                    product@,
                    timestamp,
                    market_buy,
                    q as int,
                )
        }),
{
    let available = if market_buy {
        side_volume(&book.asks)
    } else {
        side_volume(&book.bids)
    };
    if available <= 0 {
        return Vec::new();
    }
    let quantity = sample_trade_quantity_by_side(product, market_buy, available, rng);
    execute_taker_fill(product, timestamp, book, ledger, market_buy, quantity)
}


/// Law: a taker order never moves the strategy beyond its exposure. What it
/// takes from the strategy's bids (asks) it adds to (removes from) the
/// position, so when the position plus resting bids, and the position minus
/// resting asks, are within the limit before, they are after; and the
/// position itself is within the limit.
pub proof fn law_taker_keeps_exposure(
    bids: Seq<Level>,
    asks: Seq<Level>,
    ledger: ProductLedger,
    market_buy: bool,
    quantity: int,
    limit: int,
)
    requires
        nonnegative_side(bids),
        nonnegative_side(asks),
        exposure_within(bids, asks, ledger.position as int, limit),
    ensures
        ({
            let t = taker_outcome(bids, asks, ledger, market_buy, quantity);
            &&& nonnegative_side(t.bids)
            &&& nonnegative_side(t.asks)
            &&& exposure_within(t.bids, t.asks, t.position, limit)
            &&& -limit <= t.position <= limit
        }),
{
    let t = taker_outcome(bids, asks, ledger, market_buy, quantity);
    if market_buy {
        lemma_taker_sweep(asks, quantity);
        crate::book::lemma_owned_total_nonnegative(
            taker_sweep(asks, quantity).hits,
            LevelOwner::Strategy,
        );
    } else {
        lemma_taker_sweep(bids, quantity);
        crate::book::lemma_owned_total_nonnegative(
            taker_sweep(bids, quantity).hits,
            LevelOwner::Strategy,
        );
    }
    crate::book::lemma_owned_total_nonnegative(t.bids, LevelOwner::Strategy);
    crate::book::lemma_owned_total_nonnegative(t.asks, LevelOwner::Strategy);
}


/// The ledger a taker outcome leaves: its position and cash.
pub open spec fn ledger_after(t: TakerOutcome) -> ProductLedger {
    ProductLedger { position: t.position as i32, cash: t.cash as i128 }
}

/// The outcome of a tick's taker orders, one after another, each given by
/// its side (`true` buys) and its quantity.
pub open spec fn taker_orders(
    bids: Seq<Level>,
    asks: Seq<Level>,
    ledger: ProductLedger,
    orders: Seq<(bool, int)>,
) -> TakerOutcome
    decreases orders.len(),
{
    if orders.len() == 0 {
        TakerOutcome {
            bids,
            asks,
            position: ledger.position as int,
            cash: ledger.cash as int,
            trades: seq![],
        }
    } else {
        let prev = taker_orders(bids, asks, ledger, orders.drop_last());
        taker_outcome(prev.bids, prev.asks, ledger_after(prev), orders.last().0, orders.last().1)
    }
}

proof fn lemma_taker_orders_keep_exposure(
    bids: Seq<Level>,
    asks: Seq<Level>,
    ledger: ProductLedger,
    orders: Seq<(bool, int)>,
    limit: int,
)
    requires
        nonnegative_side(bids),
        nonnegative_side(asks),
        exposure_within(bids, asks, ledger.position as int, limit),
        -limit <= ledger.position <= limit,
        limit <= i32::MAX,
    ensures
        ({
            let t = taker_orders(bids, asks, ledger, orders);
            &&& nonnegative_side(t.bids)
            &&& nonnegative_side(t.asks)
            &&& exposure_within(t.bids, t.asks, t.position, limit)
            &&& -limit <= t.position <= limit
        }),
    decreases orders.len(),
{
    if orders.len() > 0 {
        lemma_taker_orders_keep_exposure(bids, asks, ledger, orders.drop_last(), limit);
        let prev = taker_orders(bids, asks, ledger, orders.drop_last());
        assert(ledger_after(prev).position == prev.position);
        law_taker_keeps_exposure(
            prev.bids,
            prev.asks,
            ledger_after(prev),
            orders.last().0,
            orders.last().1,
            limit,
        );
    }
}

/// Law: across a tick the strategy's position stays within its limit. The
/// tick's book holds no strategy levels; the strategy's orders pass the
/// limit check and are matched, what is left of them rests, and then the
/// bot takers' orders, of any sides and quantities, sweep the book one after
/// another. After each of these steps the position, and the position with
/// all resting bids (asks) filled, stays within the limit.
pub proof fn law_tick_keeps_position_within_limit(
    bids: Seq<Level>,
    asks: Seq<Level>,
    ledger: ProductLedger,
    os: Seq<Order>,
    limit: int,
    takers: Seq<(bool, int)>,
)
    requires
        nonnegative_side(bids),
        nonnegative_side(asks),
        owned_total(bids, LevelOwner::Strategy) == 0,
        owned_total(asks, LevelOwner::Strategy) == 0,
        -limit <= ledger.position <= limit,
        limit <= i32::MAX,
        total_buy(os) <= i32::MAX,
        total_sell(os) <= i32::MAX,
    ensures
        ({
            let m = strategy_matching(
                bids,
                asks,
                ledger,
                accepted_orders(ledger.position as int, limit, os),
            );
            let book_bids = rest_orders(m.bids, m.resting_bids, true);
            let book_asks = rest_orders(m.asks, m.resting_asks, false);
            let after_match = ProductLedger { position: m.position as i32, cash: m.cash as i128 };
            let t = taker_orders(book_bids, book_asks, after_match, takers);
            &&& -limit <= m.position <= limit
            &&& -limit <= t.position <= limit
            &&& exposure_within(t.bids, t.asks, t.position, limit)
        }),
{
    law_accepted_orders_keep_exposure(bids, asks, ledger, os, limit);
    let m = strategy_matching(bids, asks, ledger, accepted_orders(ledger.position as int, limit, os));
    let book_bids = rest_orders(m.bids, m.resting_bids, true);
    let book_asks = rest_orders(m.asks, m.resting_asks, false);
    let after_match = ProductLedger { position: m.position as i32, cash: m.cash as i128 };
    assert(after_match.position == m.position);
    lemma_taker_orders_keep_exposure(book_bids, book_asks, after_match, takers, limit);
}

/// What one tick brings for one product: the bots' book (no strategy
/// levels), the strategy's orders, and the bot takers' orders (side, `true`
/// buys, and quantity), in turn.
pub ghost struct TickInput {
    pub bids: Seq<Level>,
    pub asks: Seq<Level>,
    pub orders: Seq<Order>,
    pub takers: Seq<(bool, int)>,
}

/// The tick's book is one the matcher takes: bot levels only, none
/// negative, and the orders' totals fit in `i32`.
pub open spec fn tick_input_valid(t: TickInput) -> bool {
    &&& nonnegative_side(t.bids)
    &&& nonnegative_side(t.asks)
    &&& owned_total(t.bids, LevelOwner::Strategy) == 0
    &&& owned_total(t.asks, LevelOwner::Strategy) == 0
    &&& total_buy(t.orders) <= i32::MAX
    &&& total_sell(t.orders) <= i32::MAX
}

/// The ledger after one tick: the orders that pass the limit check are
/// matched, what is left rests, and the takers' orders sweep the book.
pub open spec fn tick_ledger(ledger: ProductLedger, t: TickInput, limit: int) -> ProductLedger {
    let m = strategy_matching(
        t.bids,
        t.asks,
        ledger,
        accepted_orders(ledger.position as int, limit, t.orders),
    );
    let after_match = ProductLedger { position: m.position as i32, cash: m.cash as i128 };
    ledger_after(
        taker_orders(
            rest_orders(m.bids, m.resting_bids, true),
            rest_orders(m.asks, m.resting_asks, false),
            after_match,
            t.takers,
        ),
    )
}

/// The ledger after a day's ticks, one after another.
pub open spec fn day_ledger(ledger: ProductLedger, ticks: Seq<TickInput>, limit: int) -> ProductLedger
    decreases ticks.len(),
{
    if ticks.len() == 0 {
        ledger
    } else {
        tick_ledger(day_ledger(ledger, ticks.drop_last(), limit), ticks.last(), limit)
    }
}

/// Law: over a whole day the strategy's position stays within its limit:
/// starting within it, after any number of ticks, whatever the strategy
/// orders and the takers take, it is still within it.
pub proof fn law_day_keeps_position_within_limit(
    ledger: ProductLedger,
    ticks: Seq<TickInput>,
    limit: int,
)
    requires
        -limit <= ledger.position <= limit,
        limit <= i32::MAX,
        forall|i: int| 0 <= i < ticks.len() ==> tick_input_valid(#[trigger] ticks[i]),
    ensures
        -limit <= day_ledger(ledger, ticks, limit).position <= limit,
    decreases ticks.len(),
{
    if ticks.len() > 0 {
        let pre = ticks.drop_last();
        assert forall|i: int| 0 <= i < pre.len() implies tick_input_valid(#[trigger] pre[i]) by {
            assert(pre[i] == ticks[i]);
        }
        law_day_keeps_position_within_limit(ledger, pre, limit);
        let l = day_ledger(ledger, pre, limit);
        let t = ticks.last();
        assert(tick_input_valid(ticks[ticks.len() - 1]));
        law_tick_keeps_position_within_limit(t.bids, t.asks, l, t.orders, limit, t.takers);
    }
}

/// Total volume of posted quotes.
pub open spec fn quote_total(quotes: Seq<(i32, i32)>) -> int
    decreases quotes.len(),
{
    if quotes.len() == 0 {
        0
    } else {
        quotes[0].1 + quote_total(quotes.drop_first())
    }
}

/// No posted quote has a negative volume.
pub open spec fn nonnegative_quotes(quotes: Seq<(i32, i32)>) -> bool {
    forall|i: int| 0 <= i < quotes.len() ==> (#[trigger] quotes[i]).1 >= 0
}

/// The trades of an order for `remaining` units that walks the posted
/// quotes from the front, taking from each up to what is still wanted.
pub open spec fn quote_walk(quotes: Seq<(i32, i32)>, remaining: int) -> Seq<(i32, i32)>
    decreases quotes.len(),
{
    if remaining <= 0 || quotes.len() == 0 {
        seq![]
    } else {
        let q: int = if remaining < quotes[0].1 {
            remaining
        } else {
            quotes[0].1 as int
        };
        seq![(quotes[0].0, q as i32)] + quote_walk(quotes.drop_first(), remaining - q)
    }
}

proof fn lemma_quote_total_push(quotes: Seq<(i32, i32)>, x: (i32, i32))
    ensures
        quote_total(quotes.push(x)) == quote_total(quotes) + x.1,
    decreases quotes.len(),
{
    if quotes.len() > 0 {
        lemma_quote_total_push(quotes.drop_first(), x);
        assert(quotes.push(x).drop_first() =~= quotes.drop_first().push(x));
    } else {
        assert(quotes.push(x).drop_first() =~= quotes);
    }
}

proof fn lemma_quote_total_nonnegative(quotes: Seq<(i32, i32)>)
    requires
        nonnegative_quotes(quotes),
    ensures
        0 <= quote_total(quotes),
    decreases quotes.len(),
{
    if quotes.len() > 0 {
        let t = quotes.drop_first();
        assert forall|k: int| 0 <= k < t.len() implies (#[trigger] t[k]).1 >= 0 by {
            assert(t[k] == quotes[k + 1]);
        }
        lemma_quote_total_nonnegative(t);
    }
}

proof fn lemma_quote_total_split(quotes: Seq<(i32, i32)>, i: int)
    requires
        0 <= i <= quotes.len(),
    ensures
        quote_total(quotes.take(i)) + quote_total(quotes.skip(i)) == quote_total(quotes),
    decreases i,
{
    if i == 0 {
        assert(quotes.skip(0) =~= quotes);
        assert(quotes.take(0).len() == 0);
    } else {
        lemma_quote_total_split(quotes, i - 1);
        assert(quotes.take(i) =~= quotes.take(i - 1).push(quotes[i - 1]));
        lemma_quote_total_push(quotes.take(i - 1), quotes[i - 1]);
        assert(quotes.skip(i - 1).drop_first() =~= quotes.skip(i));
    }
}

proof fn lemma_quote_total_prefix(quotes: Seq<(i32, i32)>, i: int)
    requires
        nonnegative_quotes(quotes),
        0 <= i <= quotes.len(),
    ensures
        0 <= quote_total(quotes.take(i)) <= quote_total(quotes),
{
    lemma_quote_total_split(quotes, i);
    let a = quotes.take(i);
    let b = quotes.skip(i);
    assert forall|k: int| 0 <= k < a.len() implies (#[trigger] a[k]).1 >= 0 by {
        assert(a[k] == quotes[k]);
    }
    assert forall|k: int| 0 <= k < b.len() implies (#[trigger] b[k]).1 >= 0 by {
        assert(b[k] == quotes[k + i]);
    }
    lemma_quote_total_nonnegative(a);
    lemma_quote_total_nonnegative(b);
}

/// Total volume of posted quotes, as computed at run time.
fn quote_volume(quotes: &Vec<(i32, i32)>) -> (total: i32)
    requires
        nonnegative_quotes(quotes@),
        quote_total(quotes@) <= i32::MAX,
    ensures
        total == quote_total(quotes@),
{
    let mut total: i32 = 0;
    let mut i: usize = 0;
    while i < quotes.len()
        invariant
            i <= quotes.len(),
            nonnegative_quotes(quotes@),
            quote_total(quotes@) <= i32::MAX,
            total == quote_total(quotes@.take(i as int)),
        decreases quotes.len() - i,
    {
        proof {
            assert(quotes@.take(i + 1) =~= quotes@.take(i as int).push(quotes@[i as int]));
            lemma_quote_total_push(quotes@.take(i as int), quotes@[i as int]);
            lemma_quote_total_prefix(quotes@, i + 1);
        }
        total = total + quotes[i].1;
        i = i + 1;
    }
    assert(quotes@.take(quotes.len() as int) =~= quotes@);
    total
}

/// The trades printed for a market order of `quantity` units that walks
/// the posted quotes of one side (see `quote_walk`).
pub fn walk_quotes(quotes: &Vec<(i32, i32)>, quantity: i32) -> (rows: Vec<(i32, i32)>)
    requires
        nonnegative_quotes(quotes@),
    ensures
        rows@ == quote_walk(quotes@, quantity as int),
{
    let mut rows: Vec<(i32, i32)> = Vec::new();
    let mut remaining = quantity;
    let mut i: usize = 0;
    proof {
        assert(quotes@.skip(0) =~= quotes@);
        assert(Seq::<(i32, i32)>::empty() + quote_walk(quotes@, quantity as int) =~= quote_walk(
            quotes@,
            quantity as int,
        ));
    }
    while i < quotes.len()
        invariant_except_break
            remaining > 0 ==> quote_walk(quotes@, quantity as int) == rows@ + quote_walk(
                quotes@.skip(i as int),
                remaining as int,
            ),
        invariant
            i <= quotes.len(),
            nonnegative_quotes(quotes@),
            remaining <= 0 ==> quote_walk(quotes@, quantity as int) == rows@,
            i == quotes.len() && remaining > 0 ==> quote_walk(quotes@, quantity as int) == rows@,
        ensures
            quote_walk(quotes@, quantity as int) == rows@,
        decreases quotes.len() - i,
    {
        if remaining <= 0 {
            break;
        }
        let (price, volume) = quotes[i];
        let q = if remaining < volume {
            remaining
        } else {
            volume
        };
        proof {
            let rest = quotes@.skip(i as int);
            assert(rest[0] == (price, volume));
            assert(rest.drop_first() =~= quotes@.skip(i + 1));
            assert(rows@.push((price, q)) + quote_walk(quotes@.skip(i + 1), remaining - q) =~= rows@
                + (seq![(price, q)] + quote_walk(quotes@.skip(i + 1), remaining - q)));
            if i + 1 == quotes.len() {
                assert(quotes@.skip(i + 1).len() == 0);
                assert(rows@.push((price, q)) + Seq::<(i32, i32)>::empty() =~= rows@.push(
                    (price, q),
                ));
            }
            if remaining - q <= 0 {
                assert(rows@.push((price, q)) + Seq::<(i32, i32)>::empty() =~= rows@.push(
                    (price, q),
                ));
            }
        }
        rows.push((price, q));
        remaining = remaining - q;
        i = i + 1;
    }
    rows
}

/// The posted quotes that a market order hits: the asks for a buy, the
/// bids for a sell.
pub open spec fn quotes_hit(bids: Seq<(i32, i32)>, asks: Seq<(i32, i32)>, market_buy: bool) -> Seq<
    (i32, i32),
> {
    if market_buy {
        asks
    } else {
        bids
    }
}

/// The trades printed for one market order of the generated data set: on a
/// side with any volume, a quantity is drawn (see
/// `sample_trade_quantity_by_side`) and the side's posted quotes are walked
/// for it, as `(price, quantity)` pairs; an empty side prints nothing and
/// no draw is made.
pub fn sample_trade_rows_on_side(
    product: &str,
    book: &Book,
    market_buy: bool,
    rng: &mut ChaCha8Rng,
) -> (rows: Vec<(i32, i32)>)
    requires
        nonnegative_quotes(quotes_hit(book.bids@, book.asks@, market_buy)),
        quote_total(quotes_hit(book.bids@, book.asks@, market_buy)) <= i32::MAX,
    ensures
        quote_total(quotes_hit(book.bids@, book.asks@, market_buy)) <= 0 ==> rows@.len() == 0
            && *final(rng) == *old(rng),
        quote_total(quotes_hit(book.bids@, book.asks@, market_buy)) > 0 ==> exists|q: i32|
            #[trigger] taker_quantity_choice(
                product@,
                market_buy,
                quote_total(quotes_hit(book.bids@, book.asks@, market_buy)) as i32,
                q,
            ) && rows@ == quote_walk(quotes_hit(book.bids@, book.asks@, market_buy), q as int),
{
    let side = if market_buy {
        &book.asks
    } else {
        &book.bids
    };
    let available = quote_volume(side);
    if available <= 0 {
        return Vec::new();
    }
    let quantity = sample_trade_quantity_by_side(product, market_buy, available, rng);
    let rows = walk_quotes(side, quantity);
    let ghost hit = quotes_hit(book.bids@, book.asks@, market_buy);
    assert(side@ == hit);
    assert(quote_total(hit) as i32 == available);
    assert(taker_quantity_choice(product@, market_buy, quote_total(hit) as i32, quantity));
    assert(rows@ == quote_walk(hit, quantity as int));
    rows
}


/// Law: a taker order never asks for more than the side it hits holds, and
/// always for at least one unit.
pub proof fn law_taker_quantity_within_side(product: Seq<char>, market_buy: bool, limit: i32, q: i32)
    requires
        limit >= 1,
        taker_quantity_choice(product, market_buy, limit, q),
    ensures
        1 <= q <= limit,
{
    let t = taker_table(product, market_buy);
    lemma_table_weights(product, market_buy);
    lemma_table_quantities(product, market_buy);
    lemma_eligible(t, limit);
    lemma_eligible_from_table(t, limit);
}

proof fn lemma_table_quantities(product: Seq<char>, market_buy: bool)
    ensures
        forall|i: int|
            0 <= i < taker_table(product, market_buy).len() ==> (#[trigger] taker_table(
                product,
                market_buy,
            )[i]).0 >= 1,
{
}

proof fn lemma_eligible_from_table(t: Seq<(i32, u32)>, limit: i32)
    ensures
        forall|i: int|
            0 <= i < eligible(t, limit).len() ==> exists|j: int|
                0 <= j < t.len() && t[j] == #[trigger] eligible(t, limit)[i],
    decreases t.len(),
{
    if t.len() > 0 {
        let pre = t.drop_last();
        lemma_eligible_from_table(pre, limit);
        let e = eligible(t, limit);
        let ep = eligible(pre, limit);
        assert forall|i: int| 0 <= i < e.len() implies exists|j: int|
            0 <= j < t.len() && t[j] == #[trigger] e[i] by {
            if i < ep.len() {
                assert(e[i] == ep[i]);
                let j = choose|j: int| 0 <= j < pre.len() && pre[j] == ep[i];
                assert(t[j] == pre[j]);
            } else {
                assert(e[i] == t.last());
                assert(t[t.len() - 1] == t.last());
            }
        }
    }
}

/// Law: on a side whose levels all hold something, a taker order takes
/// exactly what it wants, or the whole side when the side holds less.
pub proof fn law_taker_takes_what_it_wants(levels: Seq<Level>, wanted: int)
    requires
        forall|i: int| 0 <= i < levels.len() ==> (#[trigger] levels[i]).quantity > 0,
        wanted >= 0,
    ensures
        level_total(taker_sweep(levels, wanted).hits) == (if wanted <= level_total(levels) {
            wanted
        } else {
            level_total(levels)
        }),
    decreases levels.len(),
{
    let r = taker_sweep(levels, wanted);
    let e = Seq::<Level>::empty();
    assert(level_total(e) == 0);
    if wanted <= 0 || levels.len() == 0 {
        if levels.len() > 0 {
            crate::book::lemma_owned_total_nonnegative(levels, LevelOwner::Bot);
        }
    } else {
        let best = levels[0];
        let t = levels.drop_first();
        assert forall|k: int| 0 <= k < t.len() implies (#[trigger] t[k]).quantity > 0 by {
            assert(t[k] == levels[k + 1]);
        }
        assert forall|k: int| 0 <= k < levels.len() implies (#[trigger] levels[k]).quantity >= 0 by {
        }
        crate::book::lemma_owned_total_nonnegative(t, LevelOwner::Bot);
        let q: int = if wanted < best.quantity {
            wanted
        } else {
            best.quantity as int
        };
        let h = Level { quantity: q as i32, ..best };
        if best.quantity - q == 0 {
            law_taker_takes_what_it_wants(t, wanted - q);
            let rest = taker_sweep(t, wanted - q);
            assert(r.hits == seq![h] + rest.hits);
            assert((seq![h] + rest.hits).drop_first() =~= rest.hits);
        } else {
            assert(r.hits == seq![h]);
            assert(seq![h].drop_first() =~= e);
        }
    }
}

/// Law: walking posted quotes for `q` units prints trades that add up to
/// `q`, or to everything posted when less is posted.
pub proof fn law_quote_walk_total(quotes: Seq<(i32, i32)>, q: int)
    requires
        nonnegative_quotes(quotes),
        q >= 0,
    ensures
        quote_total(quote_walk(quotes, q)) == (if q <= quote_total(quotes) {
            q
        } else {
            quote_total(quotes)
        }),
    decreases quotes.len(),
{
    let w = quote_walk(quotes, q);
    assert(quote_total(Seq::<(i32, i32)>::empty()) == 0);
    lemma_quote_total_nonnegative(quotes);
    if q <= 0 || quotes.len() == 0 {
    } else {
        let t = quotes.drop_first();
        assert forall|k: int| 0 <= k < t.len() implies (#[trigger] t[k]).1 >= 0 by {
            assert(t[k] == quotes[k + 1]);
        }
        let take: int = if q < quotes[0].1 {
            q
        } else {
            quotes[0].1 as int
        };
        law_quote_walk_total(t, q - take);
        let rest = quote_walk(t, q - take);
        assert(w == seq![(quotes[0].0, take as i32)] + rest);
        assert((seq![(quotes[0].0, take as i32)] + rest).drop_first() =~= rest);
        lemma_quote_total_nonnegative(t);
    }
}


proof fn lemma_taker_flows(hits: Seq<Level>, market_buy: bool)
    ensures
        cash_flow(taker_trades(hits, market_buy)) == (if market_buy {
            strategy_notional(hits)
        } else {
            -strategy_notional(hits)
        }),
        unit_flow(taker_trades(hits, market_buy)) == (if market_buy {
            -owned_total(hits, LevelOwner::Strategy)
        } else {
            owned_total(hits, LevelOwner::Strategy)
        }),
    decreases hits.len(),
{
    if hits.len() > 0 {
        lemma_taker_flows(hits.drop_first(), market_buy);
        assert(taker_trades(hits, market_buy).drop_first() =~= taker_trades(
            hits.drop_first(),
            market_buy,
        ));
    } else {
        assert(taker_trades(hits, market_buy).len() == 0);
    }
}

/// Law: a taker order moves the strategy's ledger by exactly the fills that
/// involve the strategy: its cash by what they pay, its position by the
/// units they buy less those they sell.
pub proof fn law_taker_ledger_follows_fills(
    bids: Seq<Level>,
    asks: Seq<Level>,
    ledger: ProductLedger,
    market_buy: bool,
    quantity: int,
)
    ensures
        ({
            let t = taker_outcome(bids, asks, ledger, market_buy, quantity);
            &&& t.cash == ledger.cash + cash_flow(t.trades)
            &&& t.position == ledger.position + unit_flow(t.trades)
        }),
{
    let side = if market_buy {
        asks
    } else {
        bids
    };
    lemma_taker_flows(taker_sweep(side, quantity).hits, market_buy);
}

} // verus!
