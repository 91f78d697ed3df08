//! Matching of the strategy's orders against the live book, and the
//! position ledger that the fills move.

use vstd::prelude::*;

use crate::book::{
    Level, LevelOwner, SimBook, insert_level, is_ordered, lemma_owned_entry_bound,
    lemma_sorted_levels, lemma_with_level, level_key, level_total, nonnegative_side, owned_total,
    with_level,
};

verus! {

broadcast use vstd::seq_lib::group_to_multiset_ensures;

/// A side of a trade.
#[derive(Clone, Copy, Debug, PartialEq, Eq, Structural)]
pub enum Party {
    Submission,
    Bot,
    BotTaker,
    BotMaker,
}

/// The name a party has in trade records.
pub open spec fn party_record_name(party: Party) -> Seq<char> {
    match party {
        Party::Submission => "SUBMISSION"@,
        Party::Bot => "BOT"@,
        Party::BotTaker => "BOT_TAKER"@,
        Party::BotMaker => "BOT_MAKER"@,
    }
}

impl Party {
    /// The name this party has in trade records.
    pub fn record_name(&self) -> (name: String)
        ensures
            name@ == party_record_name(*self),
    {
        let name = match self {
            Party::Submission => "SUBMISSION",
            Party::Bot => "BOT",
            Party::BotTaker => "BOT_TAKER",
            Party::BotMaker => "BOT_MAKER",
        };
        name.to_string()
    }
}

/// One order of the strategy: a positive quantity buys, a negative one sells.
#[derive(Clone, Copy, Debug, PartialEq, Eq, Structural)]
pub struct Order {
    pub price: i32,
    pub quantity: i32,
}

/// The strategy's holdings in one product. Cash only ever moves by whole
/// `price * quantity` amounts, so it is kept exactly as an integer.
#[derive(Clone, Copy, Debug, PartialEq, Eq, Structural)]
pub struct ProductLedger {
    pub position: i32,
    pub cash: i128,
}

impl Default for ProductLedger {
    fn default() -> (r: Self)
        ensures
            r.position == 0,
            r.cash == 0,
    {
        ProductLedger { position: 0, cash: 0 }
    }
}

/// One executed trade.
#[derive(Clone, Debug)]
pub struct Fill {
    pub symbol: String,
    pub price: i32,
    pub quantity: i32,
    pub buyer: Party,
    pub seller: Party,
    pub timestamp: i32,
}

/// What a fill says, apart from its product and time.
pub ghost struct Trade {
    pub price: i32,
    pub quantity: i32,
    pub buyer: Party,
    pub seller: Party,
}

/// `f` records trade `t` of `symbol` at `timestamp`.
pub open spec fn fill_is(f: Fill, t: Trade, symbol: Seq<char>, timestamp: i32) -> bool {
    &&& f.symbol@ == symbol
    &&& f.price == t.price
    &&& f.quantity == t.quantity
    &&& f.buyer == t.buyer
    &&& f.seller == t.seller
    &&& f.timestamp == timestamp
}

/// The fills record exactly the trades, in order.
pub open spec fn fills_are(fs: Seq<Fill>, ts: Seq<Trade>, symbol: Seq<char>, timestamp: i32) -> bool {
    &&& fs.len() == ts.len()
    &&& forall|i: int| 0 <= i < fs.len() ==> fill_is(#[trigger] fs[i], ts[i], symbol, timestamp)
}

// ---------------------------------------------------------------------------
// Sums
// ---------------------------------------------------------------------------

/// Total quantity that the orders buy.
pub open spec fn total_buy(os: Seq<Order>) -> int
    decreases os.len(),
{
    if os.len() == 0 {
        0
    } else {
        total_buy(os.drop_last()) + if os.last().quantity > 0 {
            os.last().quantity as int
        } else {
            0
        }
    }
}

/// Total quantity that the orders sell.
pub open spec fn total_sell(os: Seq<Order>) -> int
    decreases os.len(),
{
    if os.len() == 0 {
        0
    } else {
        total_sell(os.drop_last()) + if os.last().quantity < 0 {
            -(os.last().quantity as int)
        } else {
            0
        }
    }
}

/// Total quantity of `(price, quantity)` pairs.
pub open spec fn pair_quantity(ps: Seq<(i32, i32)>) -> int
    decreases ps.len(),
{
    if ps.len() == 0 {
        0
    } else {
        ps[0].1 + pair_quantity(ps.drop_first())
    }
}

/// Total value `price * quantity` of `(price, quantity)` pairs.
pub open spec fn pair_notional(ps: Seq<(i32, i32)>) -> int
    decreases ps.len(),
{
    if ps.len() == 0 {
        0
    } else {
        ps[0].0 * ps[0].1 + pair_notional(ps.drop_first())
    }
}

// ---------------------------------------------------------------------------
// Sweeping one side with one strategy order
// ---------------------------------------------------------------------------

/// A strategy order at `limit` may trade with this level: only bot
/// liquidity is taken, at the limit or better.
pub open spec fn crosses(l: Level, limit: i32, is_buy: bool) -> bool {
    &&& l.owner == LevelOwner::Bot
    &&& if is_buy {
        l.price <= limit
    } else {
        l.price >= limit
    }
}

/// What is left of a side after an order has swept it, the `(price,
/// quantity)` trades it made, and the quantity it did not fill.
pub ghost struct Sweep {
    pub levels: Seq<Level>,
    pub trades: Seq<(i32, i32)>,
    pub left: int,
}

/// An order for `wanted` units at `limit` takes the side's levels from the
/// front for as long as they cross, each up to what is still wanted;
/// exhausted levels leave the side.
pub open spec fn sweep(levels: Seq<Level>, limit: i32, wanted: int, is_buy: bool) -> Sweep
    decreases levels.len(),
{
    if wanted <= 0 || levels.len() == 0 || !crosses(levels[0], limit, is_buy) {
        Sweep { levels, trades: seq![], left: wanted }
    } else {
        let best = levels[0];
        let q: int = if wanted < best.quantity {
            wanted
        } else {
            best.quantity as int
        };
        if best.quantity - q == 0 {
            let rest = sweep(levels.drop_first(), limit, wanted - q, is_buy);
            Sweep { trades: seq![(best.price, q as i32)] + rest.trades, ..rest }
        } else {
            Sweep {
                levels: levels.update(0, Level { quantity: (best.quantity - q) as i32, ..best }),
                trades: seq![(best.price, q as i32)],
                left: wanted - q,
            }
        }
    }
}

/// Every trade is at a price that crosses the limit and for a nonnegative quantity.
pub open spec fn trades_within(ts: Seq<(i32, i32)>, limit: i32, is_buy: bool) -> bool {
    forall|i: int|
        0 <= i < ts.len() ==> {
            &&& (#[trigger] ts[i]).1 >= 0
            &&& if is_buy {
                ts[i].0 <= limit
            } else {
                ts[i].0 >= limit
            }
        }
}

pub proof fn lemma_level_total_update(s: Seq<Level>, l: Level)
    requires
        s.len() > 0,
    ensures
        level_total(s.update(0, l)) == level_total(s) - s[0].quantity + l.quantity,
        owned_total(s.update(0, l), l.owner) == owned_total(s, l.owner) - (if s[0].owner == l.owner {
            s[0].quantity as int
        } else {
            0
        }) + l.quantity,
{
    assert(s.update(0, l).drop_first() =~= s.drop_first());
}

pub(crate) proof fn lemma_notional_bound(price: i32, q: int)
    requires
        q >= 0,
    ensures
        -0x8000_0000 * q <= price * q <= 0x8000_0000 * q,
{
    assert(-0x8000_0000 * q <= price * q <= 0x8000_0000 * q) by (nonlinear_arith)
        requires
            q >= 0,
            -0x8000_0000 <= price < 0x8000_0000,
    ;
}

/// Facts about a sweep: it fills between nothing and everything wanted,
/// takes exactly what it fills off the side's bot liquidity, and trades only
/// at prices that cross.
pub proof fn lemma_sweep(levels: Seq<Level>, limit: i32, wanted: int, is_buy: bool)
    requires
        nonnegative_side(levels),
        wanted >= 0,
    ensures
        0 <= sweep(levels, limit, wanted, is_buy).left <= wanted,
        pair_quantity(sweep(levels, limit, wanted, is_buy).trades) == wanted - sweep(
            levels,
            limit,
            wanted,
            is_buy,
        ).left,
        nonnegative_side(sweep(levels, limit, wanted, is_buy).levels),
        level_total(sweep(levels, limit, wanted, is_buy).levels) == level_total(levels) - (wanted
            - sweep(levels, limit, wanted, is_buy).left),
        owned_total(sweep(levels, limit, wanted, is_buy).levels, LevelOwner::Strategy)
            == owned_total(levels, LevelOwner::Strategy),
        trades_within(sweep(levels, limit, wanted, is_buy).trades, limit, is_buy),
        -0x8000_0000 * (wanted - sweep(levels, limit, wanted, is_buy).left) <= pair_notional(
            sweep(levels, limit, wanted, is_buy).trades,
        ) <= 0x8000_0000 * (wanted - sweep(levels, limit, wanted, is_buy).left),
    decreases levels.len(),
{
    let r = sweep(levels, limit, wanted, is_buy);
    if wanted <= 0 || levels.len() == 0 || !crosses(levels[0], limit, is_buy) {
    } else {
        let best = levels[0];
        let q: int = if wanted < best.quantity {
            wanted
        } else {
            best.quantity as int
        };
        assert(best.quantity >= 0);
        lemma_notional_bound(best.price, q);
        if best.quantity - q == 0 {
            let t = levels.drop_first();
            assert forall|i: int| 0 <= i < t.len() implies (#[trigger] t[i]).quantity >= 0 by {
                assert(t[i] == levels[i + 1]);
            }
            lemma_sweep(t, limit, wanted - q, is_buy);
            let rest = sweep(t, limit, wanted - q, is_buy);
            assert(r.trades == seq![(best.price, q as i32)] + rest.trades);
            assert(r.left == rest.left);
            assert(r.levels == rest.levels);
            assert((seq![(best.price, q as i32)] + rest.trades).drop_first() =~= rest.trades);
            assert(pair_quantity(r.trades) == q + pair_quantity(rest.trades));
            assert(pair_notional(r.trades) == best.price * q + pair_notional(rest.trades));
            let ts = r.trades;
            assert forall|i: int| 0 <= i < ts.len() implies {
                &&& (#[trigger] ts[i]).1 >= 0
                &&& if is_buy {
                    ts[i].0 <= limit
                } else {
                    ts[i].0 >= limit
                }
            } by {
                if i > 0 {
                    assert(ts[i] == rest.trades[i - 1]);
                }
            }
        } else {
            let nl = Level { quantity: (best.quantity - q) as i32, ..best };
            lemma_level_total_update(levels, nl);
            assert(r.trades == seq![(best.price, q as i32)]);
            assert(seq![(best.price, q as i32)].drop_first() =~= Seq::<(i32, i32)>::empty());
            assert(pair_quantity(Seq::<(i32, i32)>::empty()) == 0);
            assert(pair_notional(Seq::<(i32, i32)>::empty()) == 0);
            assert(pair_quantity(r.trades) == q);
            assert(pair_notional(r.trades) == best.price * q);
            assert forall|i: int| 0 <= i < r.levels.len() implies (#[trigger] r.levels[i]).quantity
                >= 0 by {
                if i > 0 {
                    assert(r.levels[i] == levels[i]);
                }
            }
            // a crossing level is a bot's, so the strategy's total is untouched
            assert(owned_total(levels.update(0, nl), LevelOwner::Strategy) == owned_total(
                levels,
                LevelOwner::Strategy,
            )) by {
                assert(levels.update(0, nl).drop_first() =~= levels.drop_first());
            }
        }
    }
}

/// Sweeps the front of one side with a strategy order.
fn take_liquidity(levels: &mut Vec<Level>, limit: i32, wanted: i32, is_buy: bool) -> (r: (
    Vec<(i32, i32)>,
    i32,
))
    requires
        nonnegative_side(old(levels)@),
        wanted >= 0,
    ensures
        final(levels)@ == sweep(old(levels)@, limit, wanted as int, is_buy).levels,
        r.0@ == sweep(old(levels)@, limit, wanted as int, is_buy).trades,
        r.1 == sweep(old(levels)@, limit, wanted as int, is_buy).left,
{
    let ghost start = levels@;
    let mut trades: Vec<(i32, i32)> = Vec::new();
    let mut remaining = wanted;
    proof {
        lemma_sweep(start, limit, wanted as int, is_buy);
    }
    while remaining > 0
        invariant
            nonnegative_side(levels@),
            remaining >= 0,
            sweep(start, limit, wanted as int, is_buy).trades == trades@ + sweep(
                levels@,
                limit,
                remaining as int,
                is_buy,
            ).trades,
            sweep(start, limit, wanted as int, is_buy).levels == sweep(
                levels@,
                limit,
                remaining as int,
                is_buy,
            ).levels,
            sweep(start, limit, wanted as int, is_buy).left == sweep(
                levels@,
                limit,
                remaining as int,
                is_buy,
            ).left,
        ensures
            sweep(levels@, limit, remaining as int, is_buy).trades.len() == 0,
            sweep(levels@, limit, remaining as int, is_buy).levels == levels@,
            sweep(levels@, limit, remaining as int, is_buy).left == remaining,
        decreases levels.len(), remaining,
    {
        if levels.len() == 0 {
            break;
        }
        let best = levels[0];
        let crossing = best.owner == LevelOwner::Bot && (if is_buy {
            best.price <= limit
        } else {
            best.price >= limit
        });
        if !crossing {
            break;
        }
        let q = if remaining < best.quantity {
            remaining
        } else {
            best.quantity
        };
        let ghost before = levels@;
        let ghost rem0 = remaining as int;
        trades.push((best.price, q));
        remaining = remaining - q;
        if best.quantity - q == 0 {
            levels.remove(0);
            proof {
                let rest = sweep(before.drop_first(), limit, rem0 - q, is_buy);
                assert(levels@ == before.drop_first());
                assert forall|i: int| 0 <= i < levels@.len() implies (
                #[trigger] levels@[i]).quantity >= 0 by {
                    assert(levels@[i] == before[i + 1]);
                }
                assert(trades@ + rest.trades =~= trades@.drop_last() + (seq![(best.price, q)]
                    + rest.trades));
            }
        } else {
            levels.set(0, Level { quantity: best.quantity - q, ..best });
            proof {
                assert(remaining == 0);
                assert(trades@ =~= trades@.drop_last() + seq![(best.price, q)]);
                assert(trades@ + Seq::<(i32, i32)>::empty() =~= trades@);
                assert forall|i: int| 0 <= i < levels@.len() implies (
                #[trigger] levels@[i]).quantity >= 0 by {
                    if i > 0 {
                        assert(levels@[i] == before[i]);
                    }
                }
            }
        }
    }
    proof {
        assert(trades@ + Seq::<(i32, i32)>::empty() =~= trades@);
    }
    (trades, remaining)
}


pub proof fn lemma_pair_sums_push(ps: Seq<(i32, i32)>, x: (i32, i32))
    ensures
        pair_quantity(ps.push(x)) == pair_quantity(ps) + x.1,
        pair_notional(ps.push(x)) == pair_notional(ps) + x.0 * x.1,
    decreases ps.len(),
{
    if ps.len() > 0 {
        lemma_pair_sums_push(ps.drop_first(), x);
        assert(ps.push(x).drop_first() =~= ps.drop_first().push(x));
    } else {
        assert(ps.push(x).drop_first() =~= ps);
    }
}

/// Total value of the trades, as computed at run time.
fn notional_of(trades: &Vec<(i32, i32)>) -> (n: i128)
    requires
        forall|i: int| 0 <= i < trades@.len() ==> (#[trigger] trades@[i]).1 >= 0,
    ensures
        n == pair_notional(trades@),
{
    let mut n: i128 = 0;
    let mut i: usize = 0;
    while i < trades.len()
        invariant
            i <= trades.len(),
            forall|k: int| 0 <= k < trades@.len() ==> (#[trigger] trades@[k]).1 >= 0,
            n == pair_notional(trades@.take(i as int)),
            -0x8000_0000_0000_0000 * (i as int) <= n <= 0x8000_0000_0000_0000 * (i as int),
        decreases trades.len() - i,
    {
        let (p, q) = trades[i];
        proof {
            lemma_notional_bound(p, q as int);
            assert(-0x8000_0000 * (q as int) >= -0x8000_0000 * 0x7fff_ffffint) by (nonlinear_arith)
                requires
                    0 <= q <= 0x7fff_ffff,
            ;
            lemma_pair_sums_push(trades@.take(i as int), (p, q));
            assert(trades@.take(i + 1) =~= trades@.take(i as int).push((p, q)));
            assert(i < 0x1_0000_0000_0000_0000int);
        }
        n = n + (p as i128) * (q as i128);
        i = i + 1;
    }
    assert(trades@.take(trades.len() as int) =~= trades@);
    n
}

// ---------------------------------------------------------------------------
// Processing the strategy's orders
// ---------------------------------------------------------------------------

/// Index of the first resting entry at `price`, or the length where there is none.
pub open spec fn price_index(ps: Seq<(i32, i32)>, price: i32) -> int
    decreases ps.len(),
{
    if ps.len() == 0 {
        0
    } else if ps[0].0 == price {
        0
    } else {
        1 + price_index(ps.drop_first(), price)
    }
}

/// Unfilled quantity that comes to rest at `price`: it joins the entry for
/// that price, or starts a new one.
pub open spec fn add_resting(ps: Seq<(i32, i32)>, price: i32, q: int) -> Seq<(i32, i32)> {
    let i = price_index(ps, price);
    if i < ps.len() {
        ps.update(i, (price, (ps[i].1 + q) as i32))
    } else {
        ps.push((price, q as i32))
    }
}

/// The trades of one sweep, with the parties of the order's side.
pub open spec fn as_trades(ps: Seq<(i32, i32)>, buyer: Party, seller: Party) -> Seq<Trade> {
    Seq::new(
        ps.len(),
        |i: int| Trade { price: ps[i].0, quantity: ps[i].1, buyer, seller },
    )
}

/// The state of a book, a ledger and the strategy's unfilled orders while
/// the strategy's orders are matched one after another.
pub ghost struct Matching {
    pub bids: Seq<Level>,
    pub asks: Seq<Level>,
    pub position: int,
    pub cash: int,
    pub trades: Seq<Trade>,
    pub resting_bids: Seq<(i32, i32)>,
    pub resting_asks: Seq<(i32, i32)>,
}

/// Matching starts from the live book and the ledger, with nothing traded.
pub open spec fn opening(bids: Seq<Level>, asks: Seq<Level>, ledger: ProductLedger) -> Matching {
    Matching {
        bids,
        asks,
        position: ledger.position as int,
        cash: ledger.cash as int,
        trades: seq![],
        resting_bids: seq![],
        resting_asks: seq![],
    }
}

/// One order: a buy sweeps the asks, a sell sweeps the bids; the strategy
/// pays for what it buys and is paid for what it sells; the unfilled rest
/// of the order comes to rest at its price.
pub open spec fn apply_order(m: Matching, o: Order) -> Matching {
    if o.quantity > 0 {
        let s = sweep(m.asks, o.price, o.quantity as int, true);
        Matching {
            asks: s.levels,
            position: m.position + (o.quantity - s.left),
            cash: m.cash - pair_notional(s.trades),
            trades: m.trades + as_trades(s.trades, Party::Submission, Party::Bot),
            resting_bids: if s.left > 0 {
                add_resting(m.resting_bids, o.price, s.left)
            } else {
                m.resting_bids
            },
            ..m
        }
    } else if o.quantity < 0 {
        let s = sweep(m.bids, o.price, -(o.quantity as int), false);
        Matching {
            bids: s.levels,
            position: m.position - (-(o.quantity as int) - s.left),
            cash: m.cash + pair_notional(s.trades),
            trades: m.trades + as_trades(s.trades, Party::Bot, Party::Submission),
            resting_asks: if s.left > 0 {
                add_resting(m.resting_asks, o.price, s.left)
            } else {
                m.resting_asks
            },
            ..m
        }
    } else {
        m
    }
}

/// The orders, matched in the order given.
pub open spec fn apply_orders(m: Matching, os: Seq<Order>) -> Matching
    decreases os.len(),
{
    if os.len() == 0 {
        m
    } else {
        apply_order(apply_orders(m, os.drop_last()), os.last())
    }
}

/// The side after each resting entry, in turn, has been added to it as a
/// strategy level.
pub open spec fn rest_orders(levels: Seq<Level>, ps: Seq<(i32, i32)>, descending: bool) -> Seq<
    Level,
>
    decreases ps.len(),
{
    if ps.len() == 0 {
        levels
    } else {
        with_level(
            rest_orders(levels, ps.drop_last(), descending),
            Level { price: ps.last().0, quantity: ps.last().1, owner: LevelOwner::Strategy },
            descending,
        )
    }
}

/// Total quantity of resting entries.
pub open spec fn resting_total(ps: Seq<(i32, i32)>) -> int
    decreases ps.len(),
{
    if ps.len() == 0 {
        0
    } else {
        resting_total(ps.drop_last()) + ps.last().1
    }
}

/// Every resting entry holds a positive quantity.
pub open spec fn positive_entries(ps: Seq<(i32, i32)>) -> bool {
    forall|i: int| 0 <= i < ps.len() ==> (#[trigger] ps[i]).1 > 0
}


proof fn lemma_price_index_bounds(ps: Seq<(i32, i32)>, price: i32)
    ensures
        0 <= price_index(ps, price) <= ps.len(),
        price_index(ps, price) < ps.len() ==> ps[price_index(ps, price)].0 == price,
        forall|j: int| 0 <= j < price_index(ps, price) ==> (#[trigger] ps[j]).0 != price,
    decreases ps.len(),
{
    if ps.len() > 0 && ps[0].0 != price {
        lemma_price_index_bounds(ps.drop_first(), price);
        assert forall|j: int| 0 <= j < price_index(ps, price) implies (#[trigger] ps[j]).0
            != price by {
            if j > 0 {
                assert(ps[j] == ps.drop_first()[j - 1]);
            }
        }
    }
}

proof fn lemma_resting_total_update(ps: Seq<(i32, i32)>, i: int, x: (i32, i32))
    requires
        0 <= i < ps.len(),
    ensures
        resting_total(ps.update(i, x)) == resting_total(ps) - ps[i].1 + x.1,
    decreases ps.len(),
{
    if i == ps.len() - 1 {
        assert(ps.update(i, x).drop_last() =~= ps.drop_last());
    } else {
        lemma_resting_total_update(ps.drop_last(), i, x);
        assert(ps.update(i, x).drop_last() =~= ps.drop_last().update(i, x));
    }
}

/// A resting entry holds no more than the total of all entries.
proof fn lemma_resting_entry_bound(ps: Seq<(i32, i32)>, i: int)
    requires
        positive_entries(ps),
        0 <= i < ps.len(),
    ensures
        ps[i].1 <= resting_total(ps),
    decreases ps.len(),
{
    lemma_resting_total_nonnegative(ps.drop_last());
    if i < ps.len() - 1 {
        lemma_resting_entry_bound(ps.drop_last(), i);
    }
}

pub(crate) proof fn lemma_resting_total_nonnegative(ps: Seq<(i32, i32)>)
    requires
        positive_entries(ps),
    ensures
        0 <= resting_total(ps),
    decreases ps.len(),
{
    if ps.len() > 0 {
        lemma_resting_total_nonnegative(ps.drop_last());
    }
}

/// Resting quantity at a price adds exactly that quantity to the total.
proof fn lemma_add_resting(ps: Seq<(i32, i32)>, price: i32, q: int)
    requires
        positive_entries(ps),
        q > 0,
        resting_total(ps) + q <= i32::MAX,
    ensures
        positive_entries(add_resting(ps, price, q)),
        resting_total(add_resting(ps, price, q)) == resting_total(ps) + q,
{
    lemma_price_index_bounds(ps, price);
    lemma_resting_total_nonnegative(ps);
    let i = price_index(ps, price);
    let r = add_resting(ps, price, q);
    if i < ps.len() {
        lemma_resting_entry_bound(ps, i);
        lemma_resting_total_update(ps, i, (price, (ps[i].1 + q) as i32));
        assert forall|k: int| 0 <= k < r.len() implies (#[trigger] r[k]).1 > 0 by {
            if k != i {
                assert(r[k] == ps[k]);
            }
        }
    } else {
        assert(r.drop_last() =~= ps);
        assert forall|k: int| 0 <= k < r.len() implies (#[trigger] r[k]).1 > 0 by {
            if k < ps.len() {
                assert(r[k] == ps[k]);
            }
        }
    }
}

/// Bound on the cash moved by orders for `volume` units in all.
pub open spec fn cash_span(volume: int) -> int {
    0x8000_0000 * volume
}

/// What matching orders for `bought` units to buy and `sold` units to sell
/// can have done, starting from `m0`: quantities stay nonnegative, the
/// strategy's own levels are not touched, the position moved by no more than
/// what was filled, and the position plus what rests to buy (minus what
/// rests to sell) stays within what was ordered.
pub open spec fn within_budget(m0: Matching, m: Matching, bought: int, sold: int) -> bool {
    &&& nonnegative_side(m.bids)
    &&& nonnegative_side(m.asks)
    &&& positive_entries(m.resting_bids)
    &&& positive_entries(m.resting_asks)
    &&& owned_total(m.bids, LevelOwner::Strategy) == owned_total(m0.bids, LevelOwner::Strategy)
    &&& owned_total(m.asks, LevelOwner::Strategy) == owned_total(m0.asks, LevelOwner::Strategy)
    &&& m.position + resting_total(m.resting_bids) <= m0.position + bought
    &&& m.position - resting_total(m.resting_asks) >= m0.position - sold
    &&& m0.position - sold <= m.position <= m0.position + bought
    &&& resting_total(m.resting_bids) <= bought
    &&& resting_total(m.resting_asks) <= sold
    &&& -cash_span(bought + sold) <= m.cash - m0.cash <= cash_span(bought + sold)
}

pub(crate) proof fn lemma_order_totals(os: Seq<Order>)
    ensures
        total_buy(os) >= 0,
        total_sell(os) >= 0,
    decreases os.len(),
{
    if os.len() > 0 {
        lemma_order_totals(os.drop_last());
    }
}

/// The totals of a prefix of the orders are no larger than those of all of them.
pub proof fn lemma_order_totals_prefix(os: Seq<Order>, i: int)
    requires
        0 <= i <= os.len(),
    ensures
        0 <= total_buy(os.take(i)) <= total_buy(os),
        0 <= total_sell(os.take(i)) <= total_sell(os),
    decreases os.len() - i,
{
    lemma_order_totals(os.take(i));
    if i < os.len() {
        lemma_order_totals_prefix(os, i + 1);
        assert(os.take(i + 1).drop_last() =~= os.take(i));
    } else {
        assert(os.take(i) =~= os);
    }
}

/// Matching any orders keeps within the budget of what they buy and sell.
pub proof fn lemma_apply_orders(m0: Matching, os: Seq<Order>)
    requires
        nonnegative_side(m0.bids),
        nonnegative_side(m0.asks),
        m0.resting_bids.len() == 0,
        m0.resting_asks.len() == 0,
        total_buy(os) <= i32::MAX,
        total_sell(os) <= i32::MAX,
    ensures
        within_budget(m0, apply_orders(m0, os), total_buy(os), total_sell(os)),
    decreases os.len(),
{
    if os.len() == 0 {
        assert(resting_total(m0.resting_bids) == 0);
        assert(resting_total(m0.resting_asks) == 0);
    } else {
        let pre = os.drop_last();
        lemma_order_totals(pre);
        lemma_apply_orders(m0, pre);
        let m = apply_orders(m0, pre);
        let o = os.last();
        let tb = total_buy(pre);
        let ts = total_sell(pre);
        lemma_resting_total_nonnegative(m.resting_bids);
        lemma_resting_total_nonnegative(m.resting_asks);
        if o.quantity > 0 {
            lemma_sweep(m.asks, o.price, o.quantity as int, true);
            let sw = sweep(m.asks, o.price, o.quantity as int, true);
            if sw.left > 0 {
                lemma_add_resting(m.resting_bids, o.price, sw.left);
            }
            assert(cash_span(tb + ts) + cash_span(o.quantity - sw.left) <= cash_span(
                tb + o.quantity + ts,
            ));
        } else if o.quantity < 0 {
            lemma_sweep(m.bids, o.price, -(o.quantity as int), false);
            let sw = sweep(m.bids, o.price, -(o.quantity as int), false);
            if sw.left > 0 {
                lemma_add_resting(m.resting_asks, o.price, sw.left);
            }
            assert(cash_span(tb + ts) + cash_span(-(o.quantity as int) - sw.left) <= cash_span(
                tb + ts - o.quantity,
            ));
        }
    }
}


/// Appends the fills of one sweep.
fn record_fills(
    fills: &mut Vec<Fill>,
    product: &str,
    timestamp: i32,
    trades: &Vec<(i32, i32)>,
    buyer: Party,
    seller: Party,
    Ghost(recorded): Ghost<Seq<Trade>>,
)
    requires
        fills_are(old(fills)@, recorded, product@, timestamp),
    ensures
        fills_are(final(fills)@, recorded + as_trades(trades@, buyer, seller), product@, timestamp),
{
    let mut i: usize = 0;
    while i < trades.len()
        invariant
            i <= trades.len(),
            fills_are(
                fills@,
                recorded + as_trades(trades@.take(i as int), buyer, seller),
                product@,
                timestamp,
            ),
        decreases trades.len() - i,
    {
        let (price, quantity) = trades[i];
        let symbol = product.to_owned();
        let ghost before = fills@;
        fills.push(Fill { symbol, price, quantity, buyer, seller, timestamp });
        proof {
            let next = recorded + as_trades(trades@.take(i + 1), buyer, seller);
            let prev = recorded + as_trades(trades@.take(i as int), buyer, seller);
            assert(next =~= prev.push(Trade { price, quantity, buyer, seller }));
            assert forall|k: int| 0 <= k < fills@.len() implies fill_is(
                #[trigger] fills@[k],
                next[k],
                product@,
                timestamp,
            ) by {
                if k < before.len() {
                    assert(fills@[k] == before[k]);
                    assert(next[k] == prev[k]);
                }
            }
        }
        i = i + 1;
    }
    assert(trades@.take(trades.len() as int) =~= trades@);
}

/// Adds unfilled quantity at a price to the resting entries.
fn add_resting_exec(ps: &mut Vec<(i32, i32)>, price: i32, q: i32)
    requires
        positive_entries(old(ps)@),
        q > 0,
        resting_total(old(ps)@) + q <= i32::MAX,
    ensures
        final(ps)@ == add_resting(old(ps)@, price, q as int),
{
    proof {
        lemma_price_index_bounds(ps@, price);
        lemma_add_resting(ps@, price, q as int);
        lemma_resting_total_nonnegative(ps@);
    }
    let mut i: usize = 0;
    while i < ps.len()
        invariant
            ps@ == old(ps)@,
            positive_entries(ps@),
            q > 0,
            resting_total(ps@) + q <= i32::MAX,
            i <= ps.len(),
            i <= price_index(ps@, price),
            0 <= price_index(ps@, price) <= ps@.len(),
            price_index(ps@, price) < ps@.len() ==> ps@[price_index(ps@, price)].0 == price,
            forall|j: int| 0 <= j < price_index(ps@, price) ==> (#[trigger] ps@[j]).0 != price,
        decreases ps.len() - i,
    {
        if ps[i].0 == price {
            proof {
                lemma_resting_entry_bound(ps@, i as int);
            }
            let entry = ps[i];
            ps.set(i, (price, entry.1 + q));
            return;
        }
        i = i + 1;
    }
    ps.push((price, q));
}

/// Limit on the cash a ledger may hold before it is handed to the matcher,
/// far beyond anything a session reaches.
pub open spec fn cash_limit() -> int {
    0x1_0000_0000_0000_0000_0000_0000
}

/// The book, ledger and orders are such that matching cannot overflow:
/// quantities are nonnegative and the totals ordered, added to the position
/// or to the strategy's own resting levels, fit in 32 bits.
pub open spec fn orders_fit(
    bids: Seq<Level>,
    asks: Seq<Level>,
    ledger: ProductLedger,
    os: Seq<Order>,
) -> bool {
    &&& nonnegative_side(bids)
    &&& nonnegative_side(asks)
    &&& total_buy(os) <= i32::MAX
    &&& total_sell(os) <= i32::MAX
    &&& ledger.position + total_buy(os) <= i32::MAX
    &&& ledger.position - total_sell(os) >= i32::MIN
    &&& owned_total(bids, LevelOwner::Strategy) + total_buy(os) <= i32::MAX
    &&& owned_total(asks, LevelOwner::Strategy) + total_sell(os) <= i32::MAX
    &&& -cash_limit() <= ledger.cash <= cash_limit()
}

/// The state after the strategy's orders have been matched, before their
/// unfilled parts are put on the book.
pub open spec fn strategy_matching(
    bids: Seq<Level>,
    asks: Seq<Level>,
    ledger: ProductLedger,
    os: Seq<Order>,
) -> Matching {
    apply_orders(opening(bids, asks, ledger), os)
}

/// Rests the unfilled quantities on one side as strategy levels.
fn rest_on_side(levels: &mut Vec<Level>, resting: &Vec<(i32, i32)>, descending: bool)
    requires
        nonnegative_side(old(levels)@),
        positive_entries(resting@),
        owned_total(old(levels)@, LevelOwner::Strategy) + resting_total(resting@) <= i32::MAX,
    ensures
        final(levels)@ == rest_orders(old(levels)@, resting@, descending),
{
    let ghost start = levels@;
    let mut j: usize = 0;
    proof {
        lemma_resting_total_nonnegative(resting@);
    }
    while j < resting.len()
        invariant
            j <= resting.len(),
            positive_entries(resting@),
            nonnegative_side(levels@),
            levels@ == rest_orders(start, resting@.take(j as int), descending),
            owned_total(levels@, LevelOwner::Strategy) == owned_total(start, LevelOwner::Strategy)
                + resting_total(resting@.take(j as int)),
            owned_total(start, LevelOwner::Strategy) + resting_total(resting@) <= i32::MAX,
        decreases resting.len() - j,
    {
        let (price, quantity) = resting[j];
        let l = Level { price, quantity, owner: LevelOwner::Strategy };
        proof {
            let pre = resting@.take(j as int);
            let next = resting@.take(j + 1);
            assert(next.drop_last() =~= pre);
            assert(next.last() == (price, quantity));
            lemma_resting_prefix(resting@, j as int + 1);
            crate::book::lemma_slot_index_facts(levels@, l);
            let i = crate::book::slot_index(levels@, l);
            if i < levels@.len() {
                lemma_owned_entry_bound(levels@, i);
            }
            lemma_with_level(levels@, l, descending, LevelOwner::Strategy);
        }
        insert_level(levels, l, descending);
        j = j + 1;
    }
    assert(resting@.take(resting.len() as int) =~= resting@);
}

/// The resting total of a prefix is no larger than the whole total.
proof fn lemma_resting_prefix(ps: Seq<(i32, i32)>, i: int)
    requires
        positive_entries(ps),
        0 <= i <= ps.len(),
    ensures
        0 <= resting_total(ps.take(i)) <= resting_total(ps),
    decreases ps.len() - i,
{
    assert(positive_entries(ps.take(i)));
    lemma_resting_total_nonnegative(ps.take(i));
    if i < ps.len() {
        lemma_resting_prefix(ps, i + 1);
        assert(ps.take(i + 1).drop_last() =~= ps.take(i));
    } else {
        assert(ps.take(i) =~= ps);
    }
}

/// Matches the strategy's orders of one tick against the live book, in the
/// order given. A buy takes bot asks from the best price up to its limit,
/// a sell takes bot bids down to its limit; the strategy never trades with
/// its own resting levels. Each fill moves the ledger. What an order does
/// not fill rests on the book at its limit price, merged per price, behind
/// bot liquidity at the same price.
pub fn execute_strategy_orders(
    product: &str,
    timestamp: i32,
    book: &mut SimBook,
    ledger: &mut ProductLedger,
    orders: &Vec<Order>,
) -> (fills: Vec<Fill>)
    requires
        orders_fit(old(book).bids@, old(book).asks@, *old(ledger), orders@),
    ensures
        ({
            let m = strategy_matching(old(book).bids@, old(book).asks@, *old(ledger), orders@);
            &&& final(book).bids@ == rest_orders(m.bids, m.resting_bids, true)
            &&& final(book).asks@ == rest_orders(m.asks, m.resting_asks, false)
            &&& final(ledger).position == m.position
            &&& final(ledger).cash == m.cash
            &&& fills_are(fills@, m.trades, product@, timestamp)
        }),
{
    let ghost m0 = opening(book.bids@, book.asks@, *ledger);
    let mut fills: Vec<Fill> = Vec::new();
    let mut resting_bids: Vec<(i32, i32)> = Vec::new();
    let mut resting_asks: Vec<(i32, i32)> = Vec::new();
    let mut i: usize = 0;
    proof {
        lemma_order_totals_prefix(orders@, 0);
        assert(orders@.take(0) =~= Seq::<Order>::empty());
        assert(m0.trades =~= Seq::<Trade>::empty());
    }
    while i < orders.len()
        invariant
            i <= orders.len(),
            orders_fit(m0.bids, m0.asks, *old(ledger), orders@),
            m0 == opening(old(book).bids@, old(book).asks@, *old(ledger)),
            book.bids@ == apply_orders(m0, orders@.take(i as int)).bids,
            book.asks@ == apply_orders(m0, orders@.take(i as int)).asks,
            ledger.position == apply_orders(m0, orders@.take(i as int)).position,
            ledger.cash == apply_orders(m0, orders@.take(i as int)).cash,
            resting_bids@ == apply_orders(m0, orders@.take(i as int)).resting_bids,
            resting_asks@ == apply_orders(m0, orders@.take(i as int)).resting_asks,
            fills_are(fills@, apply_orders(m0, orders@.take(i as int)).trades, product@, timestamp),
            within_budget(
                m0,
                apply_orders(m0, orders@.take(i as int)),
                total_buy(orders@.take(i as int)),
                total_sell(orders@.take(i as int)),
            ),
        decreases orders.len() - i,
    {
        let o = orders[i];
        let ghost m = apply_orders(m0, orders@.take(i as int));
        proof {
            let next = orders@.take(i + 1);
            assert(next.drop_last() =~= orders@.take(i as int));
            assert(next.last() == o);
            lemma_order_totals_prefix(orders@, i + 1);
            lemma_order_totals_prefix(orders@, i as int);
            lemma_apply_orders(m0, next);
            lemma_resting_total_nonnegative(m.resting_bids);
            lemma_resting_total_nonnegative(m.resting_asks);
        }
        if o.quantity > 0 {
            let (trades, left) = take_liquidity(&mut book.asks, o.price, o.quantity, true);
            proof {
                lemma_sweep(m.asks, o.price, o.quantity as int, true);
            }
            ledger.position = ledger.position + (o.quantity - left);
            let n = notional_of(&trades);
            ledger.cash = ledger.cash - n;
            record_fills(
                &mut fills,
                product,
                timestamp,
                &trades,
                Party::Submission,
                Party::Bot,
                Ghost(m.trades),
            );
            if left > 0 {
                add_resting_exec(&mut resting_bids, o.price, left);
            }
        } else if o.quantity < 0 {
            let wanted = -o.quantity;
            let (trades, left) = take_liquidity(&mut book.bids, o.price, wanted, false);
            proof {
                lemma_sweep(m.bids, o.price, wanted as int, false);
            }
            ledger.position = ledger.position - (wanted - left);
            let n = notional_of(&trades);
            ledger.cash = ledger.cash + n;
            record_fills(
                &mut fills,
                product,
                timestamp,
                &trades,
                Party::Bot,
                Party::Submission,
                Ghost(m.trades),
            );
            if left > 0 {
                add_resting_exec(&mut resting_asks, o.price, left);
            }
        }
        i = i + 1;
    }
    proof {
        assert(orders@.take(orders.len() as int) =~= orders@);
        lemma_order_totals_prefix(orders@, orders.len() as int);
    }
    rest_on_side(&mut book.bids, &resting_bids, true);
    rest_on_side(&mut book.asks, &resting_asks, false);
    fills
}


pub fn fill_involves_strategy(fill: &Fill) -> (b: bool)
    ensures
        b == (fill.buyer == Party::Submission || fill.seller == Party::Submission),
{
    fill.buyer == Party::Submission || fill.seller == Party::Submission
}


/// Dropping the front level, or shrinking it, keeps a side in order.
pub proof fn lemma_front_change_keeps_order(s: Seq<Level>, l: Level, descending: bool)
    requires
        is_ordered(s, descending),
        s.len() > 0,
        l.price == s[0].price,
        l.owner == s[0].owner,
    ensures
        is_ordered(s.drop_first(), descending),
        is_ordered(s.update(0, l), descending),
{
    let t = s.drop_first();
    assert forall|i: int, j: int| 0 <= i < j < t.len() implies level_key(
        #[trigger] t[i],
        descending,
    ) <= level_key(#[trigger] t[j], descending) by {
        assert(t[i] == s[i + 1]);
        assert(t[j] == s[j + 1]);
    }
    let u = s.update(0, l);
    assert(level_key(l, descending) == level_key(s[0], descending));
    assert forall|i: int, j: int| 0 <= i < j < u.len() implies level_key(
        #[trigger] u[i],
        descending,
    ) <= level_key(#[trigger] u[j], descending) by {
        assert(u[j] == s[j]);
        if i > 0 {
            assert(u[i] == s[i]);
        } else {
            assert(level_key(u[i], descending) == level_key(s[0], descending));
        }
    }
}

proof fn lemma_sweep_keeps_order(levels: Seq<Level>, limit: i32, wanted: int, is_buy: bool, descending: bool)
    requires
        is_ordered(levels, descending),
    ensures
        is_ordered(sweep(levels, limit, wanted, is_buy).levels, descending),
    decreases levels.len(),
{
    if wanted <= 0 || levels.len() == 0 || !crosses(levels[0], limit, is_buy) {
    } else {
        let best = levels[0];
        let q: int = if wanted < best.quantity {
            wanted
        } else {
            best.quantity as int
        };
        let nl = Level { quantity: (best.quantity - q) as i32, ..best };
        lemma_front_change_keeps_order(levels, nl, descending);
        if best.quantity - q == 0 {
            lemma_sweep_keeps_order(levels.drop_first(), limit, wanted - q, is_buy, descending);
        }
    }
}

proof fn lemma_apply_orders_keeps_order(m0: Matching, os: Seq<Order>)
    requires
        is_ordered(m0.bids, true),
        is_ordered(m0.asks, false),
    ensures
        is_ordered(apply_orders(m0, os).bids, true),
        is_ordered(apply_orders(m0, os).asks, false),
    decreases os.len(),
{
    if os.len() > 0 {
        lemma_apply_orders_keeps_order(m0, os.drop_last());
        let m = apply_orders(m0, os.drop_last());
        let o = os.last();
        if o.quantity > 0 {
            lemma_sweep_keeps_order(m.asks, o.price, o.quantity as int, true, false);
        } else if o.quantity < 0 {
            lemma_sweep_keeps_order(m.bids, o.price, -(o.quantity as int), false, true);
        }
    }
}

proof fn lemma_rest_orders_keeps_order(levels: Seq<Level>, ps: Seq<(i32, i32)>, descending: bool)
    requires
        is_ordered(levels, descending),
    ensures
        is_ordered(rest_orders(levels, ps, descending), descending),
{
    if ps.len() > 0 {
        let pre = rest_orders(levels, ps.drop_last(), descending);
        let l = Level { price: ps.last().0, quantity: ps.last().1, owner: LevelOwner::Strategy };
        lemma_sorted_levels(crate::book::merge_level(pre, l), descending);
    }
}

/// Law: a strategy order trades with the best bot level of the other side
/// exactly when that level is at its limit or better. A buy whose limit is
/// at or above the best ask, a bot's, first buys from it as much as both
/// hold, at the ask's price; a sell whose limit is at or below the best bid,
/// a bot's, first sells to it likewise. An order that finds no such level
/// trades nothing, leaves the book and position alone, and rests whole at
/// its limit.
pub proof fn law_order_trades_with_crossing_bot_level(
    bids: Seq<Level>,
    asks: Seq<Level>,
    ledger: ProductLedger,
    o: Order,
)
    ensures
        ({
            let m = strategy_matching(bids, asks, ledger, seq![o]);
            &&& o.quantity > 0 && asks.len() > 0 && asks[0].owner == LevelOwner::Bot
                && asks[0].quantity > 0 && asks[0].price <= o.price ==> m.trades.len() > 0
                && m.trades[0] == Trade {
                price: asks[0].price,
                quantity: if o.quantity < asks[0].quantity {
                    o.quantity
                } else {
                    asks[0].quantity
                },
                buyer: Party::Submission,
                seller: Party::Bot,
            }
            &&& o.quantity > 0 && (asks.len() == 0 || asks[0].owner == LevelOwner::Strategy
                || asks[0].price > o.price) ==> m.trades.len() == 0 && m.bids == bids && m.asks
                == asks && m.position == ledger.position && m.resting_bids == seq![
                (o.price, o.quantity),
            ] && m.resting_asks.len() == 0
            &&& o.quantity < 0 && bids.len() > 0 && bids[0].owner == LevelOwner::Bot
                && bids[0].quantity > 0 && bids[0].price >= o.price ==> m.trades.len() > 0
                && m.trades[0] == Trade {
                price: bids[0].price,
                quantity: (if -(o.quantity as int) < bids[0].quantity {
                    -(o.quantity as int)
                } else {
                    bids[0].quantity as int
                }) as i32,
                buyer: Party::Bot,
                seller: Party::Submission,
            }
            &&& o.quantity < 0 && (bids.len() == 0 || bids[0].owner == LevelOwner::Strategy
                || bids[0].price < o.price) ==> m.trades.len() == 0 && m.bids == bids && m.asks
                == asks && m.position == ledger.position && m.resting_asks == seq![
                (o.price, (-(o.quantity as int)) as i32),
            ] && m.resting_bids.len() == 0
        }),
{
    let m0 = opening(bids, asks, ledger);
    assert(seq![o].drop_last() =~= Seq::<Order>::empty());
    assert(seq![o].last() == o);
    assert(apply_orders(m0, Seq::<Order>::empty()) == m0);
    let m = strategy_matching(bids, asks, ledger, seq![o]);
    assert(m == apply_order(m0, o));
    if o.quantity > 0 {
        let s = sweep(asks, o.price, o.quantity as int, true);
        if asks.len() > 0 && crosses(asks[0], o.price, true) {
            assert(s.trades[0] == (asks[0].price, (if o.quantity < asks[0].quantity {
                o.quantity
            } else {
                asks[0].quantity
            })));
            assert(m.trades =~= as_trades(s.trades, Party::Submission, Party::Bot));
        } else {
            assert(m.trades =~= Seq::<Trade>::empty());
            assert(m.resting_bids =~= seq![(o.price, o.quantity)]);
        }
    } else if o.quantity < 0 {
        let s = sweep(bids, o.price, -(o.quantity as int), false);
        if bids.len() > 0 && crosses(bids[0], o.price, false) {
            assert(m.trades =~= as_trades(s.trades, Party::Bot, Party::Submission));
        } else {
            assert(m.trades =~= Seq::<Trade>::empty());
            assert(m.resting_asks =~= seq![(o.price, (-(o.quantity as int)) as i32)]);
        }
    }
}

/// Law: matching the strategy's orders keeps a book in matching order:
/// bids by falling price, asks by rising price, bot levels before strategy
/// levels at the same price.
pub proof fn law_matching_keeps_book_ordered(
    bids: Seq<Level>,
    asks: Seq<Level>,
    ledger: ProductLedger,
    os: Seq<Order>,
)
    requires
        is_ordered(bids, true),
        is_ordered(asks, false),
    ensures
        ({
            let m = strategy_matching(bids, asks, ledger, os);
            &&& is_ordered(rest_orders(m.bids, m.resting_bids, true), true)
            &&& is_ordered(rest_orders(m.asks, m.resting_asks, false), false)
        }),
{
    let m0 = opening(bids, asks, ledger);
    lemma_apply_orders_keeps_order(m0, os);
    let m = apply_orders(m0, os);
    lemma_rest_orders_keeps_order(m.bids, m.resting_bids, true);
    lemma_rest_orders_keeps_order(m.asks, m.resting_asks, false);
}

/// Law: a taker order keeps a side in matching order.
pub open spec fn trade_cash(t: Trade) -> int {
    (if t.seller == Party::Submission {
        t.price * t.quantity
    } else {
        0
    }) - (if t.buyer == Party::Submission {
        t.price * t.quantity
    } else {
        0
    })
}

/// Units a trade adds to the strategy's position: what it buys minus what
/// it sells.
pub open spec fn trade_units(t: Trade) -> int {
    (if t.buyer == Party::Submission {
        t.quantity as int
    } else {
        0
    }) - (if t.seller == Party::Submission {
        t.quantity as int
    } else {
        0
    })
}

/// Total cash the trades pay the strategy.
pub open spec fn cash_flow(ts: Seq<Trade>) -> int
    decreases ts.len(),
{
    if ts.len() == 0 {
        0
    } else {
        trade_cash(ts[0]) + cash_flow(ts.drop_first())
    }
}

/// Total units the trades add to the strategy's position.
pub open spec fn unit_flow(ts: Seq<Trade>) -> int
    decreases ts.len(),
{
    if ts.len() == 0 {
        0
    } else {
        trade_units(ts[0]) + unit_flow(ts.drop_first())
    }
}

pub proof fn lemma_flows_concat(a: Seq<Trade>, b: Seq<Trade>)
    ensures
        cash_flow(a + b) == cash_flow(a) + cash_flow(b),
        unit_flow(a + b) == unit_flow(a) + unit_flow(b),
    decreases a.len(),
{
    if a.len() == 0 {
        assert(a + b =~= b);
    } else {
        lemma_flows_concat(a.drop_first(), b);
        assert((a + b).drop_first() =~= a.drop_first() + b);
    }
}

proof fn lemma_flows_of_sweep(ps: Seq<(i32, i32)>, strategy_buys: bool)
    ensures
        strategy_buys ==> cash_flow(as_trades(ps, Party::Submission, Party::Bot)) == -pair_notional(
            ps,
        ),
        strategy_buys ==> unit_flow(as_trades(ps, Party::Submission, Party::Bot)) == pair_quantity(
            ps,
        ),
        !strategy_buys ==> cash_flow(as_trades(ps, Party::Bot, Party::Submission)) == pair_notional(
            ps,
        ),
        !strategy_buys ==> unit_flow(as_trades(ps, Party::Bot, Party::Submission)) == -pair_quantity(
            ps,
        ),
    decreases ps.len(),
{
    if ps.len() > 0 {
        lemma_flows_of_sweep(ps.drop_first(), strategy_buys);
        assert(as_trades(ps, Party::Submission, Party::Bot).drop_first() =~= as_trades(
            ps.drop_first(),
            Party::Submission,
            Party::Bot,
        ));
        assert(as_trades(ps, Party::Bot, Party::Submission).drop_first() =~= as_trades(
            ps.drop_first(),
            Party::Bot,
            Party::Submission,
        ));
    }
}

/// Law: the ledger moves by exactly the strategy's fills: its cash by what
/// the fills pay, its position by the units they buy less those they sell.
pub proof fn law_ledger_follows_fills(
    bids: Seq<Level>,
    asks: Seq<Level>,
    ledger: ProductLedger,
    os: Seq<Order>,
)
    requires
        nonnegative_side(bids),
        nonnegative_side(asks),
    ensures
        ({
            let m = strategy_matching(bids, asks, ledger, os);
            &&& m.cash == ledger.cash + cash_flow(m.trades)
            &&& m.position == ledger.position + unit_flow(m.trades)
        }),
    decreases os.len(),
{
    if os.len() > 0 {
        let pre = os.drop_last();
        law_ledger_follows_fills(bids, asks, ledger, pre);
        let m = strategy_matching(bids, asks, ledger, pre);
        lemma_nonnegative_sides_kept(opening(bids, asks, ledger), pre);
        let o = os.last();
        if o.quantity > 0 {
            lemma_sweep(m.asks, o.price, o.quantity as int, true);
            let sw = sweep(m.asks, o.price, o.quantity as int, true);
            lemma_flows_of_sweep(sw.trades, true);
            lemma_flows_concat(m.trades, as_trades(sw.trades, Party::Submission, Party::Bot));
        } else if o.quantity < 0 {
            lemma_sweep(m.bids, o.price, -(o.quantity as int), false);
            let sw = sweep(m.bids, o.price, -(o.quantity as int), false);
            lemma_flows_of_sweep(sw.trades, false);
            lemma_flows_concat(m.trades, as_trades(sw.trades, Party::Bot, Party::Submission));
        }
    } else {
        assert(cash_flow(Seq::<Trade>::empty()) == 0);
        assert(unit_flow(Seq::<Trade>::empty()) == 0);
    }
}

/// Matching keeps every quantity on the book nonnegative.
proof fn lemma_nonnegative_sides_kept(m0: Matching, os: Seq<Order>)
    requires
        nonnegative_side(m0.bids),
        nonnegative_side(m0.asks),
    ensures
        nonnegative_side(apply_orders(m0, os).bids),
        nonnegative_side(apply_orders(m0, os).asks),
    decreases os.len(),
{
    if os.len() > 0 {
        lemma_nonnegative_sides_kept(m0, os.drop_last());
        let m = apply_orders(m0, os.drop_last());
        let o = os.last();
        if o.quantity > 0 {
            lemma_sweep(m.asks, o.price, o.quantity as int, true);
        } else if o.quantity < 0 {
            lemma_sweep(m.bids, o.price, -(o.quantity as int), false);
        }
    }
}

} // verus!
