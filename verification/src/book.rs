//! Price levels and order books: the quotes the bots post each tick, the
//! live book that orders are matched against, and the ordering that keeps
//! the best level of each side first.

use vstd::prelude::*;

use crate::rng::{gen_i64_inclusive, gen_index_below};
use rand_chacha::ChaCha8Rng;

verus! {

broadcast use vstd::seq_lib::group_to_multiset_ensures;

/// Who posted a price level.
#[derive(Clone, Copy, Debug, PartialEq, Eq, Structural)]
pub enum LevelOwner {
    Bot,
    Strategy,
}

/// One price level of the live book.
#[derive(Clone, Copy, Debug, PartialEq, Eq, Structural)]
pub struct Level {
    pub price: i32,
    pub quantity: i32,
    pub owner: LevelOwner,
}

/// The live book of one product: bids best (highest) first, asks best
/// (lowest) first.
#[derive(Clone, Debug)]
pub struct SimBook {
    pub bids: Vec<Level>,
    pub asks: Vec<Level>,
}

/// The quotes that the bots post for one product at one tick, as
/// `(price, volume)` pairs in the order they are shown to the strategy.
#[derive(Clone, Debug)]
pub struct Book {
    pub bids: Vec<(i32, i32)>,
    pub asks: Vec<(i32, i32)>,
}

/// Where the inside-quote bot (bot 3) posts this tick, if anywhere.
#[derive(Clone, Copy, Debug, PartialEq, Eq, Structural)]
pub struct InsideQuote {
    pub is_bid: bool,
    pub price: i32,
    pub volume: i32,
}

/// Priority among levels at the same price: bot liquidity is matched first.
pub open spec fn priority(owner: LevelOwner) -> int {
    match owner {
        LevelOwner::Bot => 0,
        LevelOwner::Strategy => 1,
    }
}

/// Matching priority of a level owner (lower is matched first).
pub fn owner_priority(owner: LevelOwner) -> (p: i32)
    ensures
        p == priority(owner),
{
    match owner {
        LevelOwner::Bot => 0,
        LevelOwner::Strategy => 1,
    }
}

/// The position of a level in its side's order: levels with a smaller key
/// come first. Bids (`descending`) go by falling price, asks by rising price;
/// at equal price bot levels come before strategy levels.
pub open spec fn level_key(l: Level, descending: bool) -> int {
    if descending {
        -2 * (l.price as int) + priority(l.owner)
    } else {
        2 * (l.price as int) + priority(l.owner)
    }
}

/// A side whose levels are in matching order.
pub open spec fn is_ordered(s: Seq<Level>, descending: bool) -> bool {
    forall|i: int, j: int|
        0 <= i < j < s.len() ==> level_key(#[trigger] s[i], descending) <= level_key(
            #[trigger] s[j],
            descending,
        )
}

/// Inserts `l` just before the first level whose key exceeds its own.
pub open spec fn insert_in_order(s: Seq<Level>, l: Level, descending: bool) -> Seq<Level>
    decreases s.len(),
{
    if s.len() == 0 {
        seq![l]
    } else if level_key(l, descending) < level_key(s[0], descending) {
        seq![l] + s
    } else {
        seq![s[0]] + insert_in_order(s.drop_first(), l, descending)
    }
}

/// The stable sort of a side by level key: levels with equal keys keep
/// their relative order.
pub open spec fn sorted_levels(s: Seq<Level>, descending: bool) -> Seq<Level>
    decreases s.len(),
{
    if s.len() == 0 {
        s
    } else {
        insert_in_order(sorted_levels(s.drop_last(), descending), s.last(), descending)
    }
}

/// Two levels that share a price and an owner are merged into one.
pub open spec fn same_slot(a: Level, l: Level) -> bool {
    a.price == l.price && a.owner == l.owner
}

/// Index of the first level with the same price and owner as `l`, or the
/// side's length where there is none.
pub open spec fn slot_index(s: Seq<Level>, l: Level) -> int
    decreases s.len(),
{
    if s.len() == 0 {
        0
    } else if same_slot(s[0], l) {
        0
    } else {
        1 + slot_index(s.drop_first(), l)
    }
}

/// Adds `l` to the side: into the first level with its price and owner, or
/// as a new level at the end.
pub open spec fn merge_level(s: Seq<Level>, l: Level) -> Seq<Level> {
    let i = slot_index(s, l);
    if i < s.len() {
        s.update(i, Level { quantity: (s[i].quantity + l.quantity) as i32, ..s[i] })
    } else {
        s.push(l)
    }
}

/// The side after `l` has been added and the side re-sorted.
pub open spec fn with_level(s: Seq<Level>, l: Level, descending: bool) -> Seq<Level> {
    sorted_levels(merge_level(s, l), descending)
}

/// Adding `l` to the side does not overflow a level's quantity.
pub open spec fn can_merge(s: Seq<Level>, l: Level) -> bool {
    slot_index(s, l) < s.len() ==> i32::MIN <= s[slot_index(s, l)].quantity + l.quantity
        <= i32::MAX
}

/// Total quantity resting on a side.
pub open spec fn side_total(s: Seq<Level>) -> int
    decreases s.len(),
{
    if s.len() == 0 {
        0
    } else {
        side_total(s.drop_last()) + s.last().quantity
    }
}

/// No level of the side has a negative quantity.
pub open spec fn nonnegative_side(s: Seq<Level>) -> bool {
    forall|i: int| 0 <= i < s.len() ==> (#[trigger] s[i]).quantity >= 0
}

/// Bot levels built from posted `(price, volume)` quotes.
pub open spec fn bot_levels(quotes: Seq<(i32, i32)>) -> Seq<Level> {
    Seq::new(
        quotes.len(),
        |i: int| Level { price: quotes[i].0, quantity: quotes[i].1, owner: LevelOwner::Bot },
    )
}

/// Quantity resting on levels of one owner.
pub open spec fn owned_total(s: Seq<Level>, owner: LevelOwner) -> int
    decreases s.len(),
{
    if s.len() == 0 {
        0
    } else {
        (if s[0].owner == owner {
            s[0].quantity as int
        } else {
            0
        }) + owned_total(s.drop_first(), owner)
    }
}

/// Quantity resting on a side, whoever posted it.
pub open spec fn level_total(s: Seq<Level>) -> int
    decreases s.len(),
{
    if s.len() == 0 {
        0
    } else {
        s[0].quantity + level_total(s.drop_first())
    }
}

// ---------------------------------------------------------------------------
// Lemmas about ordering
// ---------------------------------------------------------------------------

pub proof fn lemma_slot_index_facts(s: Seq<Level>, l: Level)
    ensures
        0 <= slot_index(s, l) <= s.len(),
        slot_index(s, l) < s.len() ==> same_slot(s[slot_index(s, l)], l),
        forall|j: int| 0 <= j < slot_index(s, l) ==> !same_slot(#[trigger] s[j], l),
    decreases s.len(),
{
    if s.len() > 0 && !same_slot(s[0], l) {
        lemma_slot_index_facts(s.drop_first(), l);
        assert forall|j: int| 0 <= j < slot_index(s, l) implies !same_slot(#[trigger] s[j], l) by {
            if j > 0 {
                assert(s[j] == s.drop_first()[j - 1]);
            }
        }
    }
}

/// `insert_in_order` places the level at the first index whose key exceeds its own.
proof fn lemma_insert_at(s: Seq<Level>, l: Level, descending: bool, p: int)
    requires
        0 <= p <= s.len(),
        forall|j: int| 0 <= j < p ==> !(level_key(l, descending) < level_key(#[trigger] s[j], descending)),
        p < s.len() ==> level_key(l, descending) < level_key(s[p], descending),
    ensures
        insert_in_order(s, l, descending) == s.insert(p, l),
    decreases s.len(),
{
    if s.len() == 0 {
        assert(s.insert(p, l) =~= seq![l]);
    } else if p == 0 {
        assert(s.insert(p, l) =~= seq![l] + s);
    } else {
        assert(!(level_key(l, descending) < level_key(s[0], descending)));
        let t = s.drop_first();
        assert forall|j: int| 0 <= j < p - 1 implies !(level_key(l, descending) < level_key(
            #[trigger] t[j],
            descending,
        )) by {
            assert(t[j] == s[j + 1]);
        }
        lemma_insert_at(t, l, descending, p - 1);
        assert(seq![s[0]] + t.insert(p - 1, l) =~= s.insert(p, l));
    }
}

proof fn lemma_insert_in_order_props(s: Seq<Level>, l: Level, descending: bool)
    requires
        is_ordered(s, descending),
    ensures
        is_ordered(insert_in_order(s, l, descending), descending),
        insert_in_order(s, l, descending).to_multiset() == s.to_multiset().insert(l),
        insert_in_order(s, l, descending).len() == s.len() + 1,
    decreases s.len(),
{
    let r = insert_in_order(s, l, descending);
    if s.len() == 0 {
        assert(r == seq![l]);
        assert(seq![l] =~= Seq::<Level>::empty().push(l));
    } else if level_key(l, descending) < level_key(s[0], descending) {
        assert(r =~= s.insert(0, l));
        assert forall|i: int, j: int| 0 <= i < j < r.len() implies level_key(
            #[trigger] r[i],
            descending,
        ) <= level_key(#[trigger] r[j], descending) by {
            if i == 0 {
                assert(r[j] == s[j - 1]);
                if j - 1 > 0 {
                    assert(level_key(s[0], descending) <= level_key(s[j - 1], descending));
                }
            } else {
                assert(r[i] == s[i - 1]);
                assert(r[j] == s[j - 1]);
            }
        }
    } else {
        let t = s.drop_first();
        assert forall|i: int, j: int| 0 <= i < j < t.len() implies level_key(
            #[trigger] t[i],
            descending,
        ) <= level_key(#[trigger] t[j], descending) by {
            assert(t[i] == s[i + 1]);
            assert(t[j] == s[j + 1]);
        }
        lemma_insert_in_order_props(t, l, descending);
        let rt = insert_in_order(t, l, descending);
        assert(r == seq![s[0]] + rt);
        // every element of rt is s[0]'s successor or l
        assert forall|k: int| 0 <= k < rt.len() implies level_key(s[0], descending) <= level_key(
            #[trigger] rt[k],
            descending,
        ) by {
            assert(rt.to_multiset().count(rt[k]) > 0);
            assert(rt.contains(rt[k]));
            if rt[k] != l {
                assert(t.to_multiset().count(rt[k]) > 0);
                assert(t.contains(rt[k]));
                let m = choose|m: int| 0 <= m < t.len() && t[m] == rt[k];
                assert(t[m] == s[m + 1]);
            }
        }
        assert forall|i: int, j: int| 0 <= i < j < r.len() implies level_key(
            #[trigger] r[i],
            descending,
        ) <= level_key(#[trigger] r[j], descending) by {
            assert(r[j] == rt[j - 1]);
            if i > 0 {
                assert(r[i] == rt[i - 1]);
            }
        }
        assert(r =~= rt.insert(0, s[0]));
        assert(s =~= t.insert(0, s[0]));
    }
}

/// Sorting a side puts it in matching order and keeps exactly its levels.
pub proof fn lemma_sorted_levels(s: Seq<Level>, descending: bool)
    ensures
        is_ordered(sorted_levels(s, descending), descending),
        sorted_levels(s, descending).to_multiset() == s.to_multiset(),
        sorted_levels(s, descending).len() == s.len(),
    decreases s.len(),
{
    if s.len() > 0 {
        lemma_sorted_levels(s.drop_last(), descending);
        lemma_insert_in_order_props(sorted_levels(s.drop_last(), descending), s.last(), descending);
        assert(s.drop_last().push(s.last()) =~= s);
    }
}


/// Quantity that a level adds to its owner's total.
pub open spec fn contribution(l: Level, owner: LevelOwner) -> int {
    if l.owner == owner {
        l.quantity as int
    } else {
        0
    }
}

pub proof fn lemma_owned_total_push_pub(s: Seq<Level>, l: Level, owner: LevelOwner)
    ensures
        owned_total(s.push(l), owner) == owned_total(s, owner) + contribution(l, owner),
        level_total(s.push(l)) == level_total(s) + l.quantity,
    decreases s.len(),
{
    if s.len() > 0 {
        lemma_owned_total_push_pub(s.drop_first(), l, owner);
        assert(s.push(l).drop_first() =~= s.drop_first().push(l));
    } else {
        assert(s.push(l).drop_first() =~= s);
    }
}

pub proof fn lemma_owned_total_update(s: Seq<Level>, i: int, l: Level, owner: LevelOwner)
    requires
        0 <= i < s.len(),
    ensures
        owned_total(s.update(i, l), owner) == owned_total(s, owner) - contribution(s[i], owner)
            + contribution(l, owner),
        level_total(s.update(i, l)) == level_total(s) - s[i].quantity + l.quantity,
    decreases s.len(),
{
    if i == 0 {
        assert(s.update(i, l).drop_first() =~= s.drop_first());
    } else {
        lemma_owned_total_update(s.drop_first(), i - 1, l, owner);
        assert(s.update(i, l).drop_first() =~= s.drop_first().update(i - 1, l));
    }
}

proof fn lemma_insert_in_order_totals(s: Seq<Level>, l: Level, descending: bool, owner: LevelOwner)
    ensures
        owned_total(insert_in_order(s, l, descending), owner) == owned_total(s, owner)
            + contribution(l, owner),
        level_total(insert_in_order(s, l, descending)) == level_total(s) + l.quantity,
        nonnegative_side(s) && l.quantity >= 0 ==> nonnegative_side(
            insert_in_order(s, l, descending),
        ),
    decreases s.len(),
{
    let r = insert_in_order(s, l, descending);
    if s.len() == 0 {
        assert(r.drop_first() =~= s);
    } else if level_key(l, descending) < level_key(s[0], descending) {
        assert(r.drop_first() =~= s);
        assert forall|i: int| 0 <= i < r.len() && nonnegative_side(s) && l.quantity >= 0 implies (#[trigger] r[i]).quantity >= 0 by {
            if i > 0 {
                assert(r[i] == s[i - 1]);
            }
        }
    } else {
        let t = s.drop_first();
        assert forall|i: int| 0 <= i < t.len() && nonnegative_side(s) && l.quantity >= 0 implies (#[trigger] t[i]).quantity >= 0 by {
            assert(t[i] == s[i + 1]);
        }
        lemma_insert_in_order_totals(t, l, descending, owner);
        let rt = insert_in_order(t, l, descending);
        assert(r.drop_first() =~= rt);
        assert forall|i: int| 0 <= i < r.len() && nonnegative_side(s) && l.quantity >= 0 implies (#[trigger] r[i]).quantity >= 0 by {
            if i > 0 {
                assert(r[i] == rt[i - 1]);
            }
        }
    }
}

proof fn lemma_sorted_levels_totals(s: Seq<Level>, descending: bool, owner: LevelOwner)
    ensures
        owned_total(sorted_levels(s, descending), owner) == owned_total(s, owner),
        level_total(sorted_levels(s, descending)) == level_total(s),
        nonnegative_side(s) ==> nonnegative_side(sorted_levels(s, descending)),
    decreases s.len(),
{
    if s.len() > 0 {
        let t = s.drop_last();
        assert forall|i: int| 0 <= i < t.len() && nonnegative_side(s) implies (#[trigger] t[i]).quantity >= 0 by {
            assert(t[i] == s[i]);
        }
        lemma_sorted_levels_totals(t, descending, owner);
        lemma_insert_in_order_totals(sorted_levels(t, descending), s.last(), descending, owner);
        lemma_owned_total_push_pub(t, s.last(), owner);
        assert(t.push(s.last()) =~= s);
    }
}

pub proof fn lemma_owned_total_nonnegative(s: Seq<Level>, owner: LevelOwner)
    requires
        nonnegative_side(s),
    ensures
        0 <= owned_total(s, owner),
        0 <= level_total(s),
    decreases s.len(),
{
    if s.len() > 0 {
        let t = s.drop_first();
        assert forall|k: int| 0 <= k < t.len() implies (#[trigger] t[k]).quantity >= 0 by {
            assert(t[k] == s[k + 1]);
        }
        lemma_owned_total_nonnegative(t, owner);
        assert(s[0].quantity >= 0);
    }
}

/// A level of one owner holds no more than that owner's total on the side.
pub proof fn lemma_owned_entry_bound(s: Seq<Level>, i: int)
    requires
        nonnegative_side(s),
        0 <= i < s.len(),
    ensures
        s[i].quantity <= owned_total(s, s[i].owner),
        0 <= owned_total(s, LevelOwner::Bot),
        0 <= owned_total(s, LevelOwner::Strategy),
    decreases s.len(),
{
    let t = s.drop_first();
    assert forall|k: int| 0 <= k < t.len() implies (#[trigger] t[k]).quantity >= 0 by {
        assert(t[k] == s[k + 1]);
    }
    lemma_owned_total_nonnegative(s, LevelOwner::Bot);
    lemma_owned_total_nonnegative(s, LevelOwner::Strategy);
    lemma_owned_total_nonnegative(t, s[i].owner);
    assert(s[0].quantity >= 0);
    if i > 0 {
        lemma_owned_entry_bound(t, i - 1);
        assert(t[i - 1] == s[i]);
    }
}

/// Adding a level and re-sorting adds exactly the new level's quantity to
/// its owner's total and to the side's, and keeps every quantity
/// nonnegative where they were.
pub proof fn lemma_with_level(s: Seq<Level>, l: Level, descending: bool, owner: LevelOwner)
    requires
        can_merge(s, l),
    ensures
        nonnegative_side(s) && l.quantity >= 0 ==> nonnegative_side(with_level(s, l, descending)),
        owned_total(with_level(s, l, descending), owner) == owned_total(s, owner) + contribution(
            l,
            owner,
        ),
        level_total(with_level(s, l, descending)) == level_total(s) + l.quantity,
{
    lemma_slot_index_facts(s, l);
    let i = slot_index(s, l);
    let m = merge_level(s, l);
    if i < s.len() {
        let nl = Level { quantity: (s[i].quantity + l.quantity) as i32, ..s[i] };
        lemma_owned_total_update(s, i, nl, owner);
        assert forall|k: int| 0 <= k < m.len() && nonnegative_side(s) && l.quantity >= 0 implies (#[trigger] m[k]).quantity >= 0 by {
            if k != i {
                assert(m[k] == s[k]);
            }
        }
    } else {
        lemma_owned_total_push_pub(s, l, owner);
        assert forall|k: int| 0 <= k < m.len() && nonnegative_side(s) && l.quantity >= 0 implies (#[trigger] m[k]).quantity >= 0 by {
            if k < s.len() {
                assert(m[k] == s[k]);
            }
        }
    }
    lemma_sorted_levels_totals(m, descending, owner);
}

// ---------------------------------------------------------------------------
// Executable code
// ---------------------------------------------------------------------------

/// Sort key of a level, as computed at run time.
fn sort_key(l: &Level, descending: bool) -> (k: i64)
    ensures
        k == level_key(*l, descending),
{
    let p: i64 = owner_priority(l.owner) as i64;
    assert(0 <= p <= 1);
    if descending {
        p - 2 * (l.price as i64)
    } else {
        2 * (l.price as i64) + p
    }
}

/// Sorts a side into matching order, stably.
pub fn sort_levels(levels: &mut Vec<Level>, descending: bool)
    ensures
        final(levels)@ == sorted_levels(old(levels)@, descending),
{
    let ghost unsorted = levels@;
    let mut sorted: Vec<Level> = Vec::new();
    let n = levels.len();
    let mut i: usize = 0;
    while i < n
        invariant
            n == levels.len(),
            levels@ == unsorted,
            i <= n,
            sorted@ == sorted_levels(unsorted.take(i as int), descending),
        decreases n - i,
    {
        let l = levels[i];
        let k = sort_key(&l, descending);
        let mut p: usize = 0;
        while p < sorted.len() && !(k < sort_key(&sorted[p], descending))
            invariant
                p <= sorted.len(),
                k == level_key(l, descending),
                forall|j: int|
                    0 <= j < p ==> !(level_key(l, descending) < level_key(
                        #[trigger] sorted@[j],
                        descending,
                    )),
            decreases sorted.len() - p,
        {
            p = p + 1;
        }
        proof {
            lemma_insert_at(sorted@, l, descending, p as int);
            assert(unsorted.take(i + 1).drop_last() =~= unsorted.take(i as int));
            assert(unsorted.take(i + 1).last() == l);
        }
        sorted.insert(p, l);
        i = i + 1;
    }
    proof {
        assert(unsorted.take(n as int) =~= unsorted);
    }
    *levels = sorted;
}

/// Finds the first level with the same price and owner as `l`.
fn find_slot(levels: &Vec<Level>, l: &Level) -> (i: usize)
    ensures
        i == slot_index(levels@, *l),
{
    proof {
        lemma_slot_index_facts(levels@, *l);
    }
    let mut i: usize = 0;
    while i < levels.len()
        invariant
            i <= levels.len(),
            i <= slot_index(levels@, *l),
            0 <= slot_index(levels@, *l) <= levels@.len(),
            slot_index(levels@, *l) < levels@.len() ==> same_slot(
                levels@[slot_index(levels@, *l)],
                *l,
            ),
            forall|j: int| 0 <= j < slot_index(levels@, *l) ==> !same_slot(#[trigger] levels@[j], *l),
        decreases levels.len() - i,
    {
        if levels[i].price == l.price && levels[i].owner == l.owner {
            return i;
        }
        i = i + 1;
    }
    i
}

/// Adds a level to one side of the book: its quantity joins the first level
/// with the same price and owner, or it becomes a new level; the side is
/// then re-sorted into matching order.
pub fn insert_level(levels: &mut Vec<Level>, level: Level, descending: bool)
    requires
        can_merge(old(levels)@, level),
    ensures
        final(levels)@ == with_level(old(levels)@, level, descending),
{
    let i = find_slot(levels, &level);
    proof {
        lemma_slot_index_facts(levels@, level);
    }
    if i < levels.len() {
        let mut existing = levels[i];
        existing.quantity = existing.quantity + level.quantity;
        levels.set(i, existing);
    } else {
        levels.push(level);
    }
    sort_levels(levels, descending);
}

/// Turns the quotes the bots posted into a live book of bot levels.
pub fn book_to_sim_book(book: &Book) -> (r: SimBook)
    ensures
        r.bids@ == bot_levels(book.bids@),
        r.asks@ == bot_levels(book.asks@),
{
    SimBook { bids: quotes_to_levels(&book.bids), asks: quotes_to_levels(&book.asks) }
}

fn quotes_to_levels(quotes: &Vec<(i32, i32)>) -> (r: Vec<Level>)
    ensures
        r@ == bot_levels(quotes@),
{
    let mut r: Vec<Level> = Vec::new();
    let mut i: usize = 0;
    while i < quotes.len()
        invariant
            i <= quotes.len(),
            r@ =~= bot_levels(quotes@.take(i as int)),
        decreases quotes.len() - i,
    {
        let (price, quantity) = quotes[i];
        r.push(Level { price, quantity, owner: LevelOwner::Bot });
        i = i + 1;
    }
    assert(quotes@.take(quotes.len() as int) =~= quotes@);
    r
}

/// A wall's quote on one side, when its bot is present this tick.
pub open spec fn wall(present: bool, price: i32, volume: i32) -> Seq<(i32, i32)> {
    if present {
        seq![(price, volume)]
    } else {
        seq![]
    }
}

/// The bot quotes of one tick: on each side the inner wall (bot 2) in front
/// of the outer wall (bot 1), each only when its bot is present this tick,
/// and the inside quote (bot 3), when present, in front of both on its side.
pub open spec fn book_layout(
    inner_bid: i32,
    inner_ask: i32,
    outer_bid: i32,
    outer_ask: i32,
    bot1_volume: i32,
    bot2_volume: i32,
    bot1_present: bool,
    bot2_present: bool,
    inside: Option<InsideQuote>,
) -> (Seq<(i32, i32)>, Seq<(i32, i32)>) {
    let bids = wall(bot2_present, inner_bid, bot2_volume) + wall(bot1_present, outer_bid, bot1_volume);
    let asks = wall(bot2_present, inner_ask, bot2_volume) + wall(bot1_present, outer_ask, bot1_volume);
    match inside {
        Some(q) => if q.is_bid {
            (seq![(q.price, q.volume)] + bids, asks)
        } else {
            (bids, seq![(q.price, q.volume)] + asks)
        },
        None => (bids, asks),
    }
}

/// Lays out the quotes of bots 1, 2 and 3 for one tick; a wall whose bot is
/// absent this tick is left out on both sides.
pub fn assemble_book(
    inner_bid: i32,
    inner_ask: i32,
    outer_bid: i32,
    outer_ask: i32,
    bot1_volume: i32,
    bot2_volume: i32,
    bot1_present: bool,
    bot2_present: bool,
    inside: Option<InsideQuote>,
) -> (r: Book)
    ensures
        (r.bids@, r.asks@) == book_layout(
            inner_bid,
            inner_ask,
            outer_bid,
            outer_ask,
            bot1_volume,
            bot2_volume,
            bot1_present,
            bot2_present,
            inside,
        ),
{
    let mut bids: Vec<(i32, i32)> = Vec::new();
    let mut asks: Vec<(i32, i32)> = Vec::new();
    if let Some(q) = inside {
        if q.is_bid {
            bids.push((q.price, q.volume));
        } else {
            asks.push((q.price, q.volume));
        }
    }
    if bot2_present {
        bids.push((inner_bid, bot2_volume));
        asks.push((inner_ask, bot2_volume));
    }
    if bot1_present {
        bids.push((outer_bid, bot1_volume));
        asks.push((outer_ask, bot1_volume));
    }
    let r = Book { bids, asks };
    proof {
        let (lb, la) = book_layout(
            inner_bid,
            inner_ask,
            outer_bid,
            outer_ask,
            bot1_volume,
            bot2_volume,
            bot1_present,
            bot2_present,
            inside,
        );
        assert(r.bids@ =~= lb);
        assert(r.asks@ =~= la);
    }
    r
}


/// The inside quote at `price` crosses the fair value: a bid above it, or an
/// ask below it. The fair value enters by its floor and ceiling, which
/// decide this exactly for an integer price: `price > fv` iff
/// `price > floor(fv)`, and `price < fv` iff `price < ceil(fv)`.
pub open spec fn inside_crossing(price: int, is_bid: bool, fv_floor: i32, fv_ceil: i32) -> bool {
    if is_bid {
        price > fv_floor
    } else {
        price < fv_ceil
    }
}

/// Price of the inside quote (bot 3), `delta` ticks from the rounded fair
/// value on either side, and whether it crosses the fair value (see
/// `inside_crossing`), which picks its volume range.
pub fn inside_quote_price(
    rounded_fv: i32,
    delta: i32,
    is_bid: bool,
    fv_floor: i32,
    fv_ceil: i32,
) -> (r: (i32, bool))
    requires
        i32::MIN <= rounded_fv + delta <= i32::MAX,
    ensures
        r.0 == rounded_fv + delta,
        r.1 == inside_crossing(rounded_fv + delta, is_bid, fv_floor, fv_ceil),
{
    let price = rounded_fv + delta;
    let crossing = if is_bid {
        price > fv_floor
    } else {
        price < fv_ceil
    };
    (price, crossing)
}


/// Law: the inside-quote bot posts on at most one side, in front of the
/// walls there. Each side shows, behind it, exactly the walls of the bots
/// present this tick: bot 2's in front of bot 1's, both bots on both sides.
pub proof fn law_inside_quote_one_side(
    inner_bid: i32,
    inner_ask: i32,
    outer_bid: i32,
    outer_ask: i32,
    bot1_volume: i32,
    bot2_volume: i32,
    bot1_present: bool,
    bot2_present: bool,
    inside: Option<InsideQuote>,
)
    ensures
        ({
            let (bids, asks) = book_layout(
                inner_bid,
                inner_ask,
                outer_bid,
                outer_ask,
                bot1_volume,
                bot2_volume,
                bot1_present,
                bot2_present,
                inside,
            );
            let walls = (if bot1_present {
                1int
            } else {
                0
            }) + (if bot2_present {
                1int
            } else {
                0
            });
            let inside_bid = inside matches Some(q) && q.is_bid;
            let inside_ask = inside matches Some(q) && !q.is_bid;
            &&& bids.len() == walls + (if inside_bid {
                1int
            } else {
                0
            })
            &&& asks.len() == walls + (if inside_ask {
                1int
            } else {
                0
            })
            &&& inside_bid ==> bids[0] == (inside->0.price, inside->0.volume)
            &&& inside_ask ==> asks[0] == (inside->0.price, inside->0.volume)
            &&& bot1_present ==> bids[bids.len() - 1] == (outer_bid, bot1_volume) && asks[asks.len()
                - 1] == (outer_ask, bot1_volume)
            &&& bot2_present ==> bids[bids.len() - walls] == (inner_bid, bot2_volume)
                && asks[asks.len() - walls] == (inner_ask, bot2_volume)
        }),
{
}

/// A drawn volume cut to `i32`: its low 32 bits.
pub open spec fn cut_to_i32(x: i64) -> i32 {
    x as i32
}

/// `v` is some value of `lo..=hi` cut to `i32`.
pub open spec fn volume_from(lo: i64, hi: i64, v: i32) -> bool {
    exists|x: i64| lo <= x <= hi && v == #[trigger] cut_to_i32(x)
}

/// A bot's volume: a uniform draw from `lo..=hi`, cut to `i32` as the
/// simulator stores volumes.
pub fn sample_bot_volume(lo: i64, hi: i64, rng: &mut ChaCha8Rng) -> (v: i32)
    requires
        lo <= hi,
    ensures
        volume_from(lo, hi, v),
{
    let x = gen_i64_inclusive(lo, hi, rng);
    let v = x as i32;
    assert(v == cut_to_i32(x));
    v
}

/// The inside quote's price stays within `i32` for this delta.
pub open spec fn inside_delta_fits(rounded_fv: i32, delta: i32) -> bool {
    i32::MIN <= rounded_fv + delta <= i32::MAX
}

/// A delta the inside quote can draw: one of the support, or zero when the
/// support is empty.
pub open spec fn inside_delta_candidate(support: Seq<i32>, delta: i32) -> bool {
    if support.len() == 0 {
        delta == 0
    } else {
        support.contains(delta)
    }
}

/// What the inside quote comes to for a drawn delta: `None` where the price
/// leaves `i32` or the volume range it picks is empty; otherwise the price
/// `rounded_fv + delta` and a volume drawn from the crossing range when the
/// price crosses the fair value (see `inside_crossing`), from the passive
/// range otherwise, cut to `i32`.
pub open spec fn inside_quote_outcome(
    rounded_fv: i32,
    fv_floor: i32,
    fv_ceil: i32,
    delta: i32,
    is_bid: bool,
    crossing: (i64, i64),
    passive: (i64, i64),
    r: Option<(i32, i32)>,
) -> bool {
    let price = rounded_fv + delta;
    let range = if inside_crossing(price, is_bid, fv_floor, fv_ceil) {
        crossing
    } else {
        passive
    };
    if !inside_delta_fits(rounded_fv, delta) || range.0 > range.1 {
        r is None
    } else {
        r matches Some(q) && q.0 == price && volume_from(range.0, range.1, q.1)
    }
}

/// The inside-quote bot's price and volume on one side: a delta drawn
/// uniformly from the support (zero when it is empty), the price
/// `rounded_fv + delta`, then a volume from the crossing range when that
/// price crosses the fair value, whose floor and ceiling are given, and from
/// the passive range otherwise (`(lo, hi)` pairs). `None` where the price
/// would leave `i32` or the range drawn from is empty.
pub fn sample_inside_quote(
    rounded_fv: i32,
    fv_floor: i32,
    fv_ceil: i32,
    support: &Vec<i32>,
    is_bid: bool,
    crossing: (i64, i64),
    passive: (i64, i64),
    rng: &mut ChaCha8Rng,
) -> (r: Option<(i32, i32)>)
    ensures
        exists|delta: i32|
            inside_delta_candidate(support@, delta) && inside_quote_outcome(
                rounded_fv,
                fv_floor,
                fv_ceil,
                delta,
                is_bid,
                crossing,
                passive,
                r,
            ),
{
    let delta = if support.len() == 0 {
        0
    } else {
        let k = gen_index_below(support.len(), rng);
        support[k]
    };
    proof {
        if support@.len() > 0 {
            assert(support@.contains(delta));
        }
    }
    let fits = (rounded_fv as i64) + (delta as i64) >= i32::MIN as i64 && (rounded_fv as i64) + (
    delta as i64) <= i32::MAX as i64;
    let r = if !fits {
        None
    } else {
        let (price, is_crossing) = inside_quote_price(rounded_fv, delta, is_bid, fv_floor, fv_ceil);
        let range = if is_crossing {
            crossing
        } else {
            passive
        };
        if range.0 > range.1 {
            None
        } else {
            let volume = sample_bot_volume(range.0, range.1, rng);
            Some((price, volume))
        }
    };
    assert(inside_delta_candidate(support@, delta) && inside_quote_outcome(
        rounded_fv,
        fv_floor,
        fv_ceil,
        delta,
        is_bid,
        crossing,
        passive,
        r,
    ));
    r
}

} // verus!
