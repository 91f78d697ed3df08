use rand::SeedableRng;
use rand_chacha::ChaCha8Rng;
use rust_simulator::book::{
    assemble_book, book_to_sim_book, insert_level, inside_quote_price, owner_priority,
    sample_bot_volume, sample_inside_quote, sort_levels, Book, InsideQuote, Level, LevelOwner,
};

fn bot(price: i32, quantity: i32) -> Level {
    Level { price, quantity, owner: LevelOwner::Bot }
}

fn strat(price: i32, quantity: i32) -> Level {
    Level { price, quantity, owner: LevelOwner::Strategy }
}

#[test]
fn bot_levels_come_before_strategy_levels() {
    assert_eq!(owner_priority(LevelOwner::Bot), 0);
    assert_eq!(owner_priority(LevelOwner::Strategy), 1);
}

#[test]
fn insert_level_keeps_bids_best_first() {
    let mut bids = vec![bot(100, 5), bot(98, 7)];
    insert_level(&mut bids, strat(100, 3), true);
    assert_eq!(bids, vec![bot(100, 5), strat(100, 3), bot(98, 7)]);
    insert_level(&mut bids, strat(101, 2), true);
    assert_eq!(bids, vec![strat(101, 2), bot(100, 5), strat(100, 3), bot(98, 7)]);
    insert_level(&mut bids, strat(100, 4), true);
    assert_eq!(bids, vec![strat(101, 2), bot(100, 5), strat(100, 7), bot(98, 7)]);
}

#[test]
fn insert_level_keeps_asks_best_first() {
    let mut asks = vec![bot(105, 5), bot(108, 7)];
    insert_level(&mut asks, strat(104, 1), false);
    insert_level(&mut asks, strat(108, 2), false);
    insert_level(&mut asks, strat(106, 3), false);
    assert_eq!(asks, vec![strat(104, 1), bot(105, 5), strat(106, 3), bot(108, 7), strat(108, 2)]);
}

#[test]
fn insert_level_sorts_an_unsorted_side() {
    // an inside quote below the walls: the whole side is re-sorted, stably
    let mut bids = vec![bot(97, 4), bot(99, 10), bot(97, 6)];
    insert_level(&mut bids, strat(98, 1), true);
    assert_eq!(bids, vec![bot(99, 10), strat(98, 1), bot(97, 4), bot(97, 6)]);
}

#[test]
fn sort_levels_is_stable() {
    let mut asks = vec![bot(10, 1), strat(9, 2), bot(10, 3), bot(9, 4)];
    sort_levels(&mut asks, false);
    assert_eq!(asks, vec![bot(9, 4), strat(9, 2), bot(10, 1), bot(10, 3)]);
}

#[test]
fn sim_book_holds_bot_levels() {
    let book = Book { bids: vec![(99, 10), (97, 20)], asks: vec![(101, 10)] };
    let sim = book_to_sim_book(&book);
    assert_eq!(sim.bids, vec![bot(99, 10), bot(97, 20)]);
    assert_eq!(sim.asks, vec![bot(101, 10)]);
}

#[test]
fn book_layout_without_inside_quote() {
    let b = assemble_book(9992, 10008, 9990, 10010, 25, 12, true, true, None);
    assert_eq!(b.bids, vec![(9992, 12), (9990, 25)]);
    assert_eq!(b.asks, vec![(10008, 12), (10010, 25)]);
}

#[test]
fn book_layout_with_inside_bid_and_ask() {
    let q = InsideQuote { is_bid: true, price: 10001, volume: 7 };
    let b = assemble_book(9992, 10008, 9990, 10010, 25, 12, true, true, Some(q));
    assert_eq!(b.bids, vec![(10001, 7), (9992, 12), (9990, 25)]);
    assert_eq!(b.asks, vec![(10008, 12), (10010, 25)]);
    let q = InsideQuote { is_bid: false, price: 9999, volume: 3 };
    let b = assemble_book(9992, 10008, 9990, 10010, 25, 12, true, true, Some(q));
    assert_eq!(b.bids, vec![(9992, 12), (9990, 25)]);
    assert_eq!(b.asks, vec![(9999, 3), (10008, 12), (10010, 25)]);
}

#[test]
fn absent_bots_leave_their_walls_out() {
    let b = assemble_book(9992, 10008, 9990, 10010, 25, 12, true, false, None);
    assert_eq!(b.bids, vec![(9990, 25)]);
    assert_eq!(b.asks, vec![(10010, 25)]);
    let b = assemble_book(9992, 10008, 9990, 10010, 25, 12, false, true, None);
    assert_eq!(b.bids, vec![(9992, 12)]);
    assert_eq!(b.asks, vec![(10008, 12)]);
    let q = InsideQuote { is_bid: false, price: 9999, volume: 3 };
    let b = assemble_book(9992, 10008, 9990, 10010, 25, 12, false, false, Some(q));
    assert!(b.bids.is_empty());
    assert_eq!(b.asks, vec![(9999, 3)]);
}

#[test]
fn inside_quote_price_and_crossing() {
    // Integer fair value 10000: floor and ceiling are both 10000.
    assert_eq!(inside_quote_price(10000, 2, true, 10000, 10000), (10002, true));
    assert_eq!(inside_quote_price(10000, -3, true, 10000, 10000), (9997, false));
    assert_eq!(inside_quote_price(10000, 2, false, 10000, 10000), (10002, false));
    assert_eq!(inside_quote_price(10000, -3, false, 10000, 10000), (9997, true));
    assert_eq!(inside_quote_price(10000, 0, false, 10000, 10000), (10000, false));
    assert_eq!(inside_quote_price(10000, 0, true, 10000, 10000), (10000, false));
}

#[test]
fn inside_quote_crossing_uses_the_unrounded_fair_value() {
    // Fair value 9999.6 rounds to 10000: a bid at 10000 is above it, an ask
    // at 10000 is not below it.
    assert_eq!(inside_quote_price(10000, 0, true, 9999, 10000), (10000, true));
    assert_eq!(inside_quote_price(10000, 0, false, 9999, 10000), (10000, false));
    // Fair value 10000.4 rounds to 10000: an ask at 10000 is below it.
    assert_eq!(inside_quote_price(10000, 0, false, 10000, 10001), (10000, true));
    assert_eq!(inside_quote_price(10000, 0, true, 10000, 10001), (10000, false));
}

#[test]
fn bot_volume_stays_in_range() {
    let mut rng = ChaCha8Rng::seed_from_u64(11);
    for _ in 0..200 {
        let v = sample_bot_volume(20, 30, &mut rng);
        assert!((20..=30).contains(&v));
    }
    assert_eq!(sample_bot_volume(15, 15, &mut rng), 15);
}

#[test]
fn bot_volume_is_cut_to_i32() {
    let mut rng = ChaCha8Rng::seed_from_u64(2);
    assert_eq!(sample_bot_volume(1i64 << 32, 1i64 << 32, &mut rng), 0);
    assert_eq!(sample_bot_volume((1i64 << 32) + 7, (1i64 << 32) + 7, &mut rng), 7);
}

#[test]
fn inside_quote_bid_with_positive_delta_is_crossing() {
    let mut rng = ChaCha8Rng::seed_from_u64(5);
    let q = sample_inside_quote(10_000, 10_000, 10_000, &vec![2], true, (5, 5), (1, 1), &mut rng);
    assert_eq!(q, Some((10_002, 5)));
}

#[test]
fn inside_quote_ask_with_positive_delta_is_passive() {
    let mut rng = ChaCha8Rng::seed_from_u64(5);
    let q = sample_inside_quote(10_000, 10_000, 10_000, &vec![2], false, (5, 5), (1, 1), &mut rng);
    assert_eq!(q, Some((10_002, 1)));
}

#[test]
fn inside_quote_ask_below_fair_value_is_crossing() {
    // Fair value 100.0, delta -1, ask: price 99 lies below it.
    let mut rng = ChaCha8Rng::seed_from_u64(5);
    let q = sample_inside_quote(100, 100, 100, &vec![-1], false, (7, 7), (3, 3), &mut rng);
    assert_eq!(q, Some((99, 7)));
}

#[test]
fn inside_quote_without_support_sits_on_fair_value() {
    let mut rng = ChaCha8Rng::seed_from_u64(9);
    let q = sample_inside_quote(5_000, 5_000, 5_000, &Vec::new(), true, (8, 8), (4, 4), &mut rng);
    assert_eq!(q, Some((5_000, 4)));
}

#[test]
fn inside_quote_draws_a_delta_of_the_support() {
    let mut rng = ChaCha8Rng::seed_from_u64(21);
    for _ in 0..100 {
        let (price, volume) =
            sample_inside_quote(1_000, 1_000, 1_000, &vec![-1, 0, 1], true, (10, 12), (1, 3), &mut rng)
                .unwrap();
        assert!((999..=1_001).contains(&price));
        if price == 1_001 {
            assert!((10..=12).contains(&volume));
        } else {
            assert!((1..=3).contains(&volume));
        }
    }
}

#[test]
fn inside_quote_refuses_overflow_and_empty_ranges() {
    let mut rng = ChaCha8Rng::seed_from_u64(1);
    let max = i32::MAX;
    assert_eq!(sample_inside_quote(max, max, max, &vec![1], true, (1, 1), (1, 1), &mut rng), None);
    let min = i32::MIN;
    assert_eq!(sample_inside_quote(min, min, min, &vec![-1], false, (1, 1), (1, 1), &mut rng), None);
    assert_eq!(sample_inside_quote(0, 0, 0, &vec![1], true, (3, 2), (1, 1), &mut rng), None);
}
