use rand::SeedableRng;
use rand_chacha::ChaCha8Rng;
use rust_simulator::book::{Book, Level, LevelOwner, SimBook};
use rust_simulator::limits::enforce_strategy_limits;
use rust_simulator::matching::{execute_strategy_orders, Order, Party, ProductLedger};
use rust_simulator::taker::{
    execute_taker_fill, execute_taker_trade, sample_trade_quantity_by_side,
    sample_trade_rows_on_side, walk_quotes,
};

fn bot(price: i32, quantity: i32) -> Level {
    Level { price, quantity, owner: LevelOwner::Bot }
}

fn strat(price: i32, quantity: i32) -> Level {
    Level { price, quantity, owner: LevelOwner::Strategy }
}

#[test]
fn market_buy_takes_strategy_ask_then_bot_ask() {
    let mut book = SimBook { bids: vec![bot(99, 4)], asks: vec![strat(10009, 5), bot(10010, 20)] };
    let mut ledger = ProductLedger { position: 10, cash: -100_000 };
    let fills = execute_taker_fill("EMERALDS", 700, &mut book, &mut ledger, true, 8);
    let got: Vec<_> = fills.iter().map(|f| (f.price, f.quantity, f.buyer, f.seller)).collect();
    assert_eq!(
        got,
        vec![(10009, 5, Party::BotTaker, Party::Submission), (10010, 3, Party::BotTaker, Party::BotMaker)]
    );
    assert_eq!(ledger.position, 5);
    assert_eq!(ledger.cash, -100_000 + 10009 * 5);
    assert_eq!(book.asks, vec![bot(10010, 17)]);
    assert_eq!(book.bids, vec![bot(99, 4)]);
    assert!(fills.iter().all(|f| f.symbol == "EMERALDS" && f.timestamp == 700));
}

#[test]
fn market_sell_takes_strategy_bid() {
    let mut book = SimBook { bids: vec![bot(100, 2), strat(100, 6)], asks: vec![] };
    let mut ledger = ProductLedger::default();
    let fills = execute_taker_fill("X", 0, &mut book, &mut ledger, false, 5);
    let got: Vec<_> = fills.iter().map(|f| (f.price, f.quantity, f.buyer, f.seller)).collect();
    assert_eq!(
        got,
        vec![(100, 2, Party::BotMaker, Party::BotTaker), (100, 3, Party::Submission, Party::BotTaker)]
    );
    assert_eq!(ledger.position, 3);
    assert_eq!(ledger.cash, -300);
    assert_eq!(book.bids, vec![strat(100, 3)]);
}

#[test]
fn empty_front_level_is_removed_and_ends_the_order() {
    let mut book = SimBook { bids: vec![], asks: vec![bot(10, 0), bot(11, 5)] };
    let mut ledger = ProductLedger::default();
    let fills = execute_taker_fill("X", 0, &mut book, &mut ledger, true, 3);
    assert!(fills.is_empty());
    assert_eq!(book.asks, vec![bot(11, 5)]);
}

#[test]
fn taker_order_larger_than_the_side_empties_it() {
    let mut book = SimBook { bids: vec![bot(9, 2), bot(8, 1)], asks: vec![] };
    let mut ledger = ProductLedger::default();
    let fills = execute_taker_fill("X", 0, &mut book, &mut ledger, false, 10);
    assert_eq!(fills.iter().map(|f| f.quantity).sum::<i32>(), 3);
    assert!(book.bids.is_empty());
}

#[test]
fn drawn_quantities_come_from_the_table() {
    let mut rng = ChaCha8Rng::seed_from_u64(7);
    for _ in 0..200 {
        let q = sample_trade_quantity_by_side("EMERALDS", true, 100, &mut rng);
        assert!((3..=8).contains(&q), "q={}", q);
        let q = sample_trade_quantity_by_side("TOMATOES", false, 100, &mut rng);
        assert!((2..=5).contains(&q), "q={}", q);
        let q = sample_trade_quantity_by_side("TOMATOES", true, 4, &mut rng);
        assert!((2..=4).contains(&q), "q={}", q);
    }
}

#[test]
fn drawn_quantity_falls_back_to_the_side() {
    let mut rng = ChaCha8Rng::seed_from_u64(1);
    assert_eq!(sample_trade_quantity_by_side("EMERALDS", false, 2, &mut rng), 2);
    assert_eq!(sample_trade_quantity_by_side("TOMATOES", true, 1, &mut rng), 1);
    assert_eq!(sample_trade_quantity_by_side("OTHER", true, 0, &mut rng), 1);
    assert_eq!(sample_trade_quantity_by_side("OTHER", true, 9, &mut rng), 1);
}

#[test]
fn drawn_quantity_uses_every_eligible_value() {
    let mut rng = ChaCha8Rng::seed_from_u64(3);
    let mut seen = [false; 9];
    for _ in 0..2000 {
        let q = sample_trade_quantity_by_side("EMERALDS", true, 6, &mut rng);
        seen[q as usize] = true;
    }
    assert_eq!(seen, [false, false, false, true, true, true, true, false, false]);
}

#[test]
fn taker_trade_on_empty_side_does_nothing() {
    let mut rng = ChaCha8Rng::seed_from_u64(1);
    let mut book = SimBook { bids: vec![bot(9, 3)], asks: vec![] };
    let mut ledger = ProductLedger::default();
    let fills = execute_taker_trade("EMERALDS", 0, &mut book, &mut ledger, true, &mut rng);
    assert!(fills.is_empty());
    assert_eq!(book.bids, vec![bot(9, 3)]);
}

#[test]
fn taker_trade_takes_a_table_quantity() {
    let mut rng = ChaCha8Rng::seed_from_u64(11);
    let mut book = SimBook { bids: vec![], asks: vec![bot(10008, 10), bot(10010, 20)] };
    let mut ledger = ProductLedger::default();
    let fills = execute_taker_trade("EMERALDS", 0, &mut book, &mut ledger, true, &mut rng);
    let taken: i32 = fills.iter().map(|f| f.quantity).sum();
    assert!((3..=8).contains(&taken), "taken={}", taken);
    assert_eq!(book.asks[0], bot(10008, 10 - taken));
    assert_eq!(ledger, ProductLedger::default());
}

#[test]
fn printed_trade_rows_walk_the_quotes() {
    let mut rng = ChaCha8Rng::seed_from_u64(5);
    let book = Book { bids: vec![(9998, 2), (9996, 20)], asks: vec![(10002, 1), (10004, 30)] };
    for _ in 0..50 {
        let rows = sample_trade_rows_on_side("TOMATOES", &book, false, &mut rng);
        let total: i32 = rows.iter().map(|r| r.1).sum();
        assert!((2..=5).contains(&total), "total={}", total);
        assert_eq!(rows[0], (9998, 2));
        if total > 2 {
            assert_eq!(rows[1], (9996, total - 2));
        }
    }
    let empty = Book { bids: vec![], asks: vec![] };
    assert!(sample_trade_rows_on_side("TOMATOES", &empty, true, &mut rng).is_empty());
}

#[test]
fn position_stays_within_the_limit_through_a_tick() {
    let mut book = SimBook {
        bids: vec![bot(9992, 10), bot(9990, 20)],
        asks: vec![bot(10008, 10), bot(10010, 20)],
    };
    let mut ledger = ProductLedger { position: 70, cash: 0 };
    let orders = vec![Order { price: 9995, quantity: 10 }];
    let accepted = enforce_strategy_limits(&orders, Some(ledger.position), Some(80));
    assert_eq!(accepted, orders);
    execute_strategy_orders("X", 0, &mut book, &mut ledger, &accepted);
    assert_eq!(ledger.position, 70);
    let mut rng = ChaCha8Rng::seed_from_u64(2);
    for _ in 0..10 {
        execute_taker_trade("X", 0, &mut book, &mut ledger, false, &mut rng);
        assert!(ledger.position <= 80);
    }
    assert_eq!(ledger.position, 80);
    let more = vec![Order { price: 9995, quantity: 1 }];
    assert!(enforce_strategy_limits(&more, Some(ledger.position), Some(80)).is_empty());
}

#[test]
fn walking_quotes_takes_each_level_in_turn() {
    let quotes = vec![(10, 3), (11, 0), (12, 4), (13, 9)];
    assert_eq!(walk_quotes(&quotes, 5), vec![(10, 3), (11, 0), (12, 2)]);
    assert_eq!(walk_quotes(&quotes, 3), vec![(10, 3)]);
    assert_eq!(walk_quotes(&quotes, 100), vec![(10, 3), (11, 0), (12, 4), (13, 9)]);
    assert!(walk_quotes(&quotes, 0).is_empty());
}

#[test]
fn taker_trade_on_empty_side_draws_nothing() {
    let mut rng = ChaCha8Rng::seed_from_u64(4);
    let before = rng.clone();
    let mut book = SimBook { bids: vec![bot(99, 5)], asks: vec![] };
    let mut ledger = ProductLedger { position: 4, cash: 10 };
    let fills = execute_taker_trade("EMERALDS", 0, &mut book, &mut ledger, true, &mut rng);
    assert!(fills.is_empty());
    assert_eq!(book.bids, vec![bot(99, 5)]);
    assert_eq!(ledger, ProductLedger { position: 4, cash: 10 });
    assert!(rng == before);
}

#[test]
fn trade_rows_on_empty_side_draw_nothing() {
    let mut rng = ChaCha8Rng::seed_from_u64(4);
    let before = rng.clone();
    let book = Book { bids: vec![(99, 5)], asks: vec![] };
    assert!(sample_trade_rows_on_side("EMERALDS", &book, true, &mut rng).is_empty());
    assert!(rng == before);
}

#[test]
fn position_stays_within_limit_across_a_tick() {
    let limit = 80;
    let mut rng = ChaCha8Rng::seed_from_u64(17);
    let mut ledger = ProductLedger { position: 76, cash: 0 };
    for round in 0..50 {
        let mut book = SimBook {
            bids: vec![bot(9_998, 30), bot(9_990, 30)],
            asks: vec![bot(10_002, 30), bot(10_010, 30)],
        };
        let orders = if round % 2 == 0 {
            vec![Order { price: 10_002, quantity: 3 }, Order { price: 9_995, quantity: 1 }]
        } else {
            vec![Order { price: 10_001, quantity: -6 }, Order { price: 9_998, quantity: -2 }]
        };
        let accepted = enforce_strategy_limits(&orders, Some(ledger.position), Some(limit));
        execute_strategy_orders("EMERALDS", 0, &mut book, &mut ledger, &accepted);
        assert!(ledger.position.abs() <= limit);
        for side in [true, false, true] {
            execute_taker_trade("EMERALDS", 0, &mut book, &mut ledger, side, &mut rng);
            assert!(ledger.position.abs() <= limit, "position={}", ledger.position);
        }
    }
}
