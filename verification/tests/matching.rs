use rust_simulator::book::{Level, LevelOwner, SimBook};
use rust_simulator::limits::{enforce_strategy_limits, DEFAULT_POSITION_LIMIT};
use rust_simulator::matching::{
    execute_strategy_orders, fill_involves_strategy, Fill, Order, Party, ProductLedger,
};

fn bot(price: i32, quantity: i32) -> Level {
    Level { price, quantity, owner: LevelOwner::Bot }
}

fn strat(price: i32, quantity: i32) -> Level {
    Level { price, quantity, owner: LevelOwner::Strategy }
}

fn order(price: i32, quantity: i32) -> Order {
    Order { price, quantity }
}

fn walls() -> SimBook {
    SimBook {
        bids: vec![bot(9992, 10), bot(9990, 20)],
        asks: vec![bot(10008, 10), bot(10010, 20)],
    }
}

fn summary(fills: &[Fill]) -> Vec<(i32, i32, Party, Party)> {
    fills.iter().map(|f| (f.price, f.quantity, f.buyer, f.seller)).collect()
}

#[test]
fn buy_takes_asks_up_to_limit_and_rests_the_rest() {
    let mut book = walls();
    let mut ledger = ProductLedger::default();
    let fills = execute_strategy_orders("EMERALDS", 300, &mut book, &mut ledger, &vec![order(10009, 15)]);
    assert_eq!(summary(&fills), vec![(10008, 10, Party::Submission, Party::Bot)]);
    assert!(fills.iter().all(|f| f.symbol == "EMERALDS" && f.timestamp == 300));
    assert_eq!(ledger.position, 10);
    assert_eq!(ledger.cash, -100_080);
    assert_eq!(book.asks, vec![bot(10010, 20)]);
    assert_eq!(book.bids, vec![strat(10009, 5), bot(9992, 10), bot(9990, 20)]);
}

#[test]
fn sell_sweeps_several_bid_levels() {
    let mut book = walls();
    let mut ledger = ProductLedger { position: 3, cash: 1_000 };
    let fills = execute_strategy_orders("X", 0, &mut book, &mut ledger, &vec![order(9990, -25)]);
    assert_eq!(
        summary(&fills),
        vec![(9992, 10, Party::Bot, Party::Submission), (9990, 15, Party::Bot, Party::Submission)]
    );
    assert_eq!(ledger.position, 3 - 25);
    assert_eq!(ledger.cash, 1_000 + 9992 * 10 + 9990 * 15);
    assert_eq!(book.bids, vec![bot(9990, 5)]);
    assert_eq!(book.asks, vec![bot(10008, 10), bot(10010, 20)]);
}

#[test]
fn passive_orders_at_one_price_merge() {
    let mut book = walls();
    let mut ledger = ProductLedger::default();
    let orders = vec![order(10000, 2), order(10001, -4), order(10000, 3), order(10002, -1)];
    let fills = execute_strategy_orders("X", 0, &mut book, &mut ledger, &orders);
    assert!(fills.is_empty());
    assert_eq!(ledger, ProductLedger::default());
    assert_eq!(book.bids, vec![strat(10000, 5), bot(9992, 10), bot(9990, 20)]);
    assert_eq!(book.asks, vec![strat(10001, 4), strat(10002, 1), bot(10008, 10), bot(10010, 20)]);
}

#[test]
fn strategy_does_not_trade_with_its_own_levels() {
    let mut book = SimBook { bids: vec![], asks: vec![strat(100, 5), bot(101, 5)] };
    let mut ledger = ProductLedger::default();
    let fills = execute_strategy_orders("X", 0, &mut book, &mut ledger, &vec![order(105, 3)]);
    assert!(fills.is_empty());
    assert_eq!(book.asks, vec![strat(100, 5), bot(101, 5)]);
    assert_eq!(book.bids, vec![strat(105, 3)]);
}

#[test]
fn zero_quantity_orders_do_nothing() {
    let mut book = walls();
    let mut ledger = ProductLedger::default();
    let fills = execute_strategy_orders("X", 0, &mut book, &mut ledger, &vec![order(10010, 0)]);
    assert!(fills.is_empty());
    assert_eq!(book.asks, walls().asks);
    assert_eq!(book.bids, walls().bids);
}

#[test]
fn orders_within_the_limit_are_all_accepted() {
    let orders = vec![order(10, 30), order(11, -50), order(9, 20)];
    assert_eq!(enforce_strategy_limits(&orders, Some(30), Some(80)), orders);
    assert_eq!(enforce_strategy_limits(&orders, Some(-30), Some(80)), orders);
}

#[test]
fn orders_past_the_limit_are_all_rejected() {
    let orders = vec![order(10, 30), order(11, -50), order(9, 20)];
    // 31 + 50 bought would pass 80
    assert!(enforce_strategy_limits(&orders, Some(31), Some(80)).is_empty());
    // -31 - 50 sold would pass -80
    assert!(enforce_strategy_limits(&orders, Some(-31), Some(80)).is_empty());
}

#[test]
fn missing_ledger_and_limit_use_the_defaults() {
    assert_eq!(DEFAULT_POSITION_LIMIT, 80);
    let orders = vec![order(10, 80)];
    assert_eq!(enforce_strategy_limits(&orders, None, None), orders);
    let orders = vec![order(10, 81)];
    assert!(enforce_strategy_limits(&orders, None, None).is_empty());
    assert!(enforce_strategy_limits(&vec![order(1, 5)], None, Some(4)).is_empty());
}

#[test]
fn fill_involves_strategy_when_either_side_is_the_submission() {
    let f = |buyer, seller| Fill {
        symbol: "X".to_string(),
        price: 1,
        quantity: 1,
        buyer,
        seller,
        timestamp: 0,
    };
    assert!(fill_involves_strategy(&f(Party::Submission, Party::Bot)));
    assert!(fill_involves_strategy(&f(Party::BotTaker, Party::Submission)));
    assert!(!fill_involves_strategy(&f(Party::BotTaker, Party::BotMaker)));
}

#[test]
fn parties_have_their_record_names() {
    assert_eq!(Party::Submission.record_name(), "SUBMISSION");
    assert_eq!(Party::Bot.record_name(), "BOT");
    assert_eq!(Party::BotTaker.record_name(), "BOT_TAKER");
    assert_eq!(Party::BotMaker.record_name(), "BOT_MAKER");
}
