use rust_simulator::replay::{
    replay_trade_counts, tomato_wall_quotes, worst_quotes, PriceLevels, ReplayError,
    DEFAULT_TICKS_PER_DAY,
};

fn trades(list: &[(&str, i32)]) -> Vec<(String, i32)> {
    list.iter().map(|(s, t)| (s.to_string(), *t)).collect()
}

#[test]
fn trades_are_counted_per_tick() {
    let t = trades(&[("A", 0), ("A", 150), ("B", 150), ("A", 199), ("A", -50), ("A", 999_999_999), ("A", 999_950)]);
    let counts = replay_trade_counts(&t, &"A".to_string()).unwrap();
    assert_eq!(counts.len(), DEFAULT_TICKS_PER_DAY);
    assert_eq!(counts[0], 2);
    assert_eq!(counts[1], 2);
    assert_eq!(counts[9999], 1);
    assert_eq!(counts.iter().sum::<usize>(), 5);
}

#[test]
fn trade_before_the_first_tick_is_an_error() {
    let t = trades(&[("A", 100), ("A", -100)]);
    assert_eq!(replay_trade_counts(&t, &"A".to_string()), Err(ReplayError::NegativeTimestamp));
    // another product's bad timestamp does not matter
    let counts = replay_trade_counts(&t, &"B".to_string()).unwrap();
    assert!(counts.iter().all(|c| *c == 0));
}

fn row(b: [Option<i32>; 3], a: [Option<i32>; 3]) -> PriceLevels {
    PriceLevels {
        bid_price_1: b[0],
        bid_price_2: b[1],
        bid_price_3: b[2],
        ask_price_1: a[0],
        ask_price_2: a[1],
        ask_price_3: a[2],
    }
}

#[test]
fn wall_quotes_of_a_plain_book() {
    let r = row([Some(4993), Some(4992), None], [Some(5007), Some(5008), None]);
    assert_eq!(tomato_wall_quotes(&r), Some((4993, 4992, 5007, 5008)));
}

#[test]
fn wall_quotes_skip_an_inside_quote() {
    let r = row([Some(4999), Some(4993), Some(4992)], [Some(5007), Some(5008), None]);
    assert_eq!(tomato_wall_quotes(&r), Some((4993, 4992, 5007, 5008)));
    let r = row([Some(4993), Some(4992), None], [Some(5001), Some(5007), Some(5008)]);
    assert_eq!(tomato_wall_quotes(&r), Some((4993, 4992, 5007, 5008)));
}

#[test]
fn wall_quotes_need_both_walls() {
    let r = row([Some(4993), None, None], [Some(5007), Some(5008), None]);
    assert_eq!(tomato_wall_quotes(&r), None);
    let r = row([Some(1), Some(2), Some(3)], [Some(4), Some(5), Some(6)]);
    assert_eq!(tomato_wall_quotes(&r), None);
}

#[test]
fn worst_quotes_pick_the_outermost_levels() {
    let r = row([Some(4999), Some(4993), Some(4992)], [Some(5007), Some(5008), None]);
    assert_eq!(worst_quotes(&r), (4992, 5008));
    let r = row([None, None, None], [Some(5001), None, None]);
    assert_eq!(worst_quotes(&r), (0, 5001));
}
