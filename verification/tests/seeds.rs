use rust_simulator::seeds::{
    monte_carlo_session_day, seed_for_adversarial_params, seed_for_adversarial_run, seed_for_day,
    seed_for_session_day,
};

#[test]
fn day_seed_matches_known_values() {
    assert_eq!(seed_for_day(20_260_401, -2), 6295212052338953452);
    assert_eq!(seed_for_day(20_260_401, -1), 1162124500580071532);
    assert_eq!(seed_for_day(0, 0), 0);
    assert_eq!(seed_for_day(42, 7), 15629306128988732286);
}

#[test]
fn session_day_seed_matches_known_values() {
    assert_eq!(seed_for_session_day(42, 0, -2), 4343419101448892326);
    assert_eq!(seed_for_session_day(42, 3, -1), 12929089505783989190);
    assert_eq!(seed_for_session_day(20_260_401, 5, -1), 17745370384316652505);
}

#[test]
fn session_zero_uses_the_plain_day_seed() {
    assert_eq!(seed_for_session_day(99, 0, -1), seed_for_day(99, -1));
}

#[test]
fn sessions_alternate_between_the_two_days() {
    assert_eq!(monte_carlo_session_day(0), -2);
    assert_eq!(monte_carlo_session_day(1), -1);
    assert_eq!(monte_carlo_session_day(2), -2);
    assert_eq!(monte_carlo_session_day(7), -1);
}


#[test]
fn adversarial_seeds_follow_the_session_seed() {
    assert_eq!(seed_for_adversarial_params(42, 0, -2), 4343420011981959078);
    assert_eq!(seed_for_adversarial_run(42, 0, -2, 0), 4343420011981959079);
    assert_eq!(seed_for_adversarial_run(42, 0, -2, 2), 4343420011981959081);
    assert_eq!(seed_for_adversarial_params(42, 3, -1), 12929090416317055942);
}
