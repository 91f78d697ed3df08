use rust_simulator::quotes::{parse_quote_rule, QuoteRule};

#[test]
fn known_rule_names_are_read() {
    assert_eq!(parse_quote_rule("round_fv_minus_offset"), Some(QuoteRule::RoundMinusOffset));
    assert_eq!(parse_quote_rule("round_fv_plus_offset"), Some(QuoteRule::RoundPlusOffset));
    assert_eq!(parse_quote_rule("floor_fv_minus_offset"), Some(QuoteRule::FloorMinusOffset));
    assert_eq!(parse_quote_rule("floor_fv_plus_offset"), Some(QuoteRule::FloorPlusOffset));
    assert_eq!(parse_quote_rule("ceil_fv_minus_offset"), Some(QuoteRule::CeilMinusOffset));
    assert_eq!(parse_quote_rule("ceil_fv_plus_offset"), Some(QuoteRule::CeilPlusOffset));
    assert_eq!(
        parse_quote_rule("floor_fv_plus_0_75_minus_offset"),
        Some(QuoteRule::FloorOfFvPlusThreeQuartersMinusOffset)
    );
    assert_eq!(
        parse_quote_rule("ceil_fv_plus_0_25_plus_offset"),
        Some(QuoteRule::CeilOfFvPlusQuarterPlusOffset)
    );
}

#[test]
fn unknown_rule_returns_none() {
    assert_eq!(parse_quote_rule("nonsense_rule"), None);
    assert_eq!(parse_quote_rule(""), None);
    assert_eq!(parse_quote_rule("ROUND_FV_MINUS_OFFSET"), None);
}
