//! The names of the bots' quote rules.

use vstd::prelude::*;

verus! {

/// How a bot derives a quote price from the fair value and its offset.
#[derive(Clone, Copy, Debug, PartialEq, Eq, Structural)]
pub enum QuoteRule {
    RoundMinusOffset,
    RoundPlusOffset,
    FloorMinusOffset,
    FloorPlusOffset,
    CeilMinusOffset,
    CeilPlusOffset,
    FloorOfFvPlusThreeQuartersMinusOffset,
    CeilOfFvPlusQuarterPlusOffset,
}

/// The rule a configuration names, if it names one.
pub open spec fn rule_named(name: Seq<char>) -> Option<QuoteRule> {
    if name == "round_fv_minus_offset"@ {
        Some(QuoteRule::RoundMinusOffset)
    } else if name == "round_fv_plus_offset"@ {
        Some(QuoteRule::RoundPlusOffset)
    } else if name == "floor_fv_minus_offset"@ {
        Some(QuoteRule::FloorMinusOffset)
    } else if name == "floor_fv_plus_offset"@ {
        Some(QuoteRule::FloorPlusOffset)
    } else if name == "ceil_fv_minus_offset"@ {
        Some(QuoteRule::CeilMinusOffset)
    } else if name == "ceil_fv_plus_offset"@ {
        Some(QuoteRule::CeilPlusOffset)
    } else if name == "floor_fv_plus_0_75_minus_offset"@ {
        Some(QuoteRule::FloorOfFvPlusThreeQuartersMinusOffset)
    } else if name == "ceil_fv_plus_0_25_plus_offset"@ {
        Some(QuoteRule::CeilOfFvPlusQuarterPlusOffset)
    } else {
        None
    }
}

fn named(rule: &str, lit: &str) -> (b: bool)
    ensures
        b == (rule@ == lit@),
{
    rule.to_owned() == lit.to_owned()
}

/// Reads a quote rule's name; `None` for a name no rule has.
pub fn parse_quote_rule(rule: &str) -> (r: Option<QuoteRule>)
    ensures
        r == rule_named(rule@),
{
    if named(rule, "round_fv_minus_offset") {
        Some(QuoteRule::RoundMinusOffset)
    } else if named(rule, "round_fv_plus_offset") {
        Some(QuoteRule::RoundPlusOffset)
    } else if named(rule, "floor_fv_minus_offset") {
        Some(QuoteRule::FloorMinusOffset)
    } else if named(rule, "floor_fv_plus_offset") {
        Some(QuoteRule::FloorPlusOffset)
    } else if named(rule, "ceil_fv_minus_offset") {
        Some(QuoteRule::CeilMinusOffset)
    } else if named(rule, "ceil_fv_plus_offset") {
        Some(QuoteRule::CeilPlusOffset)
    } else if named(rule, "floor_fv_plus_0_75_minus_offset") {
        Some(QuoteRule::FloorOfFvPlusThreeQuartersMinusOffset)
    } else if named(rule, "ceil_fv_plus_0_25_plus_offset") {
        Some(QuoteRule::CeilOfFvPlusQuarterPlusOffset)
    } else {
        None
    }
}

} // verus!
