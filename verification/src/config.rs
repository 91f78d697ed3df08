//! The run-wide settings of a simulation configuration.

use vstd::prelude::*;

verus! {

/// The `[meta]` table of a configuration: the round it describes, the
/// ticks in a day, and the position limit shared by its products.
#[derive(Clone, Copy, Debug, PartialEq, Eq, Structural)]
pub struct Meta {
    pub round: u32,
    pub ticks_per_day: usize,
    pub shared_position_limit: i32,
}

} // verus!
