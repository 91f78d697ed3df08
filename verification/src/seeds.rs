//! Deterministic seed derivation for simulated days and sessions.

use vstd::prelude::*;

verus! {

/// The two historical days that simulated sessions cycle through.
pub const DAYS: [i32; 2] = [-2, -1];

/// Multiplier that spreads the day index over the seed space.
pub const DAY_MULTIPLIER: u64 = 0x9E37_79B9_7F4A_7C15;

/// Finaliser multiplier of the mixing step.
pub const MIX_MULTIPLIER: u64 = 0xFF51_AFD7_ED55_8CCD;

/// Multiplier that spreads the session index over the seed space.
pub const SESSION_MULTIPLIER: u64 = 0xA24B_AED4_963E_E407;

/// The product of two words modulo 2^64.
pub open spec fn mul_mod(x: u64, y: u64) -> u64 {
    ((x as nat * y as nat) % 0x1_0000_0000_0000_0000nat) as u64
}

/// The day's index as a 64-bit word: sign-extended to 64 bits, then read unsigned.
pub open spec fn day_word(day: i32) -> u64 {
    if day >= 0 {
        day as u64
    } else {
        (day + 0x1_0000_0000_0000_0000int) as u64
    }
}

/// Seed of a simulated day: the base seed xor-ed with the spread day index,
/// then passed through two xor-shift steps around one multiplication.
pub open spec fn day_seed(seed: u64, day: i32) -> u64 {
    let v0 = seed ^ mul_mod(day_word(day), DAY_MULTIPLIER);
    let v1 = v0 ^ (v0 >> 33u64);
    let v2 = mul_mod(v1, MIX_MULTIPLIER);
    v2 ^ (v2 >> 33u64)
}

/// Seed of one day of one session: the session index is spread and folded
/// into the base seed before the day is mixed in.
pub open spec fn session_day_seed(seed: u64, session_id: usize, day: i32) -> u64 {
    day_seed(seed ^ mul_mod(session_id as u64, SESSION_MULTIPLIER), day)
}

/// Derives the random seed of a simulated day from the run's base seed.
pub fn seed_for_day(seed: u64, day: i32) -> (r: u64)
    ensures
        r == day_seed(seed, day),
{
    let word: u64 = (day as i64) as u64;
    assert(word == day_word(day)) by (bit_vector)
        requires
            word == (day as i64) as u64,
    ;
    let mut value: u64 = seed ^ word.wrapping_mul(DAY_MULTIPLIER);
    value = value ^ (value >> 33u64);
    value = value.wrapping_mul(MIX_MULTIPLIER);
    value = value ^ (value >> 33u64);
    value
}

/// Derives the random seed of one day of one Monte Carlo session.
pub fn seed_for_session_day(seed: u64, session_id: usize, day: i32) -> (r: u64)
    ensures
        r == session_day_seed(seed, session_id, day),
{
    seed_for_day(seed ^ (session_id as u64).wrapping_mul(SESSION_MULTIPLIER), day)
}

/// The historical day that a Monte Carlo session replays: sessions cycle
/// through `DAYS` in order.
pub fn monte_carlo_session_day(session_id: usize) -> (day: i32)
    ensures
        day == (if session_id % 2 == 0 { -2i32 } else { -1i32 }),
{
    DAYS[session_id % 2]
}


/// Offset that moves the adversarial draws away from the nominal seed.
pub const ADVERSARIAL_OFFSET: u64 = 0xD4_0000_0000;

/// The sum of two words modulo 2^64.
pub open spec fn add_mod(x: u64, y: u64) -> u64 {
    ((x as nat + y as nat) % 0x1_0000_0000_0000_0000nat) as u64
}

/// Seed of the generator that draws a session's adversarial parameter sets.
pub open spec fn adversarial_params_seed(seed: u64, session_id: usize, day: i32) -> u64 {
    add_mod(session_day_seed(seed, session_id, day), ADVERSARIAL_OFFSET)
}

/// Seed of the day simulated with the adversarial parameter set `index`
/// (counted from zero): one past the index above the parameters' seed.
pub open spec fn adversarial_run_seed(seed: u64, session_id: usize, day: i32, index: usize) -> u64 {
    add_mod(adversarial_params_seed(seed, session_id, day), (index + 1) as u64)
}

/// Derives the seed that draws a session's adversarial parameter sets.
pub fn seed_for_adversarial_params(seed: u64, session_id: usize, day: i32) -> (r: u64)
    ensures
        r == adversarial_params_seed(seed, session_id, day),
{
    seed_for_session_day(seed, session_id, day).wrapping_add(ADVERSARIAL_OFFSET)
}

/// Derives the seed of the day simulated with one adversarial parameter set.
pub fn seed_for_adversarial_run(seed: u64, session_id: usize, day: i32, index: usize) -> (r: u64)
    requires
        (index as u64) < u64::MAX,
    ensures
        r == adversarial_run_seed(seed, session_id, day, index),
{
    seed_for_adversarial_params(seed, session_id, day).wrapping_add(index as u64 + 1)
}

} // verus!
