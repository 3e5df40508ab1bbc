//! The counter-delta model: what a counter has gained between two samples,
//! and the rate that this makes per second.

use vstd::prelude::*;

verus! {

/// `a - b`, and 0 where `b` is the larger: for counters that may fall back.
pub open spec fn minus(a: u64, b: u64) -> u64 {
    if a >= b {
        (a - b) as u64
    } else {
        0
    }
}

/// What a counter of 64 bits has gained from `prev` to `cur`, where it may
/// have passed its end and begun again at 0.
pub open spec fn wrap_sub(cur: u64, prev: u64) -> u64 {
    if cur >= prev {
        (cur - prev) as u64
    } else {
        (cur + 0x1_0000_0000_0000_0000 - prev) as u64
    }
}

/// A gain of `delta` in `ms` milliseconds as a gain per second, rounded
/// down, and at most what 64 bits hold.
pub open spec fn per_second(delta: u64, ms: u64) -> u64 {
    let r = 1000 * delta / (ms as int);
    if r > u64::MAX {
        u64::MAX
    } else {
        r as u64
    }
}

/// `a - b`, and 0 where `b` is the larger.
pub fn minus_of(a: u64, b: u64) -> (r: u64)
    ensures
        r == minus(a, b),
{
    if a >= b {
        a - b
    } else {
        0
    }
}

/// What a counter of 64 bits has gained from `prev` to `cur`.
pub fn gain(cur: u64, prev: u64) -> (r: u64)
    ensures
        r == wrap_sub(cur, prev),
{
    if cur >= prev {
        cur - prev
    } else {
        (u64::MAX - prev) + cur + 1
    }
}

/// A gain of `delta` in `ms` milliseconds as a gain per second.
pub fn rate(delta: u64, ms: u64) -> (r: u64)
    requires
        ms > 0,
    ensures
        r == per_second(delta, ms),
{
    let r = 1000 * (delta as u128) / (ms as u128);
    if r > u64::MAX as u128 {
        u64::MAX
    } else {
        r as u64
    }
}

/// The rate is a thousand times the gain, divided by the milliseconds that
/// it took, wherever that fits 64 bits.
pub proof fn lemma_rate(delta: u64, ms: u64)
    requires
        ms > 0,
        1000 * delta / (ms as int) <= u64::MAX,
    ensures
        per_second(delta, ms) == 1000 * delta / (ms as int),
{
}

/// A gain of under one thousandth of what 64 bits hold always has its exact
/// rate.
pub proof fn lemma_rate_fits(delta: u64, ms: u64)
    requires
        ms > 0,
        delta <= u64::MAX / 1000,
    ensures
        per_second(delta, ms) == 1000 * delta / (ms as int),
{
    assert(1000 * delta / (ms as int) <= 1000 * delta) by (nonlinear_arith)
        requires
            ms > 0,
            delta >= 0,
    ;
}

} // verus!
