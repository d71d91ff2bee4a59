//! Seed and pseudo-random steps for the jittered pointer path used when a
//! captcha box is clicked on the user's behalf.

use vstd::prelude::*;

verus! {

#[verifier::external_type_specification]
#[verifier::external_body]
pub struct ExSystemTime(std::time::SystemTime);

/// `SystemTime::now`. Trusted; nothing is claimed of the instant returned.
#[verifier::external_body]
fn system_now() -> std::time::SystemTime {
    std::time::SystemTime::now()
}

/// `SystemTime::duration_since(UNIX_EPOCH)`, the error dropped.
/// Trusted; it fails when the clock reads before the epoch, so nothing is
/// claimed of which outcome comes back.
#[verifier::external_body]
fn since_epoch(t: &std::time::SystemTime) -> Option<core::time::Duration> {
    t.duration_since(std::time::UNIX_EPOCH).ok()
}

/// `Duration::subsec_nanos`. Trusted: the documentation promises the
/// fractional part of a second, so less than one billion.
#[verifier::external_body]
fn subsec_nanos(d: &core::time::Duration) -> (r: u32)
    ensures
        r < 1_000_000_000,
{
    d.subsec_nanos()
}

/// The seed taken from the clock's sub-second nanoseconds, or the fixed
/// fallback 12345 when the clock could not be read.
pub fn seed_from_nanos(nanos: Option<u32>) -> (r: u64)
    ensures
        r == (match nanos {
            Some(n) => n as u64,
            None => 12345u64,
        }),
{
    match nanos {
        Some(n) => n as u64,
        None => 12345,
    }
}

/// A seed from the wall clock: the nanoseconds within the current second.
pub fn rng() -> (r: u64)
    ensures
        r < 1_000_000_000,
{
    let now = system_now();
    let nanos = match since_epoch(&now) {
        Some(d) => Some(subsec_nanos(&d)),
        None => None,
    };
    seed_from_nanos(nanos)
}

/// The linear congruential step applied to a seed.
pub open spec fn lcg_next(seed: u64) -> u64 {
    seed.wrapping_mul(1103515245).wrapping_add(12345)
}

/// Advances `seed` one step and returns the 15-bit sample that the caller
/// scales into `[0, 1)` by dividing by 32768.
pub fn lcg_sample(seed: &mut u64) -> (r: u64)
    ensures
        *final(seed) == lcg_next(*old(seed)),
        r == (*final(seed) >> 16u64) & 0x7fffu64,
        r < 32768,
{
    *seed = seed.wrapping_mul(1103515245).wrapping_add(12345);
    let s = *seed;
    let r = (s >> 16u64) & 0x7fffu64;
    assert(((s >> 16u64) & 0x7fffu64) < 32768) by (bit_vector);
    r
}

/// A 15-bit sample scaled into `0..range`: `sample * range / 32768`,
/// rounded down (the whole part of the sample's fraction times `range`).
pub fn scaled_sample(sample: u64, range: u64) -> (r: u64)
    requires
        sample < 32768,
        range <= 1_000_000,
    ensures
        r == sample * range / 32768,
        r < range || range == 0,
{
    assert(sample * range < 32768 * 1_000_001) by (nonlinear_arith)
        requires
            sample < 32768,
            range <= 1_000_000,
    ;
    assert(range > 0 ==> sample * range / 32768 < range) by (nonlinear_arith)
        requires
            sample < 32768,
    ;
    sample * range / 32768
}

} // verus!
