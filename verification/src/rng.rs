//! The engine's only window onto the process-local random source.
//!
//! Every draw the engine makes reduces to a uniform integer below a bound;
//! the wrappers here are the only trusted code in the crate. Everything
//! built on them (biased coin flips, weight samples, an approximately
//! normal perturbation) is verified integer arithmetic.

use vstd::prelude::*;
use crate::fixed::SCALE;

verus! {

/// Relies on rand::random_range over `0..n`: a uniform `u64` below `n`
/// from the thread-local generator; panics only on an empty range, which
/// `n >= 1` rules out.
#[verifier::external_body]
fn rand_below_u64(n: u64) -> (r: u64)
    requires
        1 <= n,
    ensures
        r < n,
{
    rand::random_range(0..n)
}

/// Relies on rand::random_range over `0..n`: a uniform `usize` below `n`
/// from the thread-local generator; panics only on an empty range, which
/// `n >= 1` rules out.
#[verifier::external_body]
fn rand_below_usize(n: usize) -> (r: usize)
    requires
        1 <= n,
    ensures
        r < n,
{
    rand::random_range(0..n)
}

/// Relies on rand::random_range over `0..n`: a uniform `u128` below `n`
/// from the thread-local generator; panics only on an empty range, which
/// `n >= 1` rules out.
#[verifier::external_body]
fn rand_below_u128(n: u128) -> (r: u128)
    requires
        1 <= n,
    ensures
        r < n,
{
    rand::random_range(0..n)
}

/// A uniform index into a non-empty buffer of length `len`.
pub fn rand_index(len: usize) -> (r: usize)
    requires
        1 <= len,
    ensures
        r < len,
{
    rand_below_usize(len)
}

/// A uniform fixed-point sample on `[0, 1)`.
pub fn rand_unit() -> (r: u64)
    ensures
        r < SCALE as u64,
{
    rand_below_u64(SCALE as u64)
}

/// A uniform threshold on `[0, total)` for fitness-proportional selection.
pub fn rand_threshold(total: u128) -> (r: u128)
    requires
        1 <= total,
    ensures
        r < total,
{
    rand_below_u128(total)
}

/// A biased coin: true with probability `rate` (fixed-point on `[0, 1]`).
/// A zero rate never fires; a full rate always fires.
pub fn chance(rate: u64) -> (r: bool)
    ensures
        rate == 0 ==> !r,
        rate >= SCALE ==> r,
{
    let x = rand_unit();
    x < rate
}

/// A uniform fixed-point weight on `[0, 1)`, the distribution of freshly
/// added connection weights.
pub fn rand_init_weight() -> (r: i64)
    ensures
        0 <= r < SCALE,
{
    rand_unit() as i64
}

/// A uniform fixed-point weight on `[-1, 1)`, the distribution of fully
/// replaced connection weights.
pub fn rand_full_weight() -> (r: i64)
    ensures
        -SCALE <= r < SCALE,
{
    let raw = rand_below_u64(2 * SCALE as u64);
    (raw as i64) - SCALE
}

/// Largest magnitude `perturb_delta` can return: six standard deviations
/// of the approximately normal sample.
pub const PERTURB_MAX: i64 = 240_000;

/// An approximately normal perturbation with mean 0 and standard deviation
/// 0.04 (fixed-point): the centered sum of twelve uniform samples, which has
/// unit standard deviation, scaled down by 25.
pub fn perturb_delta() -> (r: i64)
    ensures
        -PERTURB_MAX <= r <= PERTURB_MAX,
{
    let mut sum: u64 = 0;
    let mut k: u64 = 0;
    while k < 12
        invariant
            k <= 12,
            sum <= k * 1_000_000,
        decreases 12 - k,
    {
        let draw = rand_unit();
        sum = sum + draw;
        k = k + 1;
    }
    let centered: i64 = (sum as i64) - 6 * SCALE;
    if centered < 0 {
        -((-centered) / 25)
    } else {
        centered / 25
    }
}

} // verus!
