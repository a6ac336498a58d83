//! The random generator and the clock, and exact tests of random draws
//! against probabilities.
use rand::rngs::StdRng;
use rand::{RngCore, SeedableRng};
use std::time::{Duration, SystemTime, UNIX_EPOCH};
use crate::game::Game;
use vstd::prelude::*;

verus! {

#[verifier::external_type_specification]
#[verifier::external_body]
pub struct ExStdRng(StdRng);

#[verifier::external_type_specification]
#[verifier::external_body]
pub struct ExSystemTime(SystemTime);

/// Calls `rand::SeedableRng::seed_from_u64` for `StdRng`. The generator's
/// state is opaque here, so nothing is stated of the result.
#[verifier::external_body]
pub(crate) fn rng_from_seed(seed: u64) -> StdRng {
    StdRng::seed_from_u64(seed)
}

/// Calls `rand::RngCore::next_u64` on the generator. Any `u64` may come
/// back; nothing is stated of the generator's new state.
#[verifier::external_body]
pub(crate) fn rng_next(rng: &mut StdRng) -> u64 {
    rng.next_u64()
}

/// Calls `std::time::SystemTime::now`: the current wall-clock time, of
/// which nothing is stated.
#[verifier::external_body]
pub(crate) fn clock_now() -> SystemTime {
    SystemTime::now()
}

/// Calls `SystemTime::duration_since(UNIX_EPOCH)`: `None` when the clock
/// reads before the epoch. Nothing is stated of the duration.
#[verifier::external_body]
pub(crate) fn since_epoch(t: SystemTime) -> Option<Duration> {
    match t.duration_since(UNIX_EPOCH) {
        Ok(d) => Some(d),
        Err(_) => None,
    }
}

/// Calls `Duration::as_nanos`. Nothing is stated of the count.
#[verifier::external_body]
pub(crate) fn duration_nanos(d: Duration) -> u128 {
    d.as_nanos()
}

/// The seed for a clock reading: its nanoseconds since the Unix epoch cut
/// to their low 64 bits, or a fixed value when the clock reads before the
/// epoch (`None`).
pub fn seed_from_nanos(n: Option<u128>) -> (s: u64)
    ensures
        s == seed_from_nanos_spec(n),
{
    match n {
        Some(v) => {
            let low = v % 0x1_0000_0000_0000_0000u128;
            low as u64
        },
        None => 0x853c49e6748fea9,
    }
}

/// A seed from the wall clock: `seed_from_nanos` of the nanoseconds since
/// the Unix epoch, `None` when the clock reads before the epoch.
pub fn clock_seed() -> (s: u64)
    ensures
        exists|n: Option<u128>| s == #[trigger] seed_from_nanos_spec(n),
{
    let t = clock_now();
    let n = match since_epoch(t) {
        Some(d) => Some(duration_nanos(d)),
        None => None,
    };
    let s = seed_from_nanos(n);
    proof {
        assert(s == seed_from_nanos_spec(n));
    }
    s
}

/// The value `seed_from_nanos` gives for the reading `n`.
pub open spec fn seed_from_nanos_spec(n: Option<u128>) -> u64 {
    match n {
        Some(v) => (v % 0x1_0000_0000_0000_0000) as u64,
        None => 0x853c49e6748fea9u64,
    }
}

/// The largest draw, which stands for the probability one.
pub open spec fn draw_max() -> int {
    u64::MAX as int
}

/// A draw `r`, read as the fraction `r / u64::MAX` of the unit interval, is
/// strictly below `num / den`.
pub open spec fn draw_below(r: u64, num: int, den: int) -> bool {
    (r as int) * den < num * draw_max()
}

/// The draw `r`, read as a fraction of the unit interval, is strictly above
/// `num / den`.
pub open spec fn draw_above(r: u64, num: int, den: int) -> bool {
    (r as int) * den > num * draw_max()
}

/// Exact comparison of the fraction `r / u64::MAX` with `num / den`: true
/// when the fraction is smaller.
pub fn chance_below(r: u64, num: u64, den: u64) -> (b: bool)
    requires
        den <= 1000,
        num <= 1000,
    ensures
        b == draw_below(r, num as int, den as int),
{
    assert((r as int) * (den as int) <= (u64::MAX as int) * 1000) by (nonlinear_arith)
        requires
            den <= 1000,
    ;
    assert((num as int) * (u64::MAX as int) <= 1000 * (u64::MAX as int)) by (nonlinear_arith)
        requires
            num <= 1000,
    ;
    let lhs: u128 = (r as u128) * (den as u128);
    let rhs: u128 = (num as u128) * (u64::MAX as u128);
    lhs < rhs
}

/// Exact comparison of the fraction `r / u64::MAX` with `num / den`: true
/// when the fraction is larger.
pub fn chance_above(r: u64, num: u64, den: u64) -> (b: bool)
    requires
        den <= 1000,
        num <= 1000,
    ensures
        b == draw_above(r, num as int, den as int),
{
    assert((r as int) * (den as int) <= (u64::MAX as int) * 1000) by (nonlinear_arith)
        requires
            den <= 1000,
    ;
    assert((num as int) * (u64::MAX as int) <= 1000 * (u64::MAX as int)) by (nonlinear_arith)
        requires
            num <= 1000,
    ;
    let lhs: u128 = (r as u128) * (den as u128);
    let rhs: u128 = (num as u128) * (u64::MAX as u128);
    lhs > rhs
}

/// Denominator of a fine fraction: 2^17.
pub const FINE: u64 = 131072;

/// The top 17 bits of a draw: a fraction of the unit interval with
/// denominator 2^17, an approximation of the draw's full value that is
/// never above it and within about 2^-17 of it.
pub fn fine_fraction(r: u64) -> (f: u64)
    ensures
        f == r >> 47u64,
        f < FINE,
{
    let f = r >> 47u64;
    assert(r >> 47u64 < 131072) by (bit_vector);
    f
}

impl Game {
    /// Draws the next 64 random bits from the game's generator.
    pub fn roll(&mut self) -> (r: u64)
        ensures
            final(self).same_except_rng(old(self)),
    {
        rng_next(&mut self.rng)
    }

    /// A random index below `n` (0 when `n` is 0).
    pub fn ri(&mut self, n: usize) -> (r: usize)
        ensures
            final(self).same_except_rng(old(self)),
            n == 0 ==> r == 0,
            n > 0 ==> r < n,
    {
        if n == 0 {
            return 0;
        }
        (self.roll() % (n as u64)) as usize
    }
}

} // verus!
