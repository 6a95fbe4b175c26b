//! Random draws for variation: parent indices and mutation noise.
use vstd::prelude::*;

use crate::variation::{draw_fits, Draw};

verus! {

/// Relies on rand::random_range: a value drawn uniformly from `0..n`; it
/// panics on an empty range, which `requires` leaves out.
#[verifier::external_body]
fn random_below(n: usize) -> (r: usize)
    requires
        n > 0,
    ensures
        r < n,
{
    rand::random_range(0..n)
}

/// The least noise value for amplitude `amplitude`.
pub open spec fn noise_low(amplitude: nat) -> int {
    -((amplitude / 2) as int)
}

/// Every noise value lies in `noise_low(amplitude)..amplitude + noise_low(amplitude)`:
/// a range of `amplitude` integers centred on zero, or zero alone when the
/// amplitude is zero.
pub open spec fn noise_within(noise: Seq<i32>, amplitude: nat) -> bool {
    forall|i: int|
        0 <= i < noise.len() ==> if amplitude == 0 {
            #[trigger] noise[i] == 0
        } else {
            noise_low(amplitude) <= noise[i] < amplitude + noise_low(amplitude)
        }
}

/// `n` noise values, each drawn uniformly within the amplitude.
pub fn draw_noise(n: usize, amplitude: u32) -> (noise: Vec<i32>)
    ensures
        noise@.len() == n,
        noise_within(noise@, amplitude as nat),
{
    let mut noise: Vec<i32> = Vec::new();
    let half: i64 = (amplitude / 2) as i64;
    let mut i: usize = 0;
    while i < n
        invariant
            i <= n,
            half == amplitude / 2,
            noise@.len() == i,
            noise_within(noise@, amplitude as nat),
        decreases n - i,
    {
        let v: i32 = if amplitude == 0 {
            0
        } else {
            let r = random_below(amplitude as usize);
            (r as i64 - half) as i32
        };
        noise.push(v);
        i = i + 1;
    }
    noise
}

/// Two parents drawn uniformly, with replacement, from `elite_count`
/// elites, and `n` noise values within the amplitude.
pub fn draw_offspring(elite_count: usize, n: usize, amplitude: u32) -> (d: Draw)
    requires
        elite_count > 0,
    ensures
        draw_fits(d, elite_count as nat, n as nat),
        noise_within(d.noise@, amplitude as nat),
{
    let first = random_below(elite_count);
    let second = random_below(elite_count);
    let noise = draw_noise(n, amplitude);
    Draw { first, second, noise }
}

} // verus!
