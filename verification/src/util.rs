//! Random level generation for skip-list nodes: a geometrically
//! distributed height (each level holds about half the nodes of the one
//! below), capped at the list's maximum level.

use rand_distr::Distribution;
use vstd::prelude::*;

verus! {

/// Relies on `rand_distr::StandardGeometric` sampled with `rand`'s thread
/// generator: returns a non-negative sample; nothing is assumed of its
/// distribution.
#[verifier::external_body]
fn sample_geometric() -> u64 {
    let mut rng = rand::thread_rng();
    rand_distr::StandardGeometric.sample(&mut rng)
}

/// Caps a drawn sample at the maximum level: everything the generator
/// computes from the sample, verified over the sample as a plain input.
pub fn cap_level(num: u64, max_lvl: u64) -> (r: u64)
    ensures
        r == (if num > max_lvl {
            max_lvl
        } else {
            num
        }),
{
    if num > max_lvl {
        max_lvl
    } else {
        num
    }
}

/// A random level: geometrically distributed, capped at `max_lvl`. The
/// sample is chance, so only the cap is owed of every outcome; `cap_level`
/// carries the exact contract over the drawn sample.
pub fn generate_random_lvl(max_lvl: u64) -> (r: u64)
    ensures
        r <= max_lvl,
{
    let num: u64 = sample_geometric();
    cap_level(num, max_lvl)
}

} // verus!
