//! Random draws for placing tiles.

use rand::rngs::ThreadRng;
use rand::Rng;
use vstd::prelude::*;

verus! {

/// Denominator of every chance: chances are given in percent.
pub const PERCENT: u32 = 100;

/// The thread-local generator of the `rand` crate, `rand::rngs::ThreadRng`.
/// A value of it is carried from where it is made to each draw; nothing is
/// known of what it holds.
#[verifier::external_type_specification]
#[verifier::external_body]
pub struct ExThreadRng(ThreadRng);

/// `rand::thread_rng` hands out the generator of the calling thread, which
/// seeds itself from the operating system when a thread first asks for it,
/// and panics there if the system has no seed to give. Trusted, not proved;
/// nothing is claimed of the generator.
pub assume_specification[ rand::thread_rng ]() -> (rng: ThreadRng)
;

/// One draw of `rand::Rng::gen_ratio`: `true` with probability
/// `numerator / denominator`. Trusted, not proved: a ratio of zero never
/// hits and a ratio of one always does. The call panics on a denominator of
/// zero and on a numerator larger than the denominator, which the
/// precondition leaves out. It also panics where the generator is due to
/// reseed itself and the operating system gives it no random bytes; no
/// precondition can leave that out. Nothing else is claimed of the outcome,
/// nor of the generator after the draw.
#[verifier::external_body]
fn draw(rng: &mut ThreadRng, numerator: u32, denominator: u32) -> (hit: bool)
    requires
        0 < denominator,
        numerator <= denominator,
    ensures
        numerator == 0 ==> !hit,
        numerator == denominator ==> hit,
{
    rng.gen_ratio(numerator, denominator)
}

/// Draws `count` independent outcomes, each a hit with a chance of
/// `percent` in a hundred.
pub fn draw_hits(count: usize, percent: u32) -> (hits: Vec<bool>)
    requires
        percent <= PERCENT,
    ensures
        hits@.len() == count,
        percent == 0 ==> forall|i: int| 0 <= i < count ==> !hits@[i],
        percent == PERCENT ==> forall|i: int| 0 <= i < count ==> hits@[i],
{
    let mut rng: ThreadRng = rand::thread_rng();
    let mut hits: Vec<bool> = Vec::new();
    let mut i: usize = 0;
    while i < count
        invariant
            percent <= PERCENT,
            i <= count,
            hits@.len() == i,
            percent == 0 ==> forall|k: int| 0 <= k < i ==> !hits@[k],
            percent == PERCENT ==> forall|k: int| 0 <= k < i ==> hits@[k],
        decreases count - i,
    {
        let hit: bool = draw(&mut rng, percent, PERCENT);
        hits.push(hit);
        i += 1;
    }
    hits
}

} // verus!
