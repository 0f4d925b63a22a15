//! The deterministic random number generator used for tie-breaking.
//!
//! Every shard seeds the generator from the previous block, so all replicas
//! draw the same values.

use vstd::prelude::*;

use rand::Rng;
use rand::SeedableRng;

verus! {

/// The generator all simulation components share.
pub type DefaultRng = rand::rngs::StdRng;

#[verifier::external_type_specification]
#[verifier::external_body]
pub struct ExStdRng(rand::rngs::StdRng);

/// Relies on rand's `StdRng::from_seed`: builds the generator from a 32-byte
/// seed. Nothing is assumed about the values it will produce.
#[verifier::external_body]
fn std_rng_from_bytes(bytes: &Vec<u8>) -> (r: DefaultRng)
    requires
        bytes@.len() == 32,
{
    let mut seed = [0u8; 32];
    seed.copy_from_slice(bytes.as_slice());
    rand::rngs::StdRng::from_seed(seed)
}

/// Build the shared generator from a 64-bit seed, repeated big-endian to
/// fill the full seed width.
pub fn rng_from_seed(seed: u64) -> DefaultRng {
    let mut seed_bytes: Vec<u8> = Vec::new();
    let mut copy: usize = 0;
    while copy < 4
        invariant
            copy <= 4,
            seed_bytes@.len() == copy * 8,
        decreases 4 - copy,
    {
        let mut k: usize = 0;
        while k < 8
            invariant
                k <= 8,
                seed_bytes@.len() == copy * 8 + k,
            decreases 8 - k,
        {
            let shift: u64 = (56 - 8 * (k as u64)) as u64;
            seed_bytes.push((seed >> shift) as u8);
            k = k + 1;
        }
        copy = copy + 1;
    }
    std_rng_from_bytes(&seed_bytes)
}

/// Relies on rand's `Rng::gen_range` on an inclusive range: the result lies
/// within the (non-empty) range.
#[verifier::external_body]
pub(crate) fn gen_range_inclusive(rng: &mut DefaultRng, lo: usize, hi: usize) -> (r: usize)
    requires
        lo <= hi,
    ensures
        lo <= r <= hi,
{
    rng.gen_range(lo..=hi)
}

} // verus!
