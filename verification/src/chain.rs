//! Chain generation: from a seed plaintext, alternate the hash and the
//! reduction for a fixed number of rounds; only the seed and the terminal
//! hash are kept, everything between is recomputed on demand.

use rayon::iter::IntoParallelRefIterator;
use rayon::iter::ParallelIterator;
use vstd::prelude::*;

use crate::hash::digest_of;
use crate::hash::hash_bytes;
use crate::reduce::reduce;
use crate::reduce::reduce_spec;
use crate::reduce::Reduction;
use crate::space::PlaintextSpace;

verus! {

/// One rainbow chain, summarised by its first plaintext and its last hash.
pub struct Chain {
    pub seed: Vec<u8>,
    pub terminal: Vec<u8>,
}

/// The hash standing after `i` full rounds of a chain that starts from
/// `seed`: round zero hashes the seed, and each later round hashes the
/// reduction of the previous hash at its step.
pub open spec fn chain_hash(
    seed: Seq<u8>,
    i: int,
    space: PlaintextSpace,
    red: Reduction,
) -> Seq<u8>
    decreases i, 1int,
{
    digest_of(chain_plain(seed, i, space, red))
}

/// The plaintext hashed in round `i`: the seed in round zero, and in every
/// later round the reduction of the hash after round `i - 1`, at step
/// `i - 1`.
pub open spec fn chain_plain(
    seed: Seq<u8>,
    i: int,
    space: PlaintextSpace,
    red: Reduction,
) -> Seq<u8>
    decreases i, 0int,
{
    if i <= 0 {
        seed
    } else {
        reduce_spec(
            chain_hash(seed, i - 1, space, red),
            #[verifier::truncate] ((i - 1) as u64),
            space,
            red,
        )
    }
}

/// The terminal hash of a chain of `rounds` rounds from `seed`.
pub open spec fn chain_terminal(
    seed: Seq<u8>,
    rounds: u64,
    space: PlaintextSpace,
    red: Reduction,
) -> Seq<u8> {
    chain_hash(seed, rounds as int, space, red)
}

impl Chain {
    /// Computes the full chain from `seed`: `rounds` alternating
    /// hash/reduce rounds, keeping only the seed and the terminal hash.
    /// With zero rounds the terminal is simply the hash of the seed.
    pub fn forward(seed: &Vec<u8>, rounds: u64, space: &PlaintextSpace, red: Reduction) -> (c:
        Chain)
        requires
            space.wf(),
        ensures
            c.seed@ == seed@,
            c.terminal@ == chain_terminal(seed@, rounds, *space, red),
            c.terminal@.len() == crate::hash::HASH_WIDTH,
    {
        let mut h = hash_bytes(seed);
        let mut i: u64 = 0;
        while i < rounds
            invariant
                0 <= i <= rounds,
                space.wf(),
                h@ == chain_hash(seed@, i as int, *space, red),
                h@.len() == crate::hash::HASH_WIDTH,
            decreases rounds - i,
        {
            let p = reduce(&h, i, space, red);
            h = hash_bytes(&p);
            proof {
                assert(p@ == chain_plain(seed@, i + 1, *space, red));
            }
            i = i + 1;
        }
        let s = crate::order::copy_bytes(seed);
        Chain { seed: s, terminal: h }
    }
}

/// Any two chain computations over the same seed, round count, space and
/// reduction produce the same terminal hash: the terminal is a pure
/// function of those four values.
pub proof fn lemma_forward_deterministic(
    t1: Seq<u8>,
    t2: Seq<u8>,
    seed: Seq<u8>,
    rounds: u64,
    space: PlaintextSpace,
    red: Reduction,
)
    requires
        t1 == chain_terminal(seed, rounds, space, red),
        t2 == chain_terminal(seed, rounds, space, red),
    ensures
        t1 == t2,
{
}

/// Relies on rayon's par_iter, map and collect: applies the verified chain
/// computation to every seed in parallel, preserving order and producing
/// one chain per seed.
#[verifier::external_body]
pub(crate) fn forward_all(
    seeds: &Vec<Vec<u8>>,
    rounds: u64,
    space: &PlaintextSpace,
    red: Reduction,
) -> (r: Vec<Chain>)
    requires
        space.wf(),
    ensures
        r@.len() == seeds@.len(),
        forall|i: int|
            0 <= i < r@.len() ==> r@[i].seed@ == seeds@[i]@ && r@[i].terminal@ == chain_terminal(
                seeds@[i]@,
                rounds,
                *space,
                red,
            ),
{
    seeds.par_iter().map(|s| Chain::forward(s, rounds, space, red)).collect()
}

} // verus!
