//! The reduction function: a deterministic, pseudo-uniform mapping from a
//! hash value (and the position within a chain) back into the plaintext
//! space, realised by a portable seeded generator keyed on the hash bytes.

use rand::seq::SliceRandom;
use vstd::bytes::spec_u64_to_le_bytes;
use vstd::bytes::u64_to_le_bytes;
use vstd::prelude::*;

use crate::space::PlaintextSpace;

verus! {

/// The sequence of `n` symbols that a generator seeded from `material`
/// draws from `alphabet`. A pure function of its three arguments: the
/// seeding and the generator are fixed and portable.
pub uninterp spec fn seeded_draw(material: Seq<u8>, alphabet: Seq<u8>, n: nat) -> Seq<u8>;

/// Relies on rand_seeder::Seeder (a fixed-key SipHash seeder, documented as
/// portable and reproducible), rand_pcg::Pcg64 (a deterministic generator)
/// and rand's SliceRandom::choose: seeds a Pcg64 from `material` and draws
/// `n` symbols from `alphabet`, a deterministic function of the arguments
/// alone, with every symbol taken from `alphabet`.
#[verifier::external_body]
pub(crate) fn draw_symbols(material: &Vec<u8>, alphabet: &Vec<u8>, n: usize) -> (r: Vec<u8>)
    requires
        alphabet@.len() >= 1,
    ensures
        r@ == seeded_draw(material@, alphabet@, n as nat),
        r@.len() == n,
        forall|i: int| 0 <= i < r@.len() ==> alphabet@.contains(r@[i]),
{
    let mut rng: rand_pcg::Pcg64 = rand_seeder::Seeder::from(material.as_slice()).make_rng();
    let mut out: Vec<u8> = Vec::with_capacity(n);
    for _ in 0..n {
        out.push(*alphabet.as_slice().choose(&mut rng).unwrap());
    }
    out
}

/// How the position of a reduction within its chain enters the reduction.
/// Mixing the step bounds the rate of chain merges; a step-blind reduction
/// is the deliberately weak variant that inflates it.
#[derive(PartialEq, Eq, Structural, Clone, Copy, Debug)]
pub enum Reduction {
    /// The step index is mixed into the generator's seed material.
    StepMixed,
    /// The step index is ignored: the same hash always reduces to the same
    /// plaintext at every position.
    StepBlind,
}

/// The seed material a reduction hands the generator: the hash bytes, with
/// the step appended in little-endian bytes when the reduction mixes it.
pub open spec fn reduction_material(h: Seq<u8>, step: u64, red: Reduction) -> Seq<u8> {
    match red {
        Reduction::StepMixed => h + spec_u64_to_le_bytes(step),
        Reduction::StepBlind => h,
    }
}

/// What `reduce` returns: the plaintext of `space` that `h` (and, for a
/// step-mixing reduction, `step`) determines.
pub open spec fn reduce_spec(h: Seq<u8>, step: u64, space: PlaintextSpace, red: Reduction) -> Seq<
    u8,
> {
    seeded_draw(reduction_material(h, step, red), space.alphabet@, space.length as nat)
}

/// Maps a hash value and a chain position to a plaintext of `space`:
/// deterministic, step-sensitive when `red` mixes the step, and always a
/// plaintext of the space.
pub fn reduce(h: &Vec<u8>, step: u64, space: &PlaintextSpace, red: Reduction) -> (r: Vec<u8>)
    requires
        space.wf(),
    ensures
        r@ == reduce_spec(h@, step, *space, red),
        space.is_plaintext(r@),
{
    let mut material: Vec<u8> = crate::order::copy_bytes(h);
    match red {
        Reduction::StepMixed => {
            let mut step_bytes = u64_to_le_bytes(step);
            material.append(&mut step_bytes);
            proof {
                assert(material@ == reduction_material(h@, step, red));
            }
        },
        Reduction::StepBlind => {},
    }
    draw_symbols(&material, &space.alphabet, space.length)
}

} // verus!
