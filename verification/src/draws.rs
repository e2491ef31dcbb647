//! Numbers that are drawn from a seed.
use vstd::prelude::*;
use rand::rngs::StdRng;
use rand::{Rng, SeedableRng};

verus! {

/// The random number generator of the crate `rand`. Nothing is said of what is inside.
#[verifier::external_type_specification]
#[verifier::external_body]
pub struct ExStdRng(rand::rngs::StdRng);

/// What `rand::Rng::gen_range` returns for the range from 0 up to and with the last of
/// `maxima`, on a `rand::rngs::StdRng` that `seed_from_u64` made from `seed` and that was asked
/// for a number of the range of each earlier maximum before. The generator is ChaCha with 12
/// rounds on every platform. A number for `usize` is drawn in another way where `usize` has
/// another width, which is `width`.
pub uninterp spec fn drawn_number(width: u32, seed: u64, maxima: Seq<usize>) -> usize;

/// The model of a [`SeededRng`]: its seed, and the maxima of the draws so far.
#[verifier::ext_equal]
pub struct DrawsView {
    pub seed: u64,
    pub maxima: Seq<usize>,
}

/// A generator of the crate `rand`. It is made by [`seeded_rng`] and changed by [`draw`] alone,
/// so that it always stands where its seed and its draws have brought it.
pub struct SeededRng {
    rng: StdRng,
    state: Ghost<DrawsView>,
}

impl View for SeededRng {
    type V = DrawsView;

    closed spec fn view(&self) -> DrawsView {
        self.state@
    }
}

/// Calls `rand::SeedableRng::seed_from_u64` for `rand::rngs::StdRng`: the generator has this
/// seed, and nothing was drawn from it.
#[verifier::external_body]
pub(crate) fn seeded_rng(seed: u64) -> (rng: SeededRng)
    ensures
        rng@ == (DrawsView { seed, maxima: Seq::empty() }),
{
    SeededRng {
        rng: StdRng::seed_from_u64(seed),
        state: Ghost(DrawsView { seed, maxima: Seq::empty() }),
    }
}

/// Calls `rand::Rng::gen_range` on the range from 0 up to and with `max`, which is never
/// empty: the result is a number of that range. The generator is deterministic: the number
/// depends on the seed and on what was drawn before, and on nothing else but the width of
/// `usize`.
#[verifier::external_body]
pub(crate) fn draw(rng: &mut SeededRng, max: usize) -> (pick: usize)
    ensures
        pick <= max,
        pick == drawn_number(usize::BITS, old(rng)@.seed, old(rng)@.maxima.push(max)),
        final(rng)@ == (DrawsView { seed: old(rng)@.seed, maxima: old(rng)@.maxima.push(max) }),
{
    rng.rng.gen_range(0..=max)
}

} // verus!
