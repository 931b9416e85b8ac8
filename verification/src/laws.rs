//! The laws of the engine, stated over the model and proved once and
//! for all: non-emptiness, bucket consistency, and the bound on the
//! termination measure. The arc-consistency closure, monotonicity and
//! idempotence laws are stated on the operations themselves, as
//! postconditions of `projectState`, `collapseAt`, `step` and
//! `run_to_completion`.

use crate::candidate::{lemma_popcount_le_len, popcount};
use crate::wave::{lemma_grid_index, lemma_sum_cards_bound, sum_cards, WaveFunction};
use vstd::prelude::*;

verus! {

/// Non-emptiness: while no contradiction has been signaled (the
/// structural invariant holds), every cell keeps at least one
/// candidate.
pub proof fn lemma_nonempty(wave: WaveFunction)
    requires
        wave.wf(),
    ensures
        forall|y: int, x: int| wave.valid(y, x) ==> popcount(#[trigger] wave.cell(y, x)) >= 1,
{
    assert forall|y: int, x: int|
        wave.valid(y, x) implies popcount(#[trigger] wave.cell(y, x)) >= 1 by {
        lemma_grid_index(wave.h as int, wave.w as int, y, x);
    }
}

/// Bucket consistency: every cell sits in the entropy bucket of its
/// current cardinality, and in no other bucket.
pub proof fn lemma_bucket_consistency(wave: WaveFunction)
    requires
        wave.wf(),
    ensures
        forall|y: int, x: int|
            wave.valid(y, x) ==> wave.entropy.in_bucket(
                popcount(#[trigger] wave.cell(y, x)) as int,
                wave.index_of(y, x),
            ),
        forall|y: int, x: int, n: int|
            wave.valid(y, x) && #[trigger] wave.entropy.in_bucket(n, wave.index_of(y, x)) ==> n
                == popcount(wave.cell(y, x)),
{
    assert forall|y: int, x: int|
        wave.valid(y, x) implies wave.entropy.in_bucket(
        popcount(#[trigger] wave.cell(y, x)) as int,
        wave.index_of(y, x),
    ) by {
        lemma_grid_index(wave.h as int, wave.w as int, y, x);
    }
    assert forall|y: int, x: int, n: int|
        wave.valid(y, x) && #[trigger] wave.entropy.in_bucket(n, wave.index_of(y, x)) implies n
        == popcount(wave.cell(y, x)) by {
        lemma_grid_index(wave.h as int, wave.w as int, y, x);
    }
}

/// The termination measure — the total candidate count over the grid,
/// which every collapse and every propagation reduction strictly
/// decreases — is at most one per cell and tile: a generation run
/// performs at most (cells x tiles) reducing steps.
pub proof fn lemma_total_entropy_bound(wave: WaveFunction)
    requires
        wave.wf(),
    ensures
        sum_cards(wave.grid@) <= wave.grid@.len() * wave.num_states(),
{
    assert forall|c: int|
        0 <= c < wave.grid@.len() implies popcount((#[trigger] wave.grid@[c])@)
        <= wave.num_states() as nat by {
        lemma_popcount_le_len(wave.grid@[c]@);
    }
    lemma_sum_cards_bound(wave.grid@, wave.num_states() as nat);
}

} // verus!
