//! Random crossover and mutation, and the laws they obey.

use vstd::prelude::*;
use rand::rngs::StdRng;
use crate::bits::{crossed, crossover_at, flipped, is_bit, is_bit_string, mutate_at, mutated};
use crate::random::draw_index;

verus! {

/// Single-point crossover at a cut index drawn uniformly from `[0, len)`.
pub fn crossover(a: &Vec<char>, b: &Vec<char>, rng: &mut StdRng) -> (child: Vec<char>)
    requires
        a@.len() == b@.len(),
        a@.len() > 0,
    ensures
        exists|idx: int| 0 <= idx < a@.len() && child@ == crossed(a@, b@, idx),
{
    let idx = draw_index(rng, a.len());
    crossover_at(a, b, idx)
}

/// Flips one digit, at an index drawn uniformly from `[0, len)`.
pub fn mutate(b: &Vec<char>, rng: &mut StdRng) -> (r: Vec<char>)
    requires
        b@.len() > 0,
    ensures
        exists|idx: int| 0 <= idx < b@.len() && r@ == mutated(b@, idx),
{
    let idx = draw_index(rng, b.len());
    mutate_at(b, idx)
}

/// A crossover child is as long as its parents; each of its characters is
/// the parent's one at the same place, taken from `a` before the cut and
/// from `b` from the cut on.
pub proof fn lemma_crossover_child(a: Seq<char>, b: Seq<char>, idx: int)
    requires
        a.len() == b.len(),
        0 <= idx < a.len(),
    ensures
        crossed(a, b, idx).len() == a.len(),
        forall|i: int|
            0 <= i < a.len() ==> #[trigger] crossed(a, b, idx)[i] == a[i] || crossed(
                a,
                b,
                idx,
            )[i] == b[i],
        forall|i: int| 0 <= i < idx ==> #[trigger] crossed(a, b, idx)[i] == a[i],
        forall|i: int| idx <= i < a.len() ==> #[trigger] crossed(a, b, idx)[i] == b[i],
        is_bit_string(a) && is_bit_string(b) ==> is_bit_string(crossed(a, b, idx)),
{
}

/// Mutating a bit string changes exactly one position, and flips the digit
/// there; the result is still a bit string of the same length.
pub proof fn lemma_mutation_flips_one(b: Seq<char>, idx: int)
    requires
        is_bit_string(b),
        0 <= idx < b.len(),
    ensures
        mutated(b, idx).len() == b.len(),
        is_bit_string(mutated(b, idx)),
        mutated(b, idx)[idx] != b[idx],
        mutated(b, idx)[idx] == flipped(b[idx]),
        b[idx] == '0' ==> mutated(b, idx)[idx] == '1',
        b[idx] == '1' ==> mutated(b, idx)[idx] == '0',
        forall|i: int| 0 <= i < b.len() && i != idx ==> #[trigger] mutated(b, idx)[i] == b[i],
{
    assert(is_bit(b[idx]));
}

} // verus!
