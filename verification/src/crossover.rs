//! Uniform pointwise crossover of two genotypes.

use vstd::prelude::*;
use crate::random::RandomSource;
use crate::Genotype;

verus! {

/// Combine two parent genotypes into a child: for each position,
/// independently and with even odds, inherit the nucleotide of one parent
/// or the other.
///
/// Both parents must be aligned by task identifier (the canonical form
/// guarantees this for genotypes of one project).  The child then keeps the
/// task-identifier sequence of its parents, and each of its nucleotides is
/// a pointwise copy of one parent's nucleotide at the same position.  The
/// inherited release times need not be feasible for any project; a caller
/// repairs or penalizes the child downstream.
pub fn crossover(rng: &mut RandomSource, gen1: &Genotype, gen2: &Genotype) -> (child: Genotype)
    requires
        gen1@.len() == gen2@.len(),
        forall|i: int| 0 <= i < gen1@.len() ==> gen1@[i].task == gen2@[i].task,
    ensures
        child@.len() == gen1@.len(),
        forall|i: int|
            0 <= i < child@.len() ==> child@[i] == gen1@[i] || child@[i] == gen2@[i],
        forall|i: int| 0 <= i < child@.len() ==> #[trigger] child@[i].task == gen1@[i].task,
{
    let mut child = Genotype(Vec::new());
    let mut i: usize = 0;
    while i < gen1.0.len()
        invariant
            gen1@.len() == gen2@.len(),
            forall|j: int| 0 <= j < gen1@.len() ==> gen1@[j].task == gen2@[j].task,
            i <= gen1@.len(),
            child@.len() == i,
            forall|j: int|
                0 <= j < i ==> child@[j] == gen1@[j] || child@[j] == gen2@[j],
            forall|j: int| 0 <= j < i ==> #[trigger] child@[j].task == gen1@[j].task,
        decreases gen1@.len() - i,
    {
        if rng.coin() {
            child.push(gen1.0[i]);
        } else {
            child.push(gen2.0[i]);
        }
        i = i + 1;
    }
    child
}

} // verus!
