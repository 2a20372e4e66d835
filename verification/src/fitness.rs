//! Fitness evaluation of a schedule.

use vstd::prelude::*;
use crate::{genotype_in_bounds, makespan_of, Schedule};

verus! {

/// Evaluate the fitness of a solution: a vector of objective values, lower
/// is better.  For now its only component is the makespan; later objectives
/// (resource-violation penalties, tardiness) would extend the vector.
pub fn fitness(schedule: &Schedule) -> (f: Vec<u32>)
    requires
        genotype_in_bounds(schedule.project, schedule.genotype@),
    ensures
        f@.len() == 1,
        f@[0] == makespan_of(schedule.project, schedule.genotype@),
{
    let makespan = schedule.makespan();
    let mut f: Vec<u32> = Vec::new();
    f.push(makespan);
    f
}

} // verus!
