use mrcpsp::crossover::crossover;
use mrcpsp::random::RandomSource;
use mrcpsp::{Genotype, Nucleotide};

// Whatever the coin flips, each child nucleotide is a pointwise copy of
// one parent's nucleotide at the same position, and the task sequence is
// kept.
#[test]
fn crossover_aligns_by_task() {
    let parent1 = Genotype(vec![
        Nucleotide { task: 0, mode: 0, release_time: 0 },
        Nucleotide { task: 1, mode: 0, release_time: 3 },
    ]);
    let parent2 = Genotype(vec![
        Nucleotide { task: 0, mode: 1, release_time: 5 },
        Nucleotide { task: 1, mode: 1, release_time: 2 },
    ]);
    for seed in 0..20u64 {
        let mut rng = RandomSource::from_seed(seed);
        let child = crossover(&mut rng, &parent1, &parent2);
        assert_eq!(child.0.len(), 2);
        for i in 0..2 {
            assert_eq!(child.0[i].task, i);
            assert!(child.0[i] == parent1.0[i] || child.0[i] == parent2.0[i]);
        }
    }
}

#[test]
fn push_appends_a_nucleotide() {
    let mut genotype = Genotype(vec![]);
    genotype.push(Nucleotide { task: 0, mode: 1, release_time: 2 });
    genotype.push(Nucleotide { task: 1, mode: 0, release_time: 5 });
    assert_eq!(genotype.0.len(), 2);
    assert_eq!(genotype.0[1], Nucleotide { task: 1, mode: 0, release_time: 5 });
}

#[test]
fn crossover_of_identical_parents_is_the_parent() {
    let parent = Genotype(vec![
        Nucleotide { task: 0, mode: 2, release_time: 1 },
        Nucleotide { task: 1, mode: 0, release_time: 4 },
        Nucleotide { task: 2, mode: 1, release_time: 9 },
    ]);
    let mut rng = RandomSource::from_seed(11);
    let child = crossover(&mut rng, &parent, &parent);
    assert_eq!(child, parent);
}
