use mrcpsp::fitness::fitness;
use mrcpsp::greedy::select_greedy_release_times;
use mrcpsp::linearize::dep_order;
use mrcpsp::random::RandomSource;
use mrcpsp::{Genotype, Mode, ModeRequirement, Project, Resource, Schedule, Task};

fn resource(name: &str, quantity: u64) -> Resource {
    Resource { name: String::from(name), cost: 1, quantity }
}

#[test]
fn two_independent_tasks() {
    let prj = &Project {
        resources: vec![
            Resource { name: String::from("Foo"), cost: 1, quantity: 1 },
            Resource { name: String::from("Bar"), cost: 1, quantity: 1 },
        ],
        tasks: vec![
            Task {
                deps: vec![],
                modes: vec![Mode { req: vec![ModeRequirement { quantity: 1, id: 0 }], duration: 1 }],
            },
            Task {
                deps: vec![],
                modes: vec![Mode { req: vec![ModeRequirement { quantity: 1, id: 1 }], duration: 1 }],
            },
        ],
    };
    let order = &vec![0, 1];
    let modes = &vec![0, 0];
    assert_eq!(vec![0, 0], select_greedy_release_times(prj, order, modes))
}

#[test]
fn two_serial_tasks() {
    let modes = vec![Mode { req: vec![ModeRequirement { quantity: 1, id: 0 }], duration: 1 }];
    let prj = &Project {
        resources: vec![Resource { name: String::from("Foo"), cost: 1, quantity: 1 }],
        tasks: vec![
            Task { deps: vec![], modes: modes.clone() },
            Task { deps: vec![0], modes: modes },
        ],
    };
    let order = &vec![0, 1];
    let modes = &vec![0, 0];
    assert_eq!(vec![0, 1], select_greedy_release_times(prj, order, modes))
}

#[test]
fn two_independent_tasks_resource_conflict() {
    let modes = vec![Mode { req: vec![ModeRequirement { quantity: 1, id: 0 }], duration: 2 }];
    let prj = &Project {
        resources: vec![Resource { name: String::from("Foo"), cost: 1, quantity: 1 }],
        tasks: vec![
            Task { deps: vec![], modes: modes.clone() },
            Task { deps: vec![], modes: modes },
        ],
    };
    let order = &vec![0, 1];
    let modes = &vec![0, 0];
    assert_eq!(vec![0, 2], select_greedy_release_times(prj, order, modes))
}

// Two resources, a prior claim on each: a task needing both must wait for
// the later release, found by the fixed-point iteration over the queues.
#[test]
fn multi_resource_fixed_point() {
    let prj = &Project {
        resources: vec![resource("X", 1), resource("Y", 1)],
        tasks: vec![
            Task {
                deps: vec![],
                modes: vec![Mode { req: vec![ModeRequirement { id: 0, quantity: 1 }], duration: 5 }],
            },
            Task {
                deps: vec![],
                modes: vec![Mode { req: vec![ModeRequirement { id: 1, quantity: 1 }], duration: 3 }],
            },
            Task {
                deps: vec![],
                modes: vec![Mode {
                    req: vec![
                        ModeRequirement { id: 0, quantity: 1 },
                        ModeRequirement { id: 1, quantity: 1 },
                    ],
                    duration: 2,
                }],
            },
        ],
    };
    let order = &vec![0, 1, 2];
    let modes = &vec![0, 0, 0];
    assert_eq!(vec![0, 0, 5], select_greedy_release_times(prj, order, modes))
}

// A task may start the very instant an earlier claim is released.
#[test]
fn release_boundary_is_admissible() {
    let prj = &Project {
        resources: vec![resource("Foo", 2)],
        tasks: vec![
            Task {
                deps: vec![],
                modes: vec![Mode { req: vec![ModeRequirement { id: 0, quantity: 2 }], duration: 3 }],
            },
            Task {
                deps: vec![],
                modes: vec![Mode { req: vec![ModeRequirement { id: 0, quantity: 1 }], duration: 1 }],
            },
        ],
    };
    assert_eq!(vec![0, 3], select_greedy_release_times(prj, &vec![0, 1], &vec![0, 0]));
}

#[test]
fn empty_project_yields_empty_genotype() {
    let prj = Project { resources: vec![], tasks: vec![] };
    let mut rng = RandomSource::from_seed(7);
    let genotype = Genotype::new_greedy(&prj, &mut rng);
    assert_eq!(genotype.0.len(), 0);
    let schedule = Schedule { project: prj, genotype };
    assert_eq!(schedule.makespan(), 0);
}

#[test]
fn single_task_starts_at_zero() {
    let prj = Project {
        resources: vec![resource("Foo", 1)],
        tasks: vec![Task {
            deps: vec![],
            modes: vec![Mode { req: vec![ModeRequirement { id: 0, quantity: 1 }], duration: 4 }],
        }],
    };
    let mut rng = RandomSource::from_seed(1);
    let schedule = Schedule::new_greedy_seeded(prj, &mut rng);
    assert_eq!(schedule.genotype.0.len(), 1);
    assert_eq!(schedule.genotype.0[0].task, 0);
    assert_eq!(schedule.genotype.0[0].mode, 0);
    assert_eq!(schedule.genotype.0[0].release_time, 0);
    assert_eq!(schedule.makespan(), 4);
}

#[test]
fn dep_order_is_a_precedence_consistent_permutation() {
    let modes = vec![Mode { req: vec![], duration: 1 }];
    // a diamond: 0 before 1 and 2, which are before 3
    let prj = Project {
        resources: vec![],
        tasks: vec![
            Task { deps: vec![], modes: modes.clone() },
            Task { deps: vec![0], modes: modes.clone() },
            Task { deps: vec![0], modes: modes.clone() },
            Task { deps: vec![1, 2], modes: modes },
        ],
    };
    for seed in 0..20u64 {
        let mut rng = RandomSource::from_seed(seed);
        let order = dep_order(&prj, &mut rng).unwrap();
        let mut seen = vec![false; 4];
        for &t in &order {
            for &d in &prj.tasks[t].deps {
                assert!(seen[d], "dependency {} of task {} not yet ordered", d, t);
            }
            assert!(!seen[t]);
            seen[t] = true;
        }
        assert!(seen.iter().all(|&s| s));
    }
}

#[test]
fn greedy_genotype_is_canonical_and_feasible() {
    let prj = Project {
        resources: vec![resource("Foo", 2), resource("Bar", 1)],
        tasks: vec![
            Task {
                deps: vec![],
                modes: vec![
                    Mode { req: vec![ModeRequirement { id: 0, quantity: 2 }], duration: 3 },
                    Mode { req: vec![ModeRequirement { id: 1, quantity: 1 }], duration: 5 },
                ],
            },
            Task {
                deps: vec![0],
                modes: vec![Mode { req: vec![ModeRequirement { id: 0, quantity: 1 }], duration: 2 }],
            },
            Task {
                deps: vec![],
                modes: vec![Mode { req: vec![ModeRequirement { id: 1, quantity: 1 }], duration: 4 }],
            },
        ],
    };
    for seed in 0..10u64 {
        let mut rng = RandomSource::from_seed(seed);
        let g = Genotype::new_greedy(&prj, &mut rng);
        assert_eq!(g.0.len(), 3);
        for (i, n) in g.0.iter().enumerate() {
            assert_eq!(n.task, i);
            assert!(n.mode < prj.tasks[i].modes.len());
        }
        // precedence: task 1 starts only after task 0 finishes
        let dur0 = prj.tasks[0].modes[g.0[0].mode].duration;
        assert!(g.0[0].release_time + dur0 <= g.0[1].release_time);
    }
}

#[test]
fn fitness_is_the_makespan_alone() {
    let modes = vec![Mode { req: vec![ModeRequirement { quantity: 1, id: 0 }], duration: 1 }];
    let prj = Project {
        resources: vec![resource("Foo", 1)],
        tasks: vec![
            Task { deps: vec![], modes: modes.clone() },
            Task { deps: vec![0], modes: modes },
        ],
    };
    let times = select_greedy_release_times(&prj, &vec![0, 1], &vec![0, 0]);
    let genotype = Genotype(
        times
            .iter()
            .enumerate()
            .map(|(t, &release_time)| mrcpsp::Nucleotide { task: t, mode: 0, release_time })
            .collect(),
    );
    let schedule = Schedule { project: prj, genotype };
    assert_eq!(schedule.makespan(), 2);
    let f = fitness(&schedule);
    assert_eq!(f.len(), 1);
    assert_eq!(f, vec![2]);
}
