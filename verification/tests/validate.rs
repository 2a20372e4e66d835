use mrcpsp::load::{ProjectError, RefKind};
use mrcpsp::{Mode, ModeRequirement, Project, Resource, Task};

fn resource(quantity: u64) -> Resource {
    Resource { name: String::from("Foo"), cost: 0, quantity }
}

fn simple_mode(id: usize, quantity: u64, duration: u32) -> Mode {
    Mode { req: vec![ModeRequirement { id, quantity }], duration }
}

#[test]
fn valid_project_passes() {
    let prj = Project {
        resources: vec![resource(2)],
        tasks: vec![
            Task { deps: vec![], modes: vec![simple_mode(0, 1, 3)] },
            Task { deps: vec![0], modes: vec![simple_mode(0, 2, 1)] },
        ],
    };
    assert_eq!(prj.validate(), Ok(()));
}

#[test]
fn dangling_task_reference_is_reported() {
    let prj = Project {
        resources: vec![resource(1)],
        tasks: vec![Task { deps: vec![5], modes: vec![simple_mode(0, 1, 1)] }],
    };
    assert_eq!(prj.validate(), Err(ProjectError::DanglingReference(RefKind::Task, 5)));
}

#[test]
fn dangling_resource_reference_is_reported() {
    let prj = Project {
        resources: vec![resource(1)],
        tasks: vec![Task { deps: vec![], modes: vec![simple_mode(3, 1, 1)] }],
    };
    assert_eq!(prj.validate(), Err(ProjectError::DanglingReference(RefKind::Resource, 3)));
}

#[test]
fn empty_mode_set_is_reported() {
    let prj = Project {
        resources: vec![resource(1)],
        tasks: vec![Task { deps: vec![], modes: vec![] }],
    };
    assert_eq!(prj.validate(), Err(ProjectError::EmptyModeSet(0)));
}

#[test]
fn zero_duration_is_reported() {
    let prj = Project {
        resources: vec![resource(1)],
        tasks: vec![Task { deps: vec![], modes: vec![simple_mode(0, 1, 0)] }],
    };
    assert_eq!(prj.validate(), Err(ProjectError::NonPositiveDuration(0, 0)));
}

#[test]
fn overlarge_requirement_is_infeasible_at_load() {
    let prj = Project {
        resources: vec![resource(1)],
        tasks: vec![
            Task { deps: vec![], modes: vec![simple_mode(0, 1, 1)] },
            Task { deps: vec![], modes: vec![simple_mode(0, 1, 1), simple_mode(0, 2, 1)] },
        ],
    };
    assert_eq!(prj.validate(), Err(ProjectError::InfeasibleMode(1, 1)));
}

#[test]
fn zero_quantity_requirement_is_infeasible() {
    let prj = Project {
        resources: vec![resource(1)],
        tasks: vec![Task { deps: vec![], modes: vec![simple_mode(0, 0, 1)] }],
    };
    assert_eq!(prj.validate(), Err(ProjectError::InfeasibleMode(0, 0)));
}

#[test]
fn split_requirement_is_infeasible() {
    let prj = Project {
        resources: vec![resource(2)],
        tasks: vec![Task {
            deps: vec![],
            modes: vec![Mode {
                req: vec![
                    ModeRequirement { id: 0, quantity: 1 },
                    ModeRequirement { id: 0, quantity: 1 },
                ],
                duration: 1,
            }],
        }],
    };
    assert_eq!(prj.validate(), Err(ProjectError::InfeasibleMode(0, 0)));
}

#[test]
fn dependency_cycle_is_reported() {
    let prj = Project {
        resources: vec![resource(1)],
        tasks: vec![
            Task { deps: vec![1], modes: vec![simple_mode(0, 1, 1)] },
            Task { deps: vec![0], modes: vec![simple_mode(0, 1, 1)] },
        ],
    };
    assert_eq!(prj.validate(), Err(ProjectError::CyclicDependencies));
}

#[test]
fn self_loop_is_a_cycle() {
    let prj = Project {
        resources: vec![resource(1)],
        tasks: vec![Task { deps: vec![0], modes: vec![simple_mode(0, 1, 1)] }],
    };
    assert_eq!(prj.validate(), Err(ProjectError::CyclicDependencies));
}
