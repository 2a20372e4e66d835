//! A solver core for the multi-mode resource-constrained project scheduling
//! problem (MRCPSP): a project is a set of tasks with precedence
//! dependencies, each executable in one of several modes that name a duration
//! and per-resource demands, against renewable resources with a fixed
//! per-unit-time capacity.  The library builds feasible schedules greedily
//! (a random precedence-consistent linearization, a random mode per task,
//! and earliest-fit release times over per-resource timelines), scores them
//! by makespan, and recombines them by pointwise crossover.

use vstd::prelude::*;

pub mod crossover;
pub mod fitness;
pub mod greedy;
pub mod linearize;
pub mod load;
pub mod random;
pub mod simulate;
pub mod sums;
pub mod timeline;

verus! {

/// Mode identifiers are positions in a task's mode list.
pub type ModeId = usize;
/// Task identifiers are positions in the project's task list.
pub type TaskId = usize;
/// Resource identifiers are positions in the project's resource list.
pub type ResourceId = usize;

/// Units of a resource required or available per unit of time.
pub type ResourceQuantity = u64;

/// Length of a task's execution, in abstract time units.
pub type Duration = u32;

/// A point on the project's abstract timeline.
pub type TimeStamp = u32;

/// A renewable resource: `quantity` units exist during every unit of time.
#[derive(Debug, Clone)]
pub struct Resource {
    /// Human-readable name; informational only.
    pub name: String,
    /// Cost of using one unit for one unit of time; reserved for future
    /// objective functions, no effect on makespan.
    pub cost: u64,
    /// How many units of this resource are available per unit of time.
    pub quantity: ResourceQuantity,
}

/// One entry of a mode's demand: `quantity` units of the resource `id`.
#[derive(Debug, Clone, PartialEq, Eq)]
pub struct ModeRequirement {
    /// Resource the mode needs.
    pub id: ResourceId,
    /// Units of that resource it holds while the task runs.
    pub quantity: ResourceQuantity,
}

/// One manner in which a task can be executed: how long it runs and which
/// resources it holds while it does.
#[derive(Debug, Clone, PartialEq, Eq)]
pub struct Mode {
    pub duration: Duration,
    pub req: Vec<ModeRequirement>,
}

/// A unit of work: a non-empty set of execution modes and the tasks that
/// must finish before this one starts.
#[derive(Debug, Clone)]
pub struct Task {
    /// Tasks that have to finish before this one starts.
    pub deps: Vec<TaskId>,
    /// Alternative executions of the task; never empty in a valid
    /// project.
    pub modes: Vec<Mode>,
}

/// An immutable project: an ordered list of resources and an ordered list of
/// tasks.  All identifiers are positional indices into these lists.
#[derive(Debug, Clone)]
pub struct Project {
    pub resources: Vec<Resource>,
    pub tasks: Vec<Task>,
}

impl Project {
    /// Number of tasks, as a mathematical integer.
    pub open spec fn n_tasks(self) -> int {
        self.tasks@.len() as int
    }

    /// Number of resources, as a mathematical integer.
    pub open spec fn n_resources(self) -> int {
        self.resources@.len() as int
    }

    /// Well-formedness of the task `t`: every dependency names an existing
    /// task, there is at least one mode, and every mode is well-formed.
    pub open spec fn task_wf(self, t: int) -> bool {
        &&& forall|k: int|
            0 <= k < self.tasks@[t].deps@.len()
                ==> #[trigger] self.tasks@[t].deps@[k] < self.n_tasks()
        &&& self.tasks@[t].modes@.len() >= 1
        &&& forall|m: int|
            0 <= m < self.tasks@[t].modes@.len()
                ==> (#[trigger] self.tasks@[t].modes@[m]).wf(self.resources@)
    }

    /// The structural invariants that `validate` enforces, short of
    /// acyclicity of the dependency graph:
    /// every dependency names an existing task, every task has at least one
    /// mode, every duration is strictly positive, and every requirement
    /// names an existing resource once, with a strictly positive quantity
    /// that the resource can supply.
    pub open spec fn wf(self) -> bool {
        forall|t: int| 0 <= t < self.n_tasks() ==> #[trigger] self.task_wf(t)
    }
}

impl Mode {
    /// Well-formedness of one mode against the project's resource list.
    pub open spec fn wf(self, resources: Seq<Resource>) -> bool {
        &&& self.duration >= 1
        &&& forall|i: int|
            0 <= i < self.req@.len() ==> (#[trigger] self.req@[i]).wf(resources)
        &&& forall|i: int, j: int|
            0 <= i < j < self.req@.len() ==> self.req@[i].id != self.req@[j].id
    }
}

impl ModeRequirement {
    /// A requirement names an existing resource and asks for a strictly
    /// positive quantity that the resource can supply.
    pub open spec fn wf(self, resources: Seq<Resource>) -> bool {
        &&& self.id < resources.len()
        &&& 1 <= self.quantity <= resources[self.id as int].quantity
    }
}

/// Duration of task `t` under the mode choice `modes`, as an integer.
pub open spec fn dur_of(p: Project, modes: Seq<ModeId>, t: int) -> int {
    p.tasks@[t].modes@[modes[t] as int].duration as int
}

/// Sum of the quantities that the requirement entries `reqs` ask of
/// resource `r`.  With well-formed modes at most one entry matches, so this
/// is that entry's quantity, or zero.
pub open spec fn req_sum(reqs: Seq<ModeRequirement>, r: int) -> int
    decreases reqs.len(),
{
    if reqs.len() == 0 {
        0
    } else {
        req_sum(reqs.drop_last(), r) + if reqs.last().id == r {
            reqs.last().quantity as int
        } else {
            0
        }
    }
}

/// Units of resource `r` that task `t` holds while running, under the mode
/// choice `modes`.
pub open spec fn req_of(p: Project, modes: Seq<ModeId>, t: int, r: int) -> int {
    req_sum(p.tasks@[t].modes@[modes[t] as int].req@, r)
}

/// `modes` picks one existing mode for every task of `p`.
pub open spec fn mode_choice_ok(p: Project, modes: Seq<ModeId>) -> bool {
    &&& modes.len() == p.n_tasks()
    &&& forall|t: int|
        0 <= t < p.n_tasks() ==> #[trigger] modes[t] < p.tasks@[t].modes@.len()
}

/// A Nucleotide assigns one task a specific execution mode and release time.
#[derive(Debug, Clone, Copy, PartialEq, Eq)]
pub struct Nucleotide {
    pub task: usize,
    pub mode: usize,
    pub release_time: u32,
}

/// A Genotype is a sequence of [`Nucleotide`]s which fully describes the
/// execution mode and release time of each task in a [`Project`].
/// Everywhere in this crate a genotype is kept canonical: sorted ascending
/// by task identifier, with exactly one nucleotide per task.
#[derive(Debug, Clone, PartialEq)]
pub struct Genotype(pub Vec<Nucleotide>);

impl View for Genotype {
    type V = Seq<Nucleotide>;

    open spec fn view(&self) -> Seq<Nucleotide> {
        self.0@
    }
}

impl Genotype {
    pub fn push(&mut self, n: Nucleotide)
        ensures
            final(self)@ == old(self)@.push(n),
    {
        self.0.push(n);
    }

    /// Canonical form: one nucleotide per task of a project with `n` tasks,
    /// in ascending task order, so the nucleotide at position `i` is task
    /// `i`'s.
    pub open spec fn canonical(self, n: int) -> bool {
        &&& self@.len() == n
        &&& forall|i: int| 0 <= i < n ==> #[trigger] self@[i].task == i
    }
}

/// A project together with a genotype for it: the solver's main artifact.
#[derive(Debug, Clone)]
pub struct Schedule {
    pub project: Project,
    pub genotype: Genotype,
}

/// Finish time of the latest-finishing nucleotide among the first `k` of
/// `g`: the maximum of `release_time + duration`, or zero when `k == 0`.
pub open spec fn makespan_upto(p: Project, g: Seq<Nucleotide>, k: int) -> int
    decreases k,
{
    if k <= 0 {
        0
    } else {
        let fin = g[k - 1].release_time
            + p.tasks@[g[k - 1].task as int].modes@[g[k - 1].mode as int].duration;
        let rest = makespan_upto(p, g, k - 1);
        if rest < fin {
            fin
        } else {
            rest
        }
    }
}

/// The makespan of genotype `g` against project `p`: the maximum over its
/// nucleotides of release time plus duration, and zero for an empty
/// genotype.
pub open spec fn makespan_of(p: Project, g: Seq<Nucleotide>) -> int {
    makespan_upto(p, g, g.len() as int)
}

/// Every nucleotide of `g` names an existing task and mode of `p`, and its
/// finish time fits the timestamp type.
pub open spec fn genotype_in_bounds(p: Project, g: Seq<Nucleotide>) -> bool {
    forall|i: int|
        0 <= i < g.len() ==> {
            &&& (#[trigger] g[i]).task < p.n_tasks()
            &&& g[i].mode < p.tasks@[g[i].task as int].modes@.len()
            &&& g[i].release_time
                + p.tasks@[g[i].task as int].modes@[g[i].mode as int].duration <= u32::MAX
        }
}

impl Schedule {
    /// Completion time of the latest-finishing task: the maximum over all
    /// nucleotides of release time plus the chosen mode's duration.
    pub fn makespan(&self) -> (m: u32)
        requires
            genotype_in_bounds(self.project, self.genotype@),
        ensures
            m == makespan_of(self.project, self.genotype@),
    {
        let genotype = &self.genotype.0;
        let mut m: u32 = 0;
        let mut i: usize = 0;
        while i < genotype.len()
            invariant
                genotype_in_bounds(self.project, genotype@),
                i <= genotype@.len(),
                m == makespan_upto(self.project, genotype@, i as int),
            decreases genotype@.len() - i,
        {
            let n = &genotype[i];
            let task = &self.project.tasks[n.task];
            let duration = task.modes[n.mode].duration;
            let fin = n.release_time + duration;
            if m < fin {
                m = fin;
            }
            i = i + 1;
        }
        m
    }
}

} // verus!
