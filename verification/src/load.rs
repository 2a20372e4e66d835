//! Validation of a project against its structural invariants, and the
//! error values the core returns.  Parsing and emitting of project
//! documents happens outside the core; the core receives a `Project` value
//! and `validate` reports the first invariant it finds violated.

use vstd::prelude::*;
use crate::linearize::{acyclic, topo_exists};
use crate::Project;

verus! {

/// What a dangling reference points into.
#[derive(Debug, Clone, Copy, PartialEq, Eq, Structural)]
pub enum RefKind {
    Task,
    Resource,
}

/// The error values of the core.  All are fatal to the operation that
/// raised them; none is retried inside the core.
#[derive(Debug, Clone, Copy, PartialEq, Eq, Structural)]
pub enum ProjectError {
    /// A project document could not be parsed at the serialization
    /// boundary.  The core itself never produces this value.
    MalformedDocument,
    /// A dependency or requirement names a task or resource that does not
    /// exist; the payload is the missing identifier.
    DanglingReference(RefKind, usize),
    /// The dependency graph admits no precedence-consistent order.
    CyclicDependencies,
    /// The task has no mode at all.
    EmptyModeSet(usize),
    /// The mode of the task has a non-positive duration.
    NonPositiveDuration(usize, usize),
    /// The mode of the task asks of some resource a quantity that is not
    /// strictly positive, exceeds what the resource supplies, or is split
    /// over several entries for one resource.
    InfeasibleMode(usize, usize),
    /// A timeline query asked for more units than the resource has; the
    /// timeline revalidates this defensively during placement.
    InfeasibleRequest,
}

impl Project {
    /// Check the invariants a freshly loaded project must satisfy, and
    /// report the first violation found: a dangling task or resource
    /// reference, an empty mode set, a non-positive duration, a mode whose
    /// demand a resource cannot supply (or that names one resource more
    /// than once), or a dependency graph with no precedence-consistent
    /// order.
    pub fn validate(&self) -> (r: Result<(), ProjectError>)
        ensures
            r is Ok <==> self.wf() && acyclic(*self),
            match r {
                Ok(_) => true,
                Err(e) => match e {
                    ProjectError::MalformedDocument => false,
                    ProjectError::InfeasibleRequest => false,
                    ProjectError::CyclicDependencies => self.wf() && !acyclic(*self),
                    ProjectError::DanglingReference(RefKind::Task, id) => id
                        >= self.n_tasks() && !self.wf(),
                    ProjectError::DanglingReference(RefKind::Resource, id) => id
                        >= self.n_resources() && !self.wf(),
                    ProjectError::EmptyModeSet(t) => t < self.n_tasks()
                        && self.tasks@[t as int].modes@.len() == 0,
                    ProjectError::NonPositiveDuration(t, m) => t < self.n_tasks() && m
                        < self.tasks@[t as int].modes@.len()
                        && self.tasks@[t as int].modes@[m as int].duration == 0,
                    ProjectError::InfeasibleMode(t, m) => t < self.n_tasks() && m
                        < self.tasks@[t as int].modes@.len() && !self.tasks@[t as int].modes@[
                        m as int
                    ].wf(self.resources@),
                },
            },
    {
        let n = self.tasks.len();
        let nr = self.resources.len();
        let mut t: usize = 0;
        while t < n
            invariant
                n == self.n_tasks(),
                nr == self.n_resources(),
                t <= n,
                forall|t2: int| 0 <= t2 < t ==> #[trigger] self.task_wf(t2),
            decreases n - t,
        {
            let task = &self.tasks[t];
            if task.modes.len() == 0 {
                assert(!self.task_wf(t as int));
                return Err(ProjectError::EmptyModeSet(t));
            }
            let mut k: usize = 0;
            while k < task.deps.len()
                invariant
                    n == self.n_tasks(),
                    t < n,
                    task.deps@ == self.tasks@[t as int].deps@,
                    k <= task.deps@.len(),
                    forall|k2: int|
                        0 <= k2 < k ==> #[trigger] task.deps@[k2] < self.n_tasks(),
                decreases task.deps@.len() - k,
            {
                let dep = task.deps[k];
                if dep >= n {
                    assert(!self.task_wf(t as int));
                    return Err(ProjectError::DanglingReference(RefKind::Task, dep));
                }
                k = k + 1;
            }
            let mut m: usize = 0;
            while m < task.modes.len()
                invariant
                    n == self.n_tasks(),
                    nr == self.n_resources(),
                    t < n,
                    task.modes@ == self.tasks@[t as int].modes@,
                    m <= task.modes@.len(),
                    forall|m2: int|
                        0 <= m2 < m ==> (#[trigger] task.modes@[m2]).wf(self.resources@),
                decreases task.modes@.len() - m,
            {
                let mode = &task.modes[m];
                if mode.duration == 0 {
                    assert(!self.tasks@[t as int].modes@[m as int].wf(self.resources@));
                    assert(!self.task_wf(t as int));
                    return Err(ProjectError::NonPositiveDuration(t, m));
                }
                let mut i: usize = 0;
                while i < mode.req.len()
                    invariant
                        n == self.n_tasks(),
                        nr == self.n_resources(),
                        t < n,
                        task.modes@ == self.tasks@[t as int].modes@,
                        m < task.modes@.len(),
                        mode.req@ == task.modes@[m as int].req@,
                        i <= mode.req@.len(),
                        forall|i2: int|
                            0 <= i2 < i ==> (#[trigger] mode.req@[i2]).wf(self.resources@),
                        forall|i2: int, j2: int|
                            0 <= i2 < j2 < i ==> mode.req@[i2].id != mode.req@[j2].id,
                    decreases mode.req@.len() - i,
                {
                    let rq = &mode.req[i];
                    if rq.id >= nr {
                        assert(!self.tasks@[t as int].modes@[m as int].wf(self.resources@));
                        assert(!self.task_wf(t as int));
                        return Err(ProjectError::DanglingReference(RefKind::Resource, rq.id));
                    }
                    if rq.quantity == 0 || rq.quantity > self.resources[rq.id].quantity {
                        assert(!self.tasks@[t as int].modes@[m as int].wf(self.resources@));
                        assert(!self.task_wf(t as int));
                        return Err(ProjectError::InfeasibleMode(t, m));
                    }
                    let mut j: usize = 0;
                    while j < i
                        invariant
                            n == self.n_tasks(),
                            t < n,
                            task.modes@ == self.tasks@[t as int].modes@,
                            m < task.modes@.len(),
                            mode.req@ == task.modes@[m as int].req@,
                            i < mode.req@.len(),
                            rq.id == mode.req@[i as int].id,
                            j <= i,
                            forall|j2: int|
                                0 <= j2 < j ==> (#[trigger] mode.req@[j2]).id != mode.req@[
                                    i as int
                                ].id,
                        decreases i - j,
                    {
                        if mode.req[j].id == rq.id {
                            proof {
                                let md = self.tasks@[t as int].modes@[m as int];
                                assert(md.req@[j as int].id == md.req@[i as int].id);
                                assert(!md.wf(self.resources@)) by {
                                    if md.wf(self.resources@) {
                                        assert(md.req@[j as int].id != md.req@[i as int].id);
                                    }
                                }
                                assert(!self.task_wf(t as int));
                            }
                            return Err(ProjectError::InfeasibleMode(t, m));
                        }
                        j = j + 1;
                    }
                    i = i + 1;
                }
                m = m + 1;
            }
            t = t + 1;
        }
        if !topo_exists(self) {
            return Err(ProjectError::CyclicDependencies);
        }
        Ok(())
    }
}

} // verus!
