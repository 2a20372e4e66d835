//! Random precedence-consistent linearization of a project's tasks:
//! randomized Kahn.  Repeatedly collect the tasks whose dependencies are
//! all already ordered, and append one of them, chosen uniformly.  The
//! result is a permutation of the task identifiers in which every task
//! follows all of its dependencies; if the collection ever comes up empty
//! first, no such order exists at all.

use vstd::prelude::*;
use crate::load::ProjectError;
use crate::random::RandomSource;
use crate::{Project, TaskId};

verus! {

/// The dependencies of the task at position `i` of `ord` all appear
/// before position `i`.
pub open spec fn deps_before(p: Project, ord: Seq<TaskId>, i: int) -> bool {
    forall|k: int|
        0 <= k < p.tasks@[ord[i] as int].deps@.len()
            ==> ord.take(i).contains(#[trigger] p.tasks@[ord[i] as int].deps@[k])
}

/// `ord` lists each task of `p` exactly once, each after all of its
/// dependencies.
pub open spec fn is_topo_order(p: Project, ord: Seq<TaskId>) -> bool {
    &&& ord.len() == p.n_tasks()
    &&& forall|i: int| 0 <= i < ord.len() ==> (#[trigger] ord[i]) < p.n_tasks()
    &&& forall|i: int, j: int| 0 <= i < j < ord.len() ==> ord[i] != ord[j]
    &&& forall|t: int| 0 <= t < p.n_tasks() ==> #[trigger] ord.contains(t as usize)
    &&& forall|i: int| 0 <= i < ord.len() ==> #[trigger] deps_before(p, ord, i)
}

/// The dependency graph admits a precedence-consistent total order.
pub open spec fn acyclic(p: Project) -> bool {
    exists|ord: Seq<TaskId>| is_topo_order(p, ord)
}

/// All dependencies of task `t` are placed: each names a task inside the
/// project and that task is marked in `placed`.
pub open spec fn ready(p: Project, placed: Seq<bool>, t: int) -> bool {
    forall|k: int|
        0 <= k < p.tasks@[t].deps@.len() ==> {
            &&& (#[trigger] p.tasks@[t].deps@[k]) < placed.len()
            &&& placed[p.tasks@[t].deps@[k] as int]
        }
}

/// How many entries of `s` are true.
pub open spec fn count_true(s: Seq<bool>) -> int
    decreases s.len(),
{
    if s.len() == 0 {
        0
    } else {
        count_true(s.drop_last()) + if s.last() {
            1int
        } else {
            0
        }
    }
}

proof fn lemma_count_true_le(s: Seq<bool>)
    ensures
        count_true(s) <= s.len(),
    decreases s.len(),
{
    if s.len() > 0 {
        lemma_count_true_le(s.drop_last());
    }
}

proof fn lemma_count_true_update(s: Seq<bool>, i: int)
    requires
        0 <= i < s.len(),
        !s[i],
    ensures
        count_true(s.update(i, true)) == count_true(s) + 1,
    decreases s.len(),
{
    if i == s.len() - 1 {
        assert(s.update(i, true).drop_last() =~= s.drop_last());
    } else {
        assert(s.update(i, true).drop_last() =~= s.drop_last().update(i, true));
        assert(s.update(i, true).last() == s.last());
        lemma_count_true_update(s.drop_last(), i);
    }
}

proof fn lemma_count_true_full(s: Seq<bool>)
    requires
        count_true(s) == s.len(),
    ensures
        forall|i: int| 0 <= i < s.len() ==> s[i],
    decreases s.len(),
{
    if s.len() > 0 {
        lemma_count_true_le(s.drop_last());
        lemma_count_true_full(s.drop_last());
        assert forall|i: int| 0 <= i < s.len() implies s[i] by {
            if i < s.len() - 1 {
                assert(s.drop_last()[i]);
            }
        }
    }
}

proof fn lemma_count_false_zero(s: Seq<bool>)
    requires
        forall|i: int| 0 <= i < s.len() ==> !(#[trigger] s[i]),
    ensures
        count_true(s) == 0,
    decreases s.len(),
{
    if s.len() > 0 {
        lemma_count_false_zero(s.drop_last());
    }
}

proof fn lemma_some_false(s: Seq<bool>)
    requires
        count_true(s) < s.len(),
    ensures
        exists|i: int| 0 <= i < s.len() && !(#[trigger] s[i]),
    decreases s.len(),
{
    if s.len() > 0 {
        if !s.last() {
            assert(!s[s.len() - 1]);
        } else {
            lemma_some_false(s.drop_last());
            let i = choose|i: int| 0 <= i < s.drop_last().len() && !(#[trigger] s.drop_last()[i]);
            assert(!s[i]);
        }
    }
}

/// The tasks not yet placed whose dependencies are all placed.
fn collect_eligible(project: &Project, placed: &Vec<bool>) -> (elig: Vec<TaskId>)
    requires
        placed@.len() == project.n_tasks(),
    ensures
        forall|j: int|
            0 <= j < elig@.len() ==> {
                &&& (#[trigger] elig@[j]) < project.n_tasks()
                &&& !placed@[elig@[j] as int]
                &&& ready(*project, placed@, elig@[j] as int)
            },
        forall|t: int|
            0 <= t < project.n_tasks() && !placed@[t] && ready(*project, placed@, t)
                ==> elig@.contains(t as usize),
{
    let n = project.tasks.len();
    let mut elig: Vec<TaskId> = Vec::new();
    let mut t: usize = 0;
    while t < n
        invariant
            placed@.len() == project.n_tasks(),
            n == project.n_tasks(),
            t <= n,
            forall|j: int|
                0 <= j < elig@.len() ==> {
                    &&& (#[trigger] elig@[j]) < project.n_tasks()
                    &&& !placed@[elig@[j] as int]
                    &&& ready(*project, placed@, elig@[j] as int)
                },
            forall|tt: int|
                0 <= tt < t && !placed@[tt] && ready(*project, placed@, tt)
                    ==> elig@.contains(tt as usize),
        decreases n - t,
    {
        let ghost old_elig = elig@;
        if !placed[t] {
            let deps = &project.tasks[t].deps;
            let mut all = true;
            let mut k: usize = 0;
            while k < deps.len()
                invariant
                    placed@.len() == project.n_tasks(),
                    t < project.n_tasks(),
                    deps@ == project.tasks@[t as int].deps@,
                    k <= deps@.len(),
                    all <==> forall|kk: int|
                        0 <= kk < k ==> {
                            &&& (#[trigger] deps@[kk]) < placed@.len()
                            &&& placed@[deps@[kk] as int]
                        },
                decreases deps@.len() - k,
            {
                let dep = deps[k];
                if !(dep < placed.len() && placed[dep]) {
                    all = false;
                }
                k = k + 1;
            }
            if all {
                elig.push(t);
                proof {
                    assert(elig@[elig@.len() - 1] == t);
                    assert(elig@.contains(t));
                }
            } else {
                proof {
                    assert(!ready(*project, placed@, t as int));
                }
            }
        }
        proof {
            assert forall|tt: int|
                0 <= tt < t + 1 && !placed@[tt] && ready(*project, placed@, tt)
                    implies elig@.contains(tt as usize) by {
                if tt < t {
                    assert(old_elig.contains(tt as usize));
                    let j = choose|j: int| 0 <= j < old_elig.len() && old_elig[j] == tt as usize;
                    assert(elig@[j] == tt as usize);
                }
            }
        }
        t = t + 1;
    }
    elig
}

/// Helper for the stalled case: were the remaining tasks orderable, every
/// position of that order would already be placed.
proof fn lemma_topo_all_placed(p: Project, placed: Seq<bool>, ord: Seq<TaskId>, k: int)
    requires
        placed.len() == p.n_tasks(),
        is_topo_order(p, ord),
        forall|t: int| 0 <= t < p.n_tasks() && !(#[trigger] placed[t]) ==> !ready(p, placed, t),
        0 <= k <= ord.len(),
    ensures
        forall|i: int| 0 <= i < k ==> placed[ord[i] as int],
    decreases k,
{
    if k > 0 {
        lemma_topo_all_placed(p, placed, ord, k - 1);
        let t = ord[k - 1] as int;
        assert(deps_before(p, ord, k - 1));
        assert(ready(p, placed, t)) by {
            assert forall|kk: int| 0 <= kk < p.tasks@[t].deps@.len() implies {
                &&& (#[trigger] p.tasks@[t].deps@[kk]) < placed.len()
                &&& placed[p.tasks@[t].deps@[kk] as int]
            } by {
                let dep = p.tasks@[ord[k - 1] as int].deps@[kk];
                assert(ord.take(k - 1).contains(dep));
                let j = choose|j: int|
                    0 <= j < ord.take(k - 1).len() && #[trigger] ord.take(k - 1)[j] == dep;
                assert(ord[j] == dep);
                assert(placed[ord[j] as int]);
            }
        }
    }
}

/// When some task is unplaced but no unplaced task is ready, no
/// precedence-consistent order of the project exists.
proof fn lemma_stall_unorderable(p: Project, placed: Seq<bool>)
    requires
        p.n_tasks() <= usize::MAX,
        placed.len() == p.n_tasks(),
        exists|t: int| 0 <= t < p.n_tasks() && !(#[trigger] placed[t]),
        forall|t: int| 0 <= t < p.n_tasks() && !(#[trigger] placed[t]) ==> !ready(p, placed, t),
    ensures
        !acyclic(p),
{
    if acyclic(p) {
        let ord = choose|ord: Seq<TaskId>| is_topo_order(p, ord);
        lemma_topo_all_placed(p, placed, ord, ord.len() as int);
        let t = choose|t: int| 0 <= t < p.n_tasks() && !(#[trigger] placed[t]);
        assert(ord.contains(t as usize));
        let i = choose|i: int| 0 <= i < ord.len() && ord[i] == t as usize;
        assert(placed[ord[i] as int]);
        assert(false);
    }
}

/// A uniformly-random precedence-consistent ordering of the task
/// identifiers, or `CyclicDependencies` when none exists: dependencies
/// that form a cycle, or that point outside the project, leave some task
/// forever ineligible.
pub fn dep_order(project: &Project, rng: &mut RandomSource) -> (r: Result<
    Vec<TaskId>,
    ProjectError,
>)
    ensures
        match r {
            Ok(order) => is_topo_order(*project, order@) && acyclic(*project),
            Err(e) => e == ProjectError::CyclicDependencies && !acyclic(*project),
        },
{
    let n = project.tasks.len();
    let mut placed: Vec<bool> = Vec::new();
    let mut i: usize = 0;
    while i < n
        invariant
            i <= n,
            placed@.len() == i,
            forall|j: int| 0 <= j < i ==> !(#[trigger] placed@[j]),
        decreases n - i,
    {
        placed.push(false);
        i = i + 1;
    }
    assert(count_true(placed@) == 0) by {
        lemma_count_false_zero(placed@);
    }
    let mut order: Vec<TaskId> = Vec::new();
    while order.len() < n
        invariant
            n == project.n_tasks(),
            placed@.len() == n,
            order@.len() <= n,
            count_true(placed@) == order@.len(),
            forall|j: int| 0 <= j < order@.len() ==> (#[trigger] order@[j]) < n,
            forall|i2: int, j2: int|
                0 <= i2 < j2 < order@.len() ==> order@[i2] != order@[j2],
            forall|t: int|
                0 <= t < n ==> (placed@[t] <==> #[trigger] order@.contains(t as usize)),
            forall|i2: int| 0 <= i2 < order@.len() ==> #[trigger] deps_before(
                *project,
                order@,
                i2,
            ),
        decreases n - order@.len(),
    {
        let elig = collect_eligible(project, &placed);
        if elig.len() == 0 {
            proof {
                lemma_count_true_le(placed@);
                assert(count_true(placed@) < placed@.len());
                lemma_some_false(placed@);
                assert forall|t: int|
                    0 <= t < project.n_tasks() && !(#[trigger] placed@[t]) implies !ready(
                    *project,
                    placed@,
                    t,
                ) by {
                    if ready(*project, placed@, t) {
                        assert(elig@.contains(t as usize));
                    }
                }
                lemma_stall_unorderable(*project, placed@);
            }
            return Err(ProjectError::CyclicDependencies);
        }
        let idx = rng.below(elig.len());
        let pick = elig[idx];
        let ghost old_placed = placed@;
        let ghost old_order = order@;
        placed.set(pick, true);
        order.push(pick);
        proof {
            lemma_count_true_update(old_placed, pick as int);
            assert forall|t: int|
                0 <= t < n implies (placed@[t] <==> #[trigger] order@.contains(t as usize)) by {
                if t == pick {
                    assert(order@[order@.len() - 1] == t as usize);
                    assert(order@.contains(t as usize));
                } else {
                    if old_order.contains(t as usize) {
                        let j = choose|j: int|
                            0 <= j < old_order.len() && old_order[j] == t as usize;
                        assert(order@[j] == t as usize);
                        assert(order@.contains(t as usize));
                    }
                    if order@.contains(t as usize) {
                        let j = choose|j: int| 0 <= j < order@.len() && order@[j] == t as usize;
                        assert(old_order[j] == t as usize);
                        assert(old_order.contains(t as usize));
                    }
                }
            }
            assert(!old_order.contains(pick));
            assert(ready(*project, old_placed, pick as int));
            assert forall|i2: int| 0 <= i2 < order@.len() implies #[trigger] deps_before(
                *project,
                order@,
                i2,
            ) by {
                assert(order@.take(i2) =~= old_order.take(i2));
                if i2 < order@.len() - 1 {
                    assert(order@[i2] == old_order[i2]);
                    assert(deps_before(*project, old_order, i2));
                } else {
                    assert(order@[i2] == pick);
                    assert forall|k: int|
                        0 <= k < project.tasks@[pick as int].deps@.len()
                            implies order@.take(i2).contains(
                        #[trigger] project.tasks@[pick as int].deps@[k],
                    ) by {
                        let dep = project.tasks@[pick as int].deps@[k];
                        assert(dep < old_placed.len() && old_placed[dep as int]);
                        assert(old_order.contains((dep as int) as usize));
                        assert(old_order.contains(dep));
                        let j = choose|j: int| 0 <= j < old_order.len() && old_order[j] == dep;
                        assert(order@.take(i2)[j] == dep);
                    }
                }
            }
        }
    }
    proof {
        lemma_count_true_full(placed@);
        assert forall|t: int| 0 <= t < project.n_tasks() implies #[trigger] order@.contains(
            t as usize,
        ) by {
            assert(placed@[t]);
        }
        assert(is_topo_order(*project, order@));
    }
    Ok(order)
}

/// Whether the project's dependency graph is acyclic: Kahn from a fixed
/// seed, used by validation.
pub fn topo_exists(project: &Project) -> (b: bool)
    ensures
        b <==> acyclic(*project),
{
    let mut rng = RandomSource::from_seed(0);
    match dep_order(project, &mut rng) {
        Ok(_) => true,
        Err(_) => false,
    }
}

} // verus!
