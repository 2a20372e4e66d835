//! The greedy schedule constructor.  Given a precedence-consistent task
//! order and a mode choice, each task in turn receives the earliest start
//! time that respects both the finish times of its dependencies and the
//! remaining capacity of every resource, found by a fixed-point iteration
//! of per-resource earliest-fit queries; its demands are then committed to
//! the resource timelines before the next task is placed.

use vstd::prelude::*;
use crate::linearize::{acyclic, dep_order, deps_before, is_topo_order};
use crate::load::ProjectError;
use crate::random::RandomSource;
use crate::sums::{
    lemma_sum_over_congruent, lemma_sum_over_nonneg, lemma_sum_over_perm, lemma_sum_over_take_le,
    lemma_sum_over_take_succ, lemma_sum_upto_le, sum_over, sum_upto,
};
use crate::timeline::{usage_at, Reservation, ResourceQueue};
use crate::{
    dur_of, mode_choice_ok, req_of, req_sum, Genotype, Mode, ModeId, ModeRequirement, Nucleotide,
    Project, Resource, Schedule, Task, TaskId, TimeStamp,
};

verus! {

/// A sequence of indices, as mathematical integers.
pub open spec fn as_ints(s: Seq<usize>) -> Seq<int> {
    s.map_values(|u: usize| u as int)
}

/// Units of resource `r` that task `t` holds at instant `tau`, under the
/// mode choice `modes` and release times `times`.
pub open spec fn demand_at(
    p: Project,
    modes: Seq<ModeId>,
    times: Seq<TimeStamp>,
    t: int,
    r: int,
    tau: int,
) -> int {
    if times[t] <= tau < times[t] + dur_of(p, modes, t) {
        req_of(p, modes, t, r)
    } else {
        0
    }
}

/// `demand_at` as a function of the task, for summing.
pub open spec fn demand_fn(
    p: Project,
    modes: Seq<ModeId>,
    times: Seq<TimeStamp>,
    r: int,
    tau: int,
) -> spec_fn(int) -> int {
    |t: int| demand_at(p, modes, times, t, r, tau)
}

/// Units of resource `r` held at instant `tau` by all tasks together.
pub open spec fn total_usage(
    p: Project,
    modes: Seq<ModeId>,
    times: Seq<TimeStamp>,
    r: int,
    tau: int,
) -> int {
    sum_upto(p.n_tasks(), demand_fn(p, modes, times, r, tau))
}

/// Units of resource `r` held at instant `tau` by the first `k` tasks of
/// the placement order `ord`.
pub open spec fn prefix_usage(
    p: Project,
    modes: Seq<ModeId>,
    times: Seq<TimeStamp>,
    ord: Seq<TaskId>,
    k: int,
    r: int,
    tau: int,
) -> int {
    sum_over(as_ints(ord).take(k), demand_fn(p, modes, times, r, tau))
}

/// Duration of a task as a function of the task, for summing.
pub open spec fn dur_fn(p: Project, modes: Seq<ModeId>) -> spec_fn(int) -> int {
    |t: int| dur_of(p, modes, t)
}

/// Summed duration of every task under the mode choice `modes`.
pub open spec fn total_duration(p: Project, modes: Seq<ModeId>) -> int {
    sum_upto(p.n_tasks(), dur_fn(p, modes))
}

/// Summed duration of the first `k` tasks of the placement order `ord`.
pub open spec fn placed_duration(p: Project, modes: Seq<ModeId>, ord: Seq<TaskId>, k: int) -> int {
    sum_over(as_ints(ord).take(k), dur_fn(p, modes))
}

/// Latest finish time among the first `k` dependencies of task `t`; zero
/// when there are none.
pub open spec fn dep_finish_upto(
    p: Project,
    modes: Seq<ModeId>,
    times: Seq<TimeStamp>,
    t: int,
    k: int,
) -> int
    decreases k,
{
    if k <= 0 {
        0
    } else {
        let d = p.tasks@[t].deps@[k - 1] as int;
        let fin = times[d] + dur_of(p, modes, d);
        let rest = dep_finish_upto(p, modes, times, t, k - 1);
        if fin > rest {
            fin
        } else {
            rest
        }
    }
}

/// Latest finish time among the dependencies of task `t`; zero when it
/// has none.  A task may start no earlier.
pub open spec fn dep_finish(p: Project, modes: Seq<ModeId>, times: Seq<TimeStamp>, t: int) -> int {
    dep_finish_upto(p, modes, times, t, p.tasks@[t].deps@.len() as int)
}

/// Starting the task at position `k` of `ord` at time `t2` would leave
/// resource `r` within capacity, against the tasks placed before it.
pub open spec fn window_free(
    p: Project,
    modes: Seq<ModeId>,
    times: Seq<TimeStamp>,
    ord: Seq<TaskId>,
    k: int,
    r: int,
    t2: int,
) -> bool {
    forall|tau: int|
        t2 <= tau < t2 + dur_of(p, modes, ord[k] as int)
            ==> prefix_usage(p, modes, times, ord, k, r, tau) + req_of(
                p,
                modes,
                ord[k] as int,
                r,
            ) <= p.resources@[r].quantity
}

/// Starting the task at position `k` of `ord` at time `t2` would leave
/// every resource within capacity, against the tasks placed before it.
pub open spec fn placement_fits(
    p: Project,
    modes: Seq<ModeId>,
    times: Seq<TimeStamp>,
    ord: Seq<TaskId>,
    k: int,
    t2: int,
) -> bool {
    forall|r: int|
        0 <= r < p.n_resources() ==> window_free(p, modes, times, ord, k, r, t2)
}

proof fn lemma_req_sum_nonneg(reqs: Seq<ModeRequirement>, r: int)
    ensures
        req_sum(reqs, r) >= 0,
    decreases reqs.len(),
{
    if reqs.len() > 0 {
        lemma_req_sum_nonneg(reqs.drop_last(), r);
    }
}

proof fn lemma_req_sum_no_match(reqs: Seq<ModeRequirement>, r: int)
    requires
        forall|i: int| 0 <= i < reqs.len() ==> (#[trigger] reqs[i]).id != r,
    ensures
        req_sum(reqs, r) == 0,
    decreases reqs.len(),
{
    if reqs.len() > 0 {
        lemma_req_sum_no_match(reqs.drop_last(), r);
    }
}

/// With one entry per resource, the sum for `r` is the matching entry's
/// quantity.
proof fn lemma_req_sum_entry(reqs: Seq<ModeRequirement>, r: int, i: int)
    requires
        0 <= i < reqs.len(),
        reqs[i].id == r,
        forall|i2: int, j2: int| 0 <= i2 < j2 < reqs.len() ==> reqs[i2].id != reqs[j2].id,
    ensures
        req_sum(reqs, r) == reqs[i].quantity,
    decreases reqs.len(),
{
    if i == reqs.len() - 1 {
        assert forall|j: int| 0 <= j < reqs.drop_last().len() implies (#[trigger] reqs.drop_last()[
            j
        ]).id != r by {
            assert(reqs[j].id != reqs[i].id);
        }
        lemma_req_sum_no_match(reqs.drop_last(), r);
    } else {
        assert(reqs.last().id != r) by {
            assert(reqs[i].id != reqs[reqs.len() - 1].id);
        }
        lemma_req_sum_entry(reqs.drop_last(), r, i);
    }
}

/// A positive sum names a matching entry.
proof fn lemma_req_sum_pos_entry(reqs: Seq<ModeRequirement>, r: int)
    requires
        req_sum(reqs, r) > 0,
    ensures
        exists|i: int| 0 <= i < reqs.len() && (#[trigger] reqs[i]).id == r,
    decreases reqs.len(),
{
    if reqs.len() > 0 {
        if reqs.last().id == r {
            assert(reqs[reqs.len() - 1].id == r);
        } else {
            lemma_req_sum_pos_entry(reqs.drop_last(), r);
            let i = choose|i: int|
                0 <= i < reqs.drop_last().len() && (#[trigger] reqs.drop_last()[i]).id == r;
            assert(reqs[i].id == r);
        }
    }
}

/// A well-formed mode's demand of resource `r` never exceeds what `r`
/// supplies.
proof fn lemma_req_sum_bound(reqs: Seq<ModeRequirement>, resources: Seq<Resource>, r: int)
    requires
        forall|i: int| 0 <= i < reqs.len() ==> (#[trigger] reqs[i]).wf(resources),
        forall|i2: int, j2: int| 0 <= i2 < j2 < reqs.len() ==> reqs[i2].id != reqs[j2].id,
        0 <= r < resources.len(),
    ensures
        0 <= req_sum(reqs, r) <= resources[r].quantity,
{
    lemma_req_sum_nonneg(reqs, r);
    if req_sum(reqs, r) > 0 {
        lemma_req_sum_pos_entry(reqs, r);
        let i = choose|i: int| 0 <= i < reqs.len() && (#[trigger] reqs[i]).id == r;
        lemma_req_sum_entry(reqs, r, i);
    }
}

proof fn lemma_req_sum_take_succ(reqs: Seq<ModeRequirement>, k: int, r: int)
    requires
        0 <= k < reqs.len(),
    ensures
        req_sum(reqs.take(k + 1), r) == req_sum(reqs.take(k), r) + if reqs[k].id == r {
            reqs[k].quantity as int
        } else {
            0
        },
{
    assert(reqs.take(k + 1).drop_last() =~= reqs.take(k));
    assert(reqs.take(k + 1).last() == reqs[k]);
}

/// The units of resource `r` the mode holds while it runs.
fn mode_req_quantity(mode: &Mode, r: usize) -> (q: u64)
    requires
        forall|i2: int, j2: int|
            0 <= i2 < j2 < mode.req@.len() ==> mode.req@[i2].id != mode.req@[j2].id,
    ensures
        q as int == req_sum(mode.req@, r as int),
{
    let mut q: u64 = 0;
    let mut i: usize = 0;
    while i < mode.req.len()
        invariant
            forall|i2: int, j2: int|
                0 <= i2 < j2 < mode.req@.len() ==> mode.req@[i2].id != mode.req@[j2].id,
            i <= mode.req@.len(),
            q as int == req_sum(mode.req@.take(i as int), r as int),
        decreases mode.req@.len() - i,
    {
        proof {
            lemma_req_sum_take_succ(mode.req@, i as int, r as int);
        }
        let rq = &mode.req[i];
        if rq.id == r {
            proof {
                assert forall|j: int| 0 <= j < i implies (#[trigger] mode.req@.take(i as int)[j]).id
                    != r as int by {
                    assert(mode.req@[j].id != mode.req@[i as int].id);
                }
                lemma_req_sum_no_match(mode.req@.take(i as int), r as int);
            }
            q = q + rq.quantity;
        }
        i = i + 1;
    }
    proof {
        assert(mode.req@.take(mode.req@.len() as int) =~= mode.req@);
    }
    q
}

/// The first `k` reservations of `rs` record, in placement order, the
/// window and the demand on resource `r` of the first `k` placed tasks.
spec fn aligned(
    p: Project,
    modes: Seq<ModeId>,
    times: Seq<TimeStamp>,
    ord: Seq<TaskId>,
    rs: Seq<Reservation>,
    k: int,
    r: int,
) -> bool {
    &&& rs.len() == k
    &&& forall|j: int|
        0 <= j < k ==> {
            &&& (#[trigger] rs[j]).start == times[ord[j] as int]
            &&& rs[j].duration as int == dur_of(p, modes, ord[j] as int)
            &&& rs[j].quantity as int == req_of(p, modes, ord[j] as int, r)
        }
}

/// Usage of an aligned reservation list is the summed demand of the
/// placed tasks.
proof fn lemma_usage_is_prefix(
    p: Project,
    modes: Seq<ModeId>,
    times: Seq<TimeStamp>,
    ord: Seq<TaskId>,
    rs: Seq<Reservation>,
    k: int,
    r: int,
    tau: int,
)
    requires
        aligned(p, modes, times, ord, rs, k, r),
        0 <= k <= ord.len(),
    ensures
        usage_at(rs, tau) == prefix_usage(p, modes, times, ord, k, r, tau),
    decreases k,
{
    let v = demand_fn(p, modes, times, r, tau);
    if k == 0 {
        assert(as_ints(ord).take(0) =~= Seq::<int>::empty());
    } else {
        lemma_usage_is_prefix(p, modes, times, ord, rs.drop_last(), k - 1, r, tau);
        lemma_sum_over_take_succ(as_ints(ord), k - 1, v);
        assert(as_ints(ord)[k - 1] == ord[k - 1] as int);
        let t = ord[k - 1] as int;
        assert(rs[k - 1].covers(tau) <==> (times[t] <= tau < times[t] + dur_of(p, modes, t)));
        assert(v(as_ints(ord)[k - 1]) == demand_at(p, modes, times, t, r, tau));
        assert(usage_at(rs, tau) == usage_at(rs.drop_last(), tau) + if rs[k - 1].covers(tau) {
            rs[k - 1].quantity as int
        } else {
            0
        });
    }
}

/// An order that lists each of `0..n` exactly once is, as integers, a
/// permutation in the sense the sum lemmas ask for.
proof fn lemma_as_ints_perm_props(ord: Seq<TaskId>, n: int)
    requires
        ord.len() == n,
        n <= usize::MAX,
        forall|i: int| 0 <= i < ord.len() ==> (#[trigger] ord[i]) < n,
        forall|i: int, j: int| 0 <= i < j < ord.len() ==> ord[i] != ord[j],
        forall|t: int| 0 <= t < n ==> #[trigger] ord.contains(t as usize),
    ensures
        as_ints(ord).len() == n,
        forall|i: int| 0 <= i < n ==> 0 <= #[trigger] as_ints(ord)[i] < n,
        forall|i: int, j: int| 0 <= i < j < n ==> as_ints(ord)[i] != as_ints(ord)[j],
        forall|t: int| 0 <= t < n ==> as_ints(ord).contains(t),
{
    assert forall|t: int| 0 <= t < n implies as_ints(ord).contains(t) by {
        assert(ord.contains(t as usize));
        let i = choose|i: int| 0 <= i < ord.len() && ord[i] == t as usize;
        assert(as_ints(ord)[i] == t);
    }
}

/// The duration placed so far is non-negative and bounded by the summed
/// duration of the whole project.
proof fn lemma_placed_duration_facts(p: Project, modes: Seq<ModeId>, ord: Seq<TaskId>, k: int)
    requires
        0 <= k <= ord.len(),
        ord.len() == p.n_tasks(),
        p.n_tasks() <= usize::MAX,
        forall|i: int| 0 <= i < ord.len() ==> (#[trigger] ord[i]) < p.n_tasks(),
        forall|i: int, j: int| 0 <= i < j < ord.len() ==> ord[i] != ord[j],
        forall|t: int| 0 <= t < p.n_tasks() ==> #[trigger] ord.contains(t as usize),
    ensures
        0 <= placed_duration(p, modes, ord, k),
        placed_duration(p, modes, ord, k) <= total_duration(p, modes),
{
    let v = dur_fn(p, modes);
    let s = as_ints(ord);
    assert(forall|i: int| 0 <= i < s.take(k).len() ==> v(#[trigger] s.take(k)[i]) >= 0);
    lemma_sum_over_nonneg(s.take(k), v);
    assert(forall|i: int| 0 <= i < s.len() ==> v(#[trigger] s[i]) >= 0);
    lemma_sum_over_take_le(s, k, v);
    lemma_as_ints_perm_props(ord, p.n_tasks());
    lemma_sum_over_perm(s, p.n_tasks(), v);
}

/// Demand sums only read the release times of the tasks summed over.
proof fn lemma_prefix_usage_stable(
    p: Project,
    modes: Seq<ModeId>,
    t1: Seq<TimeStamp>,
    t2: Seq<TimeStamp>,
    ord: Seq<TaskId>,
    k: int,
    r: int,
    tau: int,
)
    requires
        0 <= k <= ord.len(),
        forall|j: int| 0 <= j < k ==> t1[(#[trigger] ord[j]) as int] == t2[ord[j] as int],
    ensures
        prefix_usage(p, modes, t1, ord, k, r, tau) == prefix_usage(p, modes, t2, ord, k, r, tau),
{
    let v1 = demand_fn(p, modes, t1, r, tau);
    let v2 = demand_fn(p, modes, t2, r, tau);
    let s = as_ints(ord).take(k);
    assert forall|j: int| 0 <= j < s.len() implies v1(#[trigger] s[j]) == v2(s[j]) by {
        assert(s[j] == ord[j] as int);
        assert(t1[ord[j] as int] == t2[ord[j] as int]);
    }
    lemma_sum_over_congruent(s, v1, v2);
}

/// Whether a start fits against the placed prefix only depends on the
/// release times of that prefix.
proof fn lemma_placement_fits_stable(
    p: Project,
    modes: Seq<ModeId>,
    t1: Seq<TimeStamp>,
    t2: Seq<TimeStamp>,
    ord: Seq<TaskId>,
    k: int,
    tx: int,
)
    requires
        0 <= k <= ord.len(),
        forall|j: int| 0 <= j < k ==> t1[(#[trigger] ord[j]) as int] == t2[ord[j] as int],
    ensures
        placement_fits(p, modes, t1, ord, k, tx) == placement_fits(p, modes, t2, ord, k, tx),
{
    assert forall|r: int| 0 <= r < p.n_resources() implies (window_free(p, modes, t1, ord, k, r, tx)
        == window_free(p, modes, t2, ord, k, r, tx)) by {
        assert forall|tau: int| true implies prefix_usage(p, modes, t1, ord, k, r, tau)
            == prefix_usage(p, modes, t2, ord, k, r, tau) by {
            lemma_prefix_usage_stable(p, modes, t1, t2, ord, k, r, tau);
        }
    }
}

/// Assign every task its release time, greedily: walking the placement
/// order, each task starts no earlier than its dependencies finish, at the
/// first time from which every resource it requires has enough capacity
/// free for its whole duration, given the demands committed by the tasks
/// placed before it.  Returns the release time of every task, indexed by
/// task identifier.
///
/// The result respects precedence — a task starts no earlier than each
/// dependency's finish — and capacity: at no instant does the summed
/// demand on a resource exceed its quantity.  Each release time is also
/// the earliest that the task's dependencies and the previously placed
/// tasks admit, which pins the greedy placement down completely.
#[verifier::loop_isolation(false)]
pub fn select_greedy_release_times(
    project: &Project,
    order: &Vec<TaskId>,
    modes: &Vec<ModeId>,
) -> (times: Vec<TimeStamp>)
    requires
        project.wf(),
        is_topo_order(*project, order@),
        mode_choice_ok(*project, modes@),
        total_duration(*project, modes@) <= u32::MAX,
    ensures
        times@.len() == project.n_tasks(),
        forall|t: int|
            0 <= t < project.n_tasks() ==> #[trigger] times@[t] + dur_of(*project, modes@, t)
                <= total_duration(*project, modes@),
        forall|t: int, k: int|
            0 <= t < project.n_tasks() && 0 <= k < project.tasks@[t].deps@.len()
                ==> times@[(#[trigger] project.tasks@[t].deps@[k]) as int] + dur_of(
                    *project,
                    modes@,
                    project.tasks@[t].deps@[k] as int,
                ) <= times@[t],
        forall|r: int, tau: int|
            0 <= r < project.n_resources()
                ==> total_usage(*project, modes@, times@, r, tau) <= project.resources@[
                    r
                ].quantity,
        forall|i: int|
            0 <= i < order@.len() ==> times@[(#[trigger] order@[i]) as int] >= dep_finish(
                *project,
                modes@,
                times@,
                order@[i] as int,
            ),
        forall|i: int, t2: int|
            0 <= i < order@.len() && dep_finish(*project, modes@, times@, order@[i] as int) <= t2
                < times@[order@[i] as int] ==> !(#[trigger] placement_fits(
                *project,
                modes@,
                times@,
                order@,
                i,
                t2,
            )),
{
    let ghost p = *project;
    let ghost ms = modes@;
    let ghost ord = order@;
    let n = project.tasks.len();
    let nr = project.resources.len();

    let mut queues: Vec<ResourceQueue> = Vec::new();
    let mut r: usize = 0;
    while r < nr
        invariant
            r <= nr,
            queues@.len() == r,
            forall|r2: int|
                0 <= r2 < r ==> {
                    &&& (#[trigger] queues@[r2]).quantity == p.resources@[r2].quantity
                    &&& queues@[r2].reservations@.len() == 0
                    &&& queues@[r2].wf()
                },
        decreases nr - r,
    {
        queues.push(ResourceQueue::new(project.resources[r].quantity));
        r = r + 1;
    }

    let mut times: Vec<TimeStamp> = Vec::new();
    let mut z: usize = 0;
    while z < n
        invariant
            z <= n,
            times@.len() == z,
        decreases n - z,
    {
        times.push(0);
        z = z + 1;
    }

    let mut i: usize = 0;
    while i < n
        invariant
            i <= n,
            times@.len() == n,
            queues@.len() == nr,
            forall|r2: int|
                0 <= r2 < nr ==> {
                    &&& (#[trigger] queues@[r2]).quantity == p.resources@[r2].quantity
                    &&& queues@[r2].wf()
                    &&& aligned(p, ms, times@, ord, queues@[r2].reservations@, i as int, r2)
                },
            forall|j: int|
                0 <= j < i ==> times@[(#[trigger] ord[j]) as int] + dur_of(p, ms, ord[j] as int)
                    <= placed_duration(p, ms, ord, i as int),
            forall|j: int, k: int|
                0 <= j < i && 0 <= k < p.tasks@[ord[j] as int].deps@.len()
                    ==> times@[(#[trigger] p.tasks@[ord[j] as int].deps@[k]) as int] + dur_of(
                        p,
                        ms,
                        p.tasks@[ord[j] as int].deps@[k] as int,
                    ) <= times@[ord[j] as int],
            forall|j: int|
                0 <= j < i ==> times@[(#[trigger] ord[j]) as int] >= dep_finish(
                    p,
                    ms,
                    times@,
                    ord[j] as int,
                ),
            forall|j: int, t2: int|
                0 <= j < i && dep_finish(p, ms, times@, ord[j] as int) <= t2 < times@[ord[
                j] as int] ==> !(#[trigger] placement_fits(p, ms, times@, ord, j, t2)),
        decreases n - i,
    {
        let t = order[i];
        proof {
            assert(p.task_wf(t as int));
            lemma_placed_duration_facts(p, ms, ord, i as int);
            lemma_placed_duration_facts(p, ms, ord, i as int + 1);
            lemma_sum_over_take_succ(as_ints(ord), i as int, dur_fn(p, ms));
            assert(as_ints(ord)[i as int] == t as int);
        }
        let ghost start_cap = placed_duration(p, ms, ord, i as int);

        // Latest finish among the dependencies: the task starts no earlier.
        let deps = &project.tasks[t].deps;
        let mut df: u32 = 0;
        let mut k: usize = 0;
        while k < deps.len()
            invariant
                k <= deps@.len(),
                df as int == dep_finish_upto(p, ms, times@, t as int, k as int),
                df as int <= start_cap,
                forall|kk: int|
                    0 <= kk < k ==> times@[(#[trigger] deps@[kk]) as int] + dur_of(
                        p,
                        ms,
                        deps@[kk] as int,
                    ) <= df,
            decreases deps@.len() - k,
        {
            let dpp = deps[k];
            let mdpp = modes[dpp];
            let dur_dpp = project.tasks[dpp].modes[mdpp].duration;
            proof {
                assert(deps_before(p, ord, i as int));
                assert(ord.take(i as int).contains(deps@[k as int]));
                let j = choose|j: int|
                    0 <= j < ord.take(i as int).len() && #[trigger] ord.take(i as int)[j] == deps@[
                        k as int
                    ];
                assert(ord[j] == dpp);
                assert(times@[dpp as int] + dur_of(p, ms, dpp as int) <= start_cap);
                assert(dur_dpp as int == dur_of(p, ms, dpp as int));
            }
            let fin64 = times[dpp] as u64 + dur_dpp as u64;
            assert(fin64 <= u32::MAX);
            let fin = fin64 as u32;
            if fin > df {
                df = fin;
            }
            k = k + 1;
        }
        assert(df as int == dep_finish(p, ms, times@, t as int));

        // Fixed-point iteration of per-resource earliest-fit queries.
        let mode_idx = modes[t];
        let mode = &project.tasks[t].modes[mode_idx];
        let d = mode.duration;
        proof {
            assert(p.tasks@[t as int].modes@[mode_idx as int].wf(p.resources@));
            assert(d as int == dur_of(p, ms, t as int));
        }
        let mut start: u32 = df;
        let mut more: u8 = 1;
        while more == 1
            invariant
                more <= 1,
                df <= start,
                start as int <= start_cap,
                forall|t2: int|
                    df <= t2 < start ==> !placement_fits(p, ms, times@, ord, i as int, t2),
                more == 0 ==> forall|rj: int|
                    0 <= rj < mode.req@.len() ==> queues@[(#[trigger] mode.req@[rj]).id
                        as int].fits(start as int, d as int, mode.req@[rj].quantity as int),
            decreases start_cap - start + more,
        {
            let pass_start = start;
            let mut ri: usize = 0;
            while ri < mode.req.len()
                invariant
                    ri <= mode.req@.len(),
                    pass_start <= start,
                    start as int <= start_cap,
                    forall|t2: int|
                        df <= t2 < start ==> !placement_fits(p, ms, times@, ord, i as int, t2),
                    start == pass_start ==> forall|rj: int|
                        0 <= rj < ri ==> queues@[(#[trigger] mode.req@[rj]).id as int].fits(
                            start as int,
                            d as int,
                            mode.req@[rj].quantity as int,
                        ),
                decreases mode.req@.len() - ri,
            {
                let rq = &mode.req[ri];
                proof {
                    assert(mode.req@[ri as int].wf(p.resources@));
                }
                match queues[rq.id].earliest_fit(rq.quantity, d, start) {
                    Ok(t2) => {
                        proof {
                            let qu = queues@[rq.id as int];
                            if t2 > start {
                                lemma_req_sum_entry(mode.req@, rq.id as int, ri as int);
                                assert forall|tx: int| start <= tx < t2 implies !placement_fits(
                                    p,
                                    ms,
                                    times@,
                                    ord,
                                    i as int,
                                    tx,
                                ) by {
                                    assert(!qu.fits(tx, d as int, rq.quantity as int));
                                    let tau = choose|tau: int|
                                        tx <= tau < tx + d && !(usage_at(qu.reservations@, tau)
                                            + rq.quantity <= qu.quantity);
                                    lemma_usage_is_prefix(
                                        p,
                                        ms,
                                        times@,
                                        ord,
                                        qu.reservations@,
                                        i as int,
                                        rq.id as int,
                                        tau,
                                    );
                                    assert(!window_free(
                                        p,
                                        ms,
                                        times@,
                                        ord,
                                        i as int,
                                        rq.id as int,
                                        tx,
                                    ));
                                }
                                // the new candidate is a committed end, so it stays bounded
                                let j = choose|j: int|
                                    0 <= j < qu.reservations@.len() && t2 == (
                                    #[trigger] qu.reservations@[j]).end();
                                assert(qu.reservations@[j].start == times@[ord[j] as int]);
                                assert(t2 as int <= start_cap);
                            }
                        }
                        start = t2;
                    },
                    Err(_) => {
                        proof {
                            assert(rq.quantity <= p.resources@[rq.id as int].quantity);
                            assert(false);
                        }
                        return vstd::pervasive::unreached();
                    },
                }
                ri = ri + 1;
            }
            if start == pass_start {
                more = 0;
            }
        }

        // Commit the task's demand on every resource over its window.
        let ghost queues_before = queues@;
        let mut r2: usize = 0;
        while r2 < nr
            invariant
                r2 <= nr,
                queues@.len() == nr,
                forall|rr: int|
                    r2 <= rr < nr ==> {
                        &&& queues@[rr] == queues_before[rr]
                        &&& (#[trigger] queues@[rr]).wf()
                        &&& queues@[rr].quantity == p.resources@[rr].quantity
                        &&& aligned(p, ms, times@, ord, queues@[rr].reservations@, i as int, rr)
                    },
                forall|rj: int|
                    0 <= rj < mode.req@.len() ==> queues_before[(#[trigger] mode.req@[rj]).id
                        as int].fits(start as int, d as int, mode.req@[rj].quantity as int),
                forall|rr: int|
                    0 <= rr < r2 ==> {
                        &&& (#[trigger] queues@[rr]).quantity == p.resources@[rr].quantity
                        &&& queues@[rr].wf()
                        &&& queues@[rr].reservations@.len() == i + 1
                        &&& (forall|j: int|
                            0 <= j < i ==> queues@[rr].reservations@[j] == queues_before[
                                rr
                            ].reservations@[j])
                        &&& queues@[rr].reservations@[i as int].start == start
                        &&& queues@[rr].reservations@[i as int].duration == d
                        &&& queues@[rr].reservations@[i as int].quantity as int == req_of(
                            p,
                            ms,
                            t as int,
                            rr,
                        )
                    },
            decreases nr - r2,
        {
            let qty = mode_req_quantity(mode, r2);
            proof {
                let qu = queues@[r2 as int];
                lemma_req_sum_nonneg(mode.req@, r2 as int);
                if qty > 0 {
                    lemma_req_sum_pos_entry(mode.req@, r2 as int);
                    let e = choose|e: int|
                        0 <= e < mode.req@.len() && (#[trigger] mode.req@[e]).id == r2 as int;
                    lemma_req_sum_entry(mode.req@, r2 as int, e);
                    assert(qu.fits(start as int, d as int, mode.req@[e].quantity as int));
                }
                assert(qu.fits(start as int, d as int, qty as int));
                assert(start as int + d as int <= u32::MAX);
            }
            let queue = &mut queues[r2];
            queue.commit(start, d, qty);
            r2 = r2 + 1;
        }

        // Record the release time and carry the invariants to the next task.
        let ghost times_before = times@;
        times.set(t, start);
        proof {
            assert(!ord.take(i as int).contains(ord[i as int])) by {
                if ord.take(i as int).contains(ord[i as int]) {
                    let j = choose|j: int|
                        0 <= j < i && #[trigger] ord.take(i as int)[j] == ord[i as int];
                    assert(ord[j] == ord[i as int]);
                }
            }
            assert forall|j: int| 0 <= j < i implies times@[(#[trigger] ord[j]) as int]
                == times_before[ord[j] as int] by {
                assert(ord[j] != ord[i as int]);
            }
            assert(times@[t as int] == start);
            // the placed prefix keeps its alignment, and gains the new claim
            assert forall|r2: int| 0 <= r2 < nr implies aligned(
                p,
                ms,
                times@,
                ord,
                queues@[r2].reservations@,
                i as int + 1,
                r2,
            ) by {
                let rs_new = queues@[r2].reservations@;
                let rs_old = queues_before[r2].reservations@;
                assert(aligned(p, ms, times_before, ord, rs_old, i as int, r2));
                assert forall|j: int| 0 <= j < i + 1 implies {
                    &&& (#[trigger] rs_new[j]).start == times@[ord[j] as int]
                    &&& rs_new[j].duration as int == dur_of(p, ms, ord[j] as int)
                    &&& rs_new[j].quantity as int == req_of(p, ms, ord[j] as int, r2)
                } by {
                    if j < i {
                        assert(rs_new[j] == rs_old[j]);
                        assert(rs_old[j].start == times_before[ord[j] as int]);
                        assert(times@[ord[j] as int] == times_before[ord[j] as int]);
                    } else {
                        assert(rs_new[j].start == start);
                        assert(ord[j] == t);
                    }
                }
            }
            // dependency finishes of the placed tasks are unchanged
            assert forall|j: int| 0 <= j <= i implies dep_finish(p, ms, times@, ord[j] as int)
                == dep_finish(p, ms, times_before, ord[j] as int) by {
                assert forall|kk: int|
                    0 <= kk < p.tasks@[ord[j] as int].deps@.len() implies times@[(
                    #[trigger] p.tasks@[ord[j] as int].deps@[kk]) as int] == times_before[p.tasks@[
                    ord[j] as int].deps@[kk] as int] by {
                    assert(deps_before(p, ord, j));
                    assert(ord.take(j).contains(p.tasks@[ord[j] as int].deps@[kk]));
                    let jj = choose|jj: int|
                        0 <= jj < ord.take(j).len() && #[trigger] ord.take(j)[jj] == p.tasks@[ord[
                            j
                        ] as int].deps@[kk];
                    assert(ord[jj] == p.tasks@[ord[j] as int].deps@[kk]);
                    assert(ord[jj] != ord[i as int]);
                }
                lemma_dep_finish_stable(
                    p,
                    ms,
                    times@,
                    times_before,
                    ord[j] as int,
                    p.tasks@[ord[j] as int].deps@.len() as int,
                );
            }
            // nothing the earlier placements saw has moved
            assert forall|j: int, t2: int|
                0 <= j <= i && dep_finish(p, ms, times@, ord[j] as int) <= t2 < times@[ord[
                j] as int] implies !(#[trigger] placement_fits(p, ms, times@, ord, j, t2)) by {
                lemma_placement_fits_stable(p, ms, times@, times_before, ord, j, t2);
                if j < i {
                    assert(!placement_fits(p, ms, times_before, ord, j, t2));
                } else {
                    assert(!placement_fits(p, ms, times_before, ord, i as int, t2));
                }
            }
            // precedence, for the placed tasks and the new one alike
            assert forall|j: int, k2: int|
                0 <= j < i + 1 && 0 <= k2 < p.tasks@[ord[j] as int].deps@.len() implies times@[(
                #[trigger] p.tasks@[ord[j] as int].deps@[k2]) as int] + dur_of(
                p,
                ms,
                p.tasks@[ord[j] as int].deps@[k2] as int,
            ) <= times@[ord[j] as int] by {
                let dep = p.tasks@[ord[j] as int].deps@[k2];
                assert(deps_before(p, ord, j));
                assert(ord.take(j).contains(dep));
                let jj = choose|jj: int|
                    0 <= jj < ord.take(j).len() && #[trigger] ord.take(j)[jj] == dep;
                assert(ord[jj] == dep);
                assert(ord[jj] != ord[i as int]);
                assert(times@[dep as int] == times_before[dep as int]);
                if j < i {
                    assert(ord[j] != ord[i as int]);
                    assert(times@[ord[j] as int] == times_before[ord[j] as int]);
                } else {
                    assert(times_before[dep as int] + dur_of(p, ms, dep as int) <= df);
                }
            }
        }
        i = i + 1;
    }
    proof {
        assert forall|r2: int, tau: int| 0 <= r2 < nr implies total_usage(p, ms, times@, r2, tau)
            <= p.resources@[r2].quantity by {
            lemma_usage_is_prefix(
                p,
                ms,
                times@,
                ord,
                queues@[r2].reservations@,
                n as int,
                r2,
                tau,
            );
            lemma_as_ints_perm_props(ord, n as int);
            lemma_sum_over_perm(as_ints(ord), n as int, demand_fn(p, ms, times@, r2, tau));
            assert(as_ints(ord).take(n as int) =~= as_ints(ord));
        }
        assert forall|t: int, k: int|
            0 <= t < n && 0 <= k < p.tasks@[t].deps@.len() implies times@[(#[trigger] p.tasks@[
            t].deps@[k]) as int] + dur_of(p, ms, p.tasks@[t].deps@[k] as int) <= times@[t] by {
            assert(ord.contains(t as usize));
            let j = choose|j: int| 0 <= j < ord.len() && ord[j] == t as usize;
            assert(p.tasks@[ord[j] as int].deps@[k] == p.tasks@[t].deps@[k]);
        }
        lemma_placed_duration_facts(p, ms, ord, n as int);
        assert forall|t: int| 0 <= t < n implies #[trigger] times@[t] + dur_of(p, ms, t)
            <= total_duration(p, ms) by {
            assert(ord.contains(t as usize));
            let j = choose|j: int| 0 <= j < ord.len() && ord[j] == t as usize;
            assert(times@[ord[j] as int] + dur_of(p, ms, ord[j] as int) <= placed_duration(
                p,
                ms,
                ord,
                n as int,
            ));
        }
    }
    times
}

/// The longest duration among the first `k` modes; zero when `k == 0`.
pub open spec fn max_mode_duration_upto(modes: Seq<Mode>, k: int) -> int
    decreases k,
{
    if k <= 0 {
        0
    } else {
        let d = modes[k - 1].duration as int;
        let rest = max_mode_duration_upto(modes, k - 1);
        if d > rest {
            d
        } else {
            rest
        }
    }
}

/// The longest duration among a task's modes.
pub open spec fn max_mode_duration(modes: Seq<Mode>) -> int {
    max_mode_duration_upto(modes, modes.len() as int)
}

/// The longest mode duration of a task, as a function of the task.
pub open spec fn max_dur_fn(p: Project) -> spec_fn(int) -> int {
    |t: int| max_mode_duration(p.tasks@[t].modes@)
}

/// Summed longest duration over every task: a bound on the summed
/// duration of any mode choice, so on every time the placer assigns.
pub open spec fn max_total_duration(p: Project) -> int {
    sum_upto(p.n_tasks(), max_dur_fn(p))
}

proof fn lemma_max_mode_duration_ge(modes: Seq<Mode>, k: int, m: int)
    requires
        0 <= m < k <= modes.len(),
    ensures
        modes[m].duration <= max_mode_duration_upto(modes, k),
    decreases k,
{
    if m < k - 1 {
        lemma_max_mode_duration_ge(modes, k - 1, m);
    }
}

/// Whatever modes are chosen, their summed duration stays within the
/// summed longest durations.
proof fn lemma_total_le_max(p: Project, modes: Seq<ModeId>)
    requires
        mode_choice_ok(p, modes),
    ensures
        total_duration(p, modes) <= max_total_duration(p),
{
    assert forall|t: int| 0 <= t < p.n_tasks() implies #[trigger] dur_fn(p, modes)(t)
        <= #[trigger] max_dur_fn(p)(t) by {
        lemma_max_mode_duration_ge(
            p.tasks@[t].modes@,
            p.tasks@[t].modes@.len() as int,
            modes[t] as int,
        );
    }
    lemma_sum_upto_le(p.n_tasks(), dur_fn(p, modes), max_dur_fn(p));
}

/// One mode per task, chosen independently and uniformly at random.
fn select_random_modes(tasks: &Vec<Task>, rng: &mut RandomSource) -> (ms: Vec<ModeId>)
    requires
        forall|t: int| 0 <= t < tasks@.len() ==> (#[trigger] tasks@[t]).modes@.len() >= 1,
    ensures
        ms@.len() == tasks@.len(),
        forall|t: int| 0 <= t < tasks@.len() ==> (#[trigger] ms@[t]) < tasks@[t].modes@.len(),
{
    let mut ms: Vec<ModeId> = Vec::new();
    let mut t: usize = 0;
    while t < tasks.len()
        invariant
            forall|t2: int| 0 <= t2 < tasks@.len() ==> (#[trigger] tasks@[t2]).modes@.len() >= 1,
            t <= tasks@.len(),
            ms@.len() == t,
            forall|t2: int|
                0 <= t2 < t ==> (#[trigger] ms@[t2]) < tasks@[t2].modes@.len(),
        decreases tasks@.len() - t,
    {
        ms.push(rng.below(tasks[t].modes.len()));
        t = t + 1;
    }
    ms
}

/// The mode each nucleotide assigns, indexed by position.
pub open spec fn modes_of(g: Seq<Nucleotide>) -> Seq<ModeId> {
    g.map_values(|n: Nucleotide| n.mode)
}

/// The release time each nucleotide assigns, indexed by position.
pub open spec fn times_of(g: Seq<Nucleotide>) -> Seq<TimeStamp> {
    g.map_values(|n: Nucleotide| n.release_time)
}

/// Every task of a canonical genotype starts no earlier than each of its
/// dependencies finishes.
pub open spec fn genotype_respects_precedence(p: Project, g: Seq<Nucleotide>) -> bool {
    forall|t: int, k: int|
        0 <= t < p.n_tasks() && 0 <= k < p.tasks@[t].deps@.len() ==> times_of(g)[(
        #[trigger] p.tasks@[t].deps@[k]) as int] + dur_of(
            p,
            modes_of(g),
            p.tasks@[t].deps@[k] as int,
        ) <= times_of(g)[t]
}

/// At no instant does a canonical genotype demand more of a resource than
/// its quantity.
pub open spec fn genotype_respects_capacity(p: Project, g: Seq<Nucleotide>) -> bool {
    forall|r: int, tau: int|
        0 <= r < p.n_resources() ==> total_usage(p, modes_of(g), times_of(g), r, tau)
            <= p.resources@[r].quantity
}

impl Genotype {
    /// Initialise a genotype with randomly-selected modes and greedily
    /// assigned release times: a random precedence-consistent task order,
    /// a random mode per task, and for each task the earliest start that
    /// its dependencies and every resource's remaining capacity admit.
    /// The result is canonical and feasible: it respects precedence and
    /// never over-commits a resource.
    pub fn new_greedy(project: &Project, rng: &mut RandomSource) -> (g: Genotype)
        requires
            project.wf(),
            acyclic(*project),
            max_total_duration(*project) <= u32::MAX,
        ensures
            g.canonical(project.n_tasks()),
            crate::genotype_in_bounds(*project, g@),
            genotype_respects_precedence(*project, g@),
            genotype_respects_capacity(*project, g@),
    {
        let ghost p = *project;
        let order = match dep_order(project, rng) {
            Ok(order) => order,
            Err(_) => {
                proof {
                    assert(false);
                }
                return vstd::pervasive::unreached();
            },
        };
        proof {
            assert forall|t: int| 0 <= t < project.tasks@.len() implies (#[trigger] project.tasks@[
                t]).modes@.len() >= 1 by {
                assert(p.task_wf(t));
            }
        }
        let modes = select_random_modes(&project.tasks, rng);
        proof {
            lemma_total_le_max(p, modes@);
        }
        let times = select_greedy_release_times(project, &order, &modes);
        let n = project.tasks.len();
        let mut g = Genotype(Vec::new());
        let mut t: usize = 0;
        while t < n
            invariant
                n == p.n_tasks(),
                modes@.len() == n,
                times@.len() == n,
                t <= n,
                g@.len() == t,
                forall|i: int|
                    0 <= i < t ==> {
                        &&& (#[trigger] g@[i]).task == i
                        &&& g@[i].mode == modes@[i]
                        &&& g@[i].release_time == times@[i]
                    },
            decreases n - t,
        {
            g.0.push(Nucleotide { task: t, mode: modes[t], release_time: times[t] });
            t = t + 1;
        }
        proof {
            assert(modes_of(g@) =~= modes@);
            assert(times_of(g@) =~= times@);
            assert forall|i: int| 0 <= i < g@.len() implies {
                &&& (#[trigger] g@[i]).task < p.n_tasks()
                &&& g@[i].mode < p.tasks@[g@[i].task as int].modes@.len()
                &&& g@[i].release_time + p.tasks@[g@[i].task as int].modes@[g@[i].mode
                    as int].duration <= u32::MAX
            } by {
                assert(times@[i] + dur_of(p, modes@, i) <= total_duration(p, modes@));
            }
        }
        g
    }
}

impl Schedule {
    /// A schedule for `project` built by the greedy constructor, drawing
    /// order and modes from the given source of randomness.
    pub fn new_greedy_seeded(project: Project, rng: &mut RandomSource) -> (s: Schedule)
        requires
            project.wf(),
            acyclic(project),
            max_total_duration(project) <= u32::MAX,
        ensures
            s.project == project,
            s.genotype.canonical(project.n_tasks()),
            crate::genotype_in_bounds(project, s.genotype@),
            genotype_respects_precedence(project, s.genotype@),
            genotype_respects_capacity(project, s.genotype@),
    {
        let genotype = Genotype::new_greedy(&project, rng);
        Schedule { genotype, project }
    }

    /// A schedule for `project` built by the greedy constructor, drawing
    /// order and modes from fresh entropy.
    pub fn new_greedy(project: Project) -> (s: Schedule)
        requires
            project.wf(),
            acyclic(project),
            max_total_duration(project) <= u32::MAX,
        ensures
            s.project == project,
            s.genotype.canonical(project.n_tasks()),
            crate::genotype_in_bounds(project, s.genotype@),
            genotype_respects_precedence(project, s.genotype@),
            genotype_respects_capacity(project, s.genotype@),
    {
        let mut rng = RandomSource::from_entropy();
        Schedule::new_greedy_seeded(project, &mut rng)
    }
}

/// The finish time of a task's dependencies only reads their release
/// times.
proof fn lemma_dep_finish_stable(
    p: Project,
    modes: Seq<ModeId>,
    t1: Seq<TimeStamp>,
    t2: Seq<TimeStamp>,
    t: int,
    k: int,
)
    requires
        0 <= k <= p.tasks@[t].deps@.len(),
        forall|kk: int|
            0 <= kk < k ==> t1[(#[trigger] p.tasks@[t].deps@[kk]) as int] == t2[p.tasks@[
                t
            ].deps@[kk] as int],
    ensures
        dep_finish_upto(p, modes, t1, t, k) == dep_finish_upto(p, modes, t2, t, k),
    decreases k,
{
    if k > 0 {
        lemma_dep_finish_stable(p, modes, t1, t2, t, k - 1);
    }
}

} // verus!
