//! Per-resource timeline: which quantities are committed over which time
//! intervals, and the earliest-fit query the greedy placer is built on.
//!
//! A resource keeps the list of reservations committed so far.  Usage at an
//! instant is the sum of the quantities whose half-open interval covers it;
//! a task ending exactly when another starts is therefore admissible.  The
//! earliest-fit query walks candidate start times: a candidate fails only
//! at an instant where usage is too high, and no start before the earliest
//! release of the reservations active at that instant can do better, so the
//! query jumps there and tries again.

use vstd::prelude::*;
use crate::load::ProjectError;
use crate::{Duration, ResourceQuantity, TimeStamp};

verus! {

/// One committed claim: `quantity` units are held throughout the half-open
/// interval `[start, start + duration)`.
#[derive(Debug, Clone, Copy, PartialEq, Eq)]
pub struct Reservation {
    pub start: TimeStamp,
    pub duration: Duration,
    pub quantity: ResourceQuantity,
}

impl Reservation {
    /// Whether the instant `t` falls inside the reserved interval.
    pub open spec fn covers(self, t: int) -> bool {
        self.start <= t < self.start + self.duration
    }

    /// First instant after the reserved interval.
    pub open spec fn end(self) -> int {
        self.start + self.duration
    }
}

/// Units of the reservations `rs` in use at instant `t`.
pub open spec fn usage_at(rs: Seq<Reservation>, t: int) -> int
    decreases rs.len(),
{
    if rs.len() == 0 {
        0
    } else {
        usage_at(rs.drop_last(), t) + if rs.last().covers(t) {
            rs.last().quantity as int
        } else {
            0
        }
    }
}

/// The timeline of one resource: its per-unit-time capacity and the
/// reservations committed against it so far.
#[derive(Debug, Clone)]
pub struct ResourceQueue {
    /// Units of the resource available during every unit of time.
    pub quantity: ResourceQuantity,
    /// The committed claims, in order of commitment.
    pub reservations: Vec<Reservation>,
}

impl ResourceQueue {
    /// Every reservation's interval stays within the timestamp range, and
    /// usage never exceeds capacity: `commit` only accepts claims that fit.
    pub open spec fn wf(self) -> bool {
        &&& forall|i: int|
            0 <= i < self.reservations@.len()
                ==> (#[trigger] self.reservations@[i]).end() <= u32::MAX
        &&& forall|t: int| usage_at(self.reservations@, t) <= self.quantity
    }

    /// `q` more units are free throughout the window `[t, t + d)`.
    pub open spec fn fits(self, t: int, d: int, q: int) -> bool {
        forall|tau: int| t <= tau < t + d ==> usage_at(self.reservations@, tau) + q <= self.quantity
    }

    /// A fresh timeline with no commitments.
    pub fn new(quantity: ResourceQuantity) -> (queue: Self)
        ensures
            queue.quantity == quantity,
            queue.reservations@ == Seq::<Reservation>::empty(),
            queue.wf(),
    {
        let queue = ResourceQueue { quantity, reservations: Vec::new() };
        proof {
            assert(queue.reservations@ =~= Seq::<Reservation>::empty());
        }
        queue
    }

    /// Units in use at instant `t`.
    fn usage_at_time(&self, t: TimeStamp) -> (u: u64)
        requires
            self.wf(),
        ensures
            u == usage_at(self.reservations@, t as int),
    {
        let mut u: u64 = 0;
        let mut i: usize = 0;
        while i < self.reservations.len()
            invariant
                self.wf(),
                i <= self.reservations@.len(),
                u == usage_at(self.reservations@.take(i as int), t as int),
            decreases self.reservations@.len() - i,
        {
            proof {
                lemma_usage_take_succ(self.reservations@, i as int, t as int);
                lemma_usage_take_le(self.reservations@, i as int + 1, t as int);
            }
            let r = &self.reservations[i];
            if r.start <= t && (t as u64) < r.start as u64 + r.duration as u64 {
                u = u + r.quantity;
            }
            i = i + 1;
        }
        proof {
            assert(self.reservations@.take(self.reservations@.len() as int)
                =~= self.reservations@);
        }
        u
    }

    /// Search the window `[t, t + d)` for an instant where usage exceeds
    /// `limit`.  Usage only rises at a reservation's start, so inspecting
    /// `t` and the starts inside the window inspects every value usage
    /// takes on the window.
    fn find_violation(&self, t: TimeStamp, d: Duration, limit: u64) -> (r: Option<TimeStamp>)
        requires
            self.wf(),
        ensures
            match r {
                Some(tau) => t <= tau && (tau as int) < t as int + d as int
                    && usage_at(self.reservations@, tau as int) > limit,
                None => forall|tau: int|
                    t <= tau < t as int + d as int
                        ==> usage_at(self.reservations@, tau) <= limit,
            },
    {
        if d == 0 {
            return None;
        }
        let u0 = self.usage_at_time(t);
        if u0 > limit {
            return Some(t);
        }
        let mut i: usize = 0;
        while i < self.reservations.len()
            invariant
                self.wf(),
                i <= self.reservations@.len(),
                usage_at(self.reservations@, t as int) <= limit,
                forall|j: int|
                    0 <= j < i && t < (#[trigger] self.reservations@[j]).start
                        && (self.reservations@[j].start as int) < t as int + d as int
                        ==> usage_at(self.reservations@, self.reservations@[j].start as int)
                            <= limit,
            decreases self.reservations@.len() - i,
        {
            let s = self.reservations[i].start;
            if t < s && (s as u64) < t as u64 + d as u64 {
                let us = self.usage_at_time(s);
                if us > limit {
                    return Some(s);
                }
            }
            i = i + 1;
        }
        proof {
            lemma_criticals_bound(self.reservations@, t as int, d as int, limit as int);
        }
        None
    }

    /// Earliest release of the reservations active at `tau`: the first
    /// instant after `tau` at which usage can have fallen.
    fn next_release(&self, tau: TimeStamp) -> (e: TimeStamp)
        requires
            self.wf(),
            usage_at(self.reservations@, tau as int) > 0,
        ensures
            tau < e,
            exists|i: int|
                0 <= i < self.reservations@.len()
                    && e == (#[trigger] self.reservations@[i]).end(),
            forall|i: int|
                0 <= i < self.reservations@.len()
                    && (#[trigger] self.reservations@[i]).covers(tau as int)
                    ==> e <= self.reservations@[i].end(),
    {
        let mut found = false;
        let mut e: TimeStamp = 0;
        let mut i: usize = 0;
        while i < self.reservations.len()
            invariant
                self.wf(),
                i <= self.reservations@.len(),
                found ==> exists|j: int|
                    0 <= j < i && (#[trigger] self.reservations@[j]).covers(tau as int)
                        && e == self.reservations@[j].end(),
                found ==> forall|j: int|
                    0 <= j < i && (#[trigger] self.reservations@[j]).covers(tau as int)
                        ==> e <= self.reservations@[j].end(),
                !found ==> forall|j: int|
                    0 <= j < i ==> !(#[trigger] self.reservations@[j]).covers(tau as int),
            decreases self.reservations@.len() - i,
        {
            let r = &self.reservations[i];
            if r.start <= tau && (tau as u64) < r.start as u64 + r.duration as u64 {
                assert(self.reservations@[i as int].end() <= u32::MAX);
                let end = r.start + r.duration;
                if !found || end < e {
                    e = end;
                    found = true;
                } else {
                    proof {
                        assert(self.reservations@[i as int].covers(tau as int));
                    }
                }
            }
            i = i + 1;
        }
        if !found {
            proof {
                lemma_usage_pos_cover(self.reservations@, tau as int);
                assert(false);
            }
            return vstd::pervasive::unreached();
        }
        proof {
            let j = choose|j: int|
                0 <= j < self.reservations@.len()
                    && (#[trigger] self.reservations@[j]).covers(tau as int)
                    && e == self.reservations@[j].end();
            assert(tau < self.reservations@[j].end());
        }
        e
    }

    /// The earliest start time at or after `earliest_allowed` from which
    /// `q` units are free for `d` consecutive units of time.  A request for
    /// more units than the resource has at all is rejected defensively;
    /// a request for zero units is answered with `earliest_allowed`
    /// itself, since nothing constrains it.
    pub fn earliest_fit(&self, q: ResourceQuantity, d: Duration, earliest_allowed: TimeStamp)
        -> (r: Result<TimeStamp, ProjectError>)
        requires
            self.wf(),
        ensures
            match r {
                Ok(t) => {
                    &&& q <= self.quantity
                    &&& earliest_allowed <= t
                    &&& self.fits(t as int, d as int, q as int)
                    &&& t == earliest_allowed || exists|i: int|
                        0 <= i < self.reservations@.len()
                            && t == (#[trigger] self.reservations@[i]).end()
                    &&& forall|t2: int|
                        earliest_allowed <= t2 < t ==> !self.fits(t2, d as int, q as int)
                },
                Err(e) => e == ProjectError::InfeasibleRequest && q > self.quantity,
            },
    {
        if q > self.quantity {
            return Err(ProjectError::InfeasibleRequest);
        }
        let limit = self.quantity - q;
        let mut cand: TimeStamp = earliest_allowed;
        loop
            invariant
                self.wf(),
                q <= self.quantity,
                limit == self.quantity - q,
                earliest_allowed <= cand,
                cand == earliest_allowed || exists|i: int|
                    0 <= i < self.reservations@.len()
                        && cand == (#[trigger] self.reservations@[i]).end(),
                forall|t2: int|
                    earliest_allowed <= t2 < cand ==> !self.fits(t2, d as int, q as int),
            decreases max_end(self.reservations@) - cand,
        {
            match self.find_violation(cand, d, limit) {
                None => {
                    proof {
                        assert forall|tau: int| cand <= tau < cand + d implies
                            usage_at(self.reservations@, tau) + q <= self.quantity by {
                            assert(usage_at(self.reservations@, tau) <= limit);
                        }
                    }
                    return Ok(cand);
                },
                Some(tau) => {
                    proof {
                        lemma_cover_bounds_max_end(self.reservations@, tau as int);
                    }
                    let e = self.next_release(tau);
                    proof {
                        lemma_usage_monotone_until(self.reservations@, tau as int, e as int);
                        assert forall|t2: int| cand <= t2 < e implies
                            !self.fits(t2, d as int, q as int) by {
                            let bad = if t2 <= tau { tau as int } else { t2 };
                            assert(usage_at(self.reservations@, bad)
                                >= usage_at(self.reservations@, tau as int));
                            assert(t2 <= bad < t2 + d);
                            assert(usage_at(self.reservations@, bad) + q > self.quantity);
                        }
                        let j = choose|i: int|
                            0 <= i < self.reservations@.len()
                                && e == (#[trigger] self.reservations@[i]).end();
                        lemma_max_end_bounds(self.reservations@);
                        assert(e <= max_end(self.reservations@));
                    }
                    cand = e;
                },
            }
        }
    }

    /// Commit a claim whose window was found free: record that `q` units
    /// are held throughout `[start, start + d)`.
    pub fn commit(&mut self, start: TimeStamp, d: Duration, q: ResourceQuantity)
        requires
            old(self).wf(),
            old(self).fits(start as int, d as int, q as int),
            start as int + d as int <= u32::MAX,
        ensures
            final(self).wf(),
            final(self).quantity == old(self).quantity,
            final(self).reservations@ == old(self).reservations@.push(
                Reservation { start, duration: d, quantity: q },
            ),
    {
        let r = Reservation { start, duration: d, quantity: q };
        self.reservations.push(r);
        proof {
            let rs = old(self).reservations@;
            assert forall|t: int| usage_at(self.reservations@, t) <= self.quantity by {
                lemma_usage_push(rs, r, t);
                if r.covers(t) {
                    assert(usage_at(rs, t) + q <= self.quantity);
                }
            }
            assert forall|i: int| 0 <= i < self.reservations@.len() implies
                (#[trigger] self.reservations@[i]).end() <= u32::MAX by {
                if i < rs.len() {
                    assert(self.reservations@[i] == rs[i]);
                    assert(rs[i].end() <= u32::MAX);
                }
            }
        }
    }
}

/// Appending a reservation adds its contribution at every instant.
proof fn lemma_usage_push(rs: Seq<Reservation>, x: Reservation, t: int)
    ensures
        usage_at(rs.push(x), t) == usage_at(rs, t) + if x.covers(t) {
            x.quantity as int
        } else {
            0
        },
{
    assert(rs.push(x).drop_last() =~= rs);
    assert(rs.push(x).last() == x);
}

/// Usage of a longer prefix adds the newly included reservation.
proof fn lemma_usage_take_succ(rs: Seq<Reservation>, k: int, t: int)
    requires
        0 <= k < rs.len(),
    ensures
        usage_at(rs.take(k + 1), t) == usage_at(rs.take(k), t) + if rs[k].covers(t) {
            rs[k].quantity as int
        } else {
            0
        },
{
    assert(rs.take(k + 1).drop_last() =~= rs.take(k));
    assert(rs.take(k + 1).last() == rs[k]);
}

/// A prefix never uses more than the whole list.
proof fn lemma_usage_take_le(rs: Seq<Reservation>, k: int, t: int)
    requires
        0 <= k <= rs.len(),
    ensures
        usage_at(rs.take(k), t) <= usage_at(rs, t),
    decreases rs.len() - k,
{
    if k == rs.len() {
        assert(rs.take(k) =~= rs);
    } else {
        lemma_usage_take_succ(rs, k, t);
        lemma_usage_take_le(rs, k + 1, t);
    }
}

/// Positive usage names at least one covering reservation.
proof fn lemma_usage_pos_cover(rs: Seq<Reservation>, t: int)
    requires
        usage_at(rs, t) > 0,
    ensures
        exists|i: int| 0 <= i < rs.len() && (#[trigger] rs[i]).covers(t),
    decreases rs.len(),
{
    if rs.len() > 0 {
        if rs.last().covers(t) {
            assert(rs[rs.len() - 1].covers(t));
        } else {
            lemma_usage_pos_cover(rs.drop_last(), t);
            let i = choose|i: int|
                0 <= i < rs.drop_last().len() && (#[trigger] rs.drop_last()[i]).covers(t);
            assert(rs[i].covers(t));
        }
    }
}

/// If every reservation starting by `tau` has already started by
/// `tau_p <= tau`, then usage at `tau` is no more than usage at `tau_p`:
/// whatever covers `tau` covers `tau_p` as well.
proof fn lemma_usage_dominated(rs: Seq<Reservation>, tau: int, tau_p: int)
    requires
        tau_p <= tau,
        forall|i: int|
            0 <= i < rs.len() && (#[trigger] rs[i]).start <= tau ==> rs[i].start <= tau_p,
    ensures
        usage_at(rs, tau) <= usage_at(rs, tau_p),
    decreases rs.len(),
{
    if rs.len() > 0 {
        assert(forall|i: int|
            0 <= i < rs.drop_last().len() && (#[trigger] rs.drop_last()[i]).start <= tau
                ==> rs.drop_last()[i].start <= tau_p);
        lemma_usage_dominated(rs.drop_last(), tau, tau_p);
        if rs.last().covers(tau) {
            assert(rs[rs.len() - 1].start <= tau);
            assert(rs.last().covers(tau_p));
        }
    }
}

/// Usage cannot fall between `tau` and the earliest release `e` of the
/// reservations active at `tau`.
proof fn lemma_usage_monotone_until(rs: Seq<Reservation>, tau: int, e: int)
    requires
        tau < e,
        forall|i: int|
            0 <= i < rs.len() && (#[trigger] rs[i]).covers(tau) ==> e <= rs[i].end(),
    ensures
        forall|t2: int| tau <= t2 < e ==> usage_at(rs, t2) >= usage_at(rs, tau),
{
    assert forall|t2: int| tau <= t2 < e implies usage_at(rs, t2) >= usage_at(rs, tau) by {
        lemma_usage_pointwise_ge(rs, tau, t2, e);
    }
}

/// Helper for `lemma_usage_monotone_until`: one instant at a time.
proof fn lemma_usage_pointwise_ge(rs: Seq<Reservation>, tau: int, t2: int, e: int)
    requires
        tau <= t2 < e,
        forall|i: int|
            0 <= i < rs.len() && (#[trigger] rs[i]).covers(tau) ==> e <= rs[i].end(),
    ensures
        usage_at(rs, t2) >= usage_at(rs, tau),
    decreases rs.len(),
{
    if rs.len() > 0 {
        assert(forall|i: int|
            0 <= i < rs.drop_last().len() && (#[trigger] rs.drop_last()[i]).covers(tau)
                ==> e <= rs.drop_last()[i].end());
        lemma_usage_pointwise_ge(rs.drop_last(), tau, t2, e);
        if rs.last().covers(tau) {
            assert(rs[rs.len() - 1].covers(tau));
            assert(rs.last().covers(t2));
        }
    }
}

/// The last of the critical instants `t` and the in-window starts that lie
/// at or before `tau`.
spec fn latest_critical(rs: Seq<Reservation>, t: int, tau: int) -> int
    decreases rs.len(),
{
    if rs.len() == 0 {
        t
    } else {
        let p = latest_critical(rs.drop_last(), t, tau);
        let s = rs.last().start as int;
        if t < s <= tau && s > p {
            s
        } else {
            p
        }
    }
}

/// The latest critical instant sits between `t` and `tau`, is `t` or some
/// reservation's start, and no start at or before `tau` lies after it.
proof fn lemma_latest_critical(rs: Seq<Reservation>, t: int, tau: int)
    requires
        t <= tau,
    ensures
        t <= latest_critical(rs, t, tau) <= tau,
        latest_critical(rs, t, tau) == t || exists|i: int|
            0 <= i < rs.len() && latest_critical(rs, t, tau) == (#[trigger] rs[i]).start,
        forall|i: int|
            0 <= i < rs.len() && (#[trigger] rs[i]).start <= tau
                ==> rs[i].start <= latest_critical(rs, t, tau),
    decreases rs.len(),
{
    if rs.len() > 0 {
        lemma_latest_critical(rs.drop_last(), t, tau);
        let p = latest_critical(rs.drop_last(), t, tau);
        let lc = latest_critical(rs, t, tau);
        if lc != t {
            if lc == rs.last().start as int {
                assert(lc == rs[rs.len() - 1].start);
            } else {
                let i = choose|i: int|
                    0 <= i < rs.drop_last().len() && p == (#[trigger] rs.drop_last()[i]).start;
                assert(lc == rs[i].start);
            }
        }
        assert forall|i: int|
            0 <= i < rs.len() && (#[trigger] rs[i]).start <= tau implies rs[i].start <= lc by {
            if i < rs.len() - 1 {
                assert(rs.drop_last()[i].start <= p);
            }
        }
    }
}

/// If usage respects `limit` at `t` and at every reservation start inside
/// the window `[t, t + d)`, it respects `limit` on the whole window.
proof fn lemma_criticals_bound(rs: Seq<Reservation>, t: int, d: int, limit: int)
    requires
        usage_at(rs, t) <= limit,
        forall|i: int|
            0 <= i < rs.len() && t < (#[trigger] rs[i]).start && rs[i].start < t + d
                ==> usage_at(rs, rs[i].start as int) <= limit,
    ensures
        forall|tau: int| t <= tau < t + d ==> usage_at(rs, tau) <= limit,
{
    assert forall|tau: int| t <= tau < t + d implies usage_at(rs, tau) <= limit by {
        let lc = latest_critical(rs, t, tau);
        lemma_latest_critical(rs, t, tau);
        lemma_usage_dominated(rs, tau, lc);
        if lc != t {
            let i = choose|i: int|
                0 <= i < rs.len() && lc == (#[trigger] rs[i]).start;
            assert(usage_at(rs, rs[i].start as int) <= limit);
        }
    }
}

/// Latest end among the reservations; zero when there are none.
spec fn max_end(rs: Seq<Reservation>) -> int
    decreases rs.len(),
{
    if rs.len() == 0 {
        0
    } else {
        let m = max_end(rs.drop_last());
        if rs.last().end() > m {
            rs.last().end()
        } else {
            m
        }
    }
}

/// Every reservation ends by `max_end`, which is never negative.
proof fn lemma_max_end_bounds(rs: Seq<Reservation>)
    ensures
        max_end(rs) >= 0,
        forall|i: int| 0 <= i < rs.len() ==> (#[trigger] rs[i]).end() <= max_end(rs),
    decreases rs.len(),
{
    if rs.len() > 0 {
        lemma_max_end_bounds(rs.drop_last());
        assert forall|i: int| 0 <= i < rs.len() implies
            (#[trigger] rs[i]).end() <= max_end(rs) by {
            if i < rs.len() - 1 {
                assert(rs.drop_last()[i].end() <= max_end(rs.drop_last()));
            }
        }
    }
}

/// An instant covered by some reservation lies before `max_end`.
proof fn lemma_cover_bounds_max_end(rs: Seq<Reservation>, tau: int)
    requires
        usage_at(rs, tau) > 0,
    ensures
        tau < max_end(rs),
{
    lemma_usage_pos_cover(rs, tau);
    let i = choose|i: int| 0 <= i < rs.len() && (#[trigger] rs[i]).covers(tau);
    lemma_max_end_bounds(rs);
    assert(rs[i].end() <= max_end(rs));
}

} // verus!
