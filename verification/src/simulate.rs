//! Sketch of an alternative, pipeline-style resource timeline: per resource,
//! queues of waiting, started and finished fragments, with the clock
//! advanced to the earliest finish whenever capacity runs out.  For
//! non-preemptive schedules built in dependency order it agrees with the
//! reservation-list timeline that the solver uses, so only this placeholder
//! stands here.

use vstd::prelude::*;

verus! {

pub fn x(i: i32) -> (r: i32)
    requires
        i < i32::MAX,
    ensures
        r == i + 1,
{
    i + 1
}

} // verus!
