//! The decisions of a run that fetches and checks one proof per cycle: which
//! cycle comes next, and when the run is over. The fetching is left to the
//! caller, which starts a cycle, does its work, and asks again.

use vstd::prelude::*;

verus! {

/// How many cycles a run has started, and how many it may start in all
/// (`None`: no bound).
#[derive(Clone, Copy, Debug, PartialEq, Eq, Structural)]
pub struct RunState {
    pub started: u64,
    pub limit: Option<u64>,
}

/// Whether a run in this state may start one more cycle.
pub open spec fn may_start(s: RunState) -> bool {
    &&& s.started < u64::MAX
    &&& match s.limit {
        Some(n) => s.started < n,
        None => true,
    }
}

impl RunState {
    /// A run that has started no cycle yet.
    pub fn new(limit: Option<u64>) -> (r: RunState)
        ensures
            r.started == 0,
            r.limit == limit,
    {
        RunState { started: 0, limit }
    }

    /// Starts the next cycle and returns its number, counting from 1, or
    /// returns `None` and leaves the state as it is once the run is over.
    /// A cycle that failed does not stop the run: only the bound does.
    pub fn start_cycle(&mut self) -> (r: Option<u64>)
        ensures
            may_start(*old(self)) ==> r == Some((old(self).started + 1) as u64),
            may_start(*old(self)) ==> final(self).started == old(self).started + 1,
            !may_start(*old(self)) ==> r is None && final(self).started == old(self).started,
            final(self).limit == old(self).limit,
    {
        if self.started == u64::MAX {
            return None;
        }
        match self.limit {
            Some(n) => {
                if self.started >= n {
                    return None;
                }
            },
            None => {},
        }
        self.started = self.started + 1;
        Some(self.started)
    }
}

} // verus!
