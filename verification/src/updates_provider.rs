//! How many stream connections to attempt: the provider opens the requested
//! number of streams, giving up after a fixed number of failed attempts.
use vstd::prelude::*;

verus! {

/// How many failed connection attempts are tolerated.
pub const CONNECT_RETRIES: u32 = 5;

/// How the connection attempts ended.
#[derive(Debug, Clone, Copy, PartialEq, Eq, Structural)]
pub enum ConnectOutcome {
    /// No stream could be opened.
    NoConnections,
    /// Fewer streams than requested are open; the provider goes on with them.
    Partial { established: usize },
    /// Every requested stream is open.
    Complete,
}

/// The progress of opening streams.
pub struct ConnectPlan {
    wanted: usize,
    established: usize,
    retries_left: u32,
}

impl ConnectPlan {
    /// How many streams were requested.
    pub closed spec fn wanted_count(self) -> nat {
        self.wanted as nat
    }

    /// How many streams are open.
    pub closed spec fn established_count(self) -> nat {
        self.established as nat
    }

    /// How many more failures are tolerated.
    pub closed spec fn retries_count(self) -> nat {
        self.retries_left as nat
    }

    /// The plan never counts more open streams than were requested.
    pub closed spec fn wf(self) -> bool {
        self.established <= self.wanted
    }

    /// An upper bound on the attempts still to come.
    pub open spec fn attempts_left(self) -> int {
        (self.wanted_count() - self.established_count()) + self.retries_count()
    }

    /// Starts with no stream open.
    pub fn new(wanted: usize) -> (p: ConnectPlan)
        ensures
            p.wf(),
            p.wanted_count() == wanted,
            p.established_count() == 0,
            p.retries_count() == CONNECT_RETRIES,
            p.attempts_left() == wanted + CONNECT_RETRIES,
    {
        ConnectPlan { wanted, established: 0, retries_left: CONNECT_RETRIES }
    }

    /// Whether another connection should be attempted: streams are missing
    /// and failures are still tolerated.
    pub fn should_connect(&self) -> (r: bool)
        requires
            self.wf(),
        ensures
            r == (self.established_count() < self.wanted_count() && self.retries_count() > 0),
            r ==> self.attempts_left() > 0,
    {
        self.established < self.wanted && self.retries_left > 0
    }

    /// Counts a stream that was opened.
    pub fn record_success(&mut self)
        requires
            old(self).wf(),
            old(self).established_count() < old(self).wanted_count(),
        ensures
            final(self).wf(),
            final(self).wanted_count() == old(self).wanted_count(),
            final(self).established_count() == old(self).established_count() + 1,
            final(self).retries_count() == old(self).retries_count(),
            final(self).attempts_left() == old(self).attempts_left() - 1,
    {
        self.established = self.established + 1;
    }

    /// Counts a failed attempt.
    pub fn record_failure(&mut self)
        requires
            old(self).wf(),
            old(self).retries_count() > 0,
        ensures
            final(self).wf(),
            final(self).wanted_count() == old(self).wanted_count(),
            final(self).established_count() == old(self).established_count(),
            final(self).retries_count() == old(self).retries_count() - 1,
            final(self).attempts_left() == old(self).attempts_left() - 1,
    {
        self.retries_left = self.retries_left - 1;
    }

    /// How many streams are open.
    pub fn established(&self) -> (n: usize)
        ensures
            n == self.established_count(),
    {
        self.established
    }

    /// How the attempts ended.
    pub fn outcome(&self) -> (r: ConnectOutcome)
        requires
            self.wf(),
        ensures
            self.established_count() == 0 ==> r == ConnectOutcome::NoConnections,
            0 < self.established_count() < self.wanted_count() ==> r == (ConnectOutcome::Partial {
                established: self.established_count() as usize,
            }),
            0 < self.established_count() && self.established_count() == self.wanted_count() ==> r
                == ConnectOutcome::Complete,
    {
        if self.established == 0 {
            ConnectOutcome::NoConnections
        } else if self.established < self.wanted {
            ConnectOutcome::Partial { established: self.established }
        } else {
            ConnectOutcome::Complete
        }
    }
}

/// The attempt budget of a plan is never negative. Since a new plan starts
/// with the requested number of streams plus the tolerated failures, every
/// recorded attempt spends one unit, and no attempt is advised without one,
/// no more attempts than that are ever made.
pub proof fn lemma_attempt_budget_never_negative(p: ConnectPlan)
    requires
        p.wf(),
    ensures
        p.attempts_left() >= 0,
{
}

} // verus!
