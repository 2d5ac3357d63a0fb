use vstd::prelude::*;

verus! {

/// What the manager does when the platform rejects a command.
#[derive(Clone, Copy, Debug, PartialEq, Eq, Structural)]
pub enum FailurePolicy {
    /// Apply the failing command once more before giving up.
    RetryOnce,
    /// Give up at the first failure.
    Abort,
}

/// The next step of a flush.
#[derive(Clone, Copy, Debug, PartialEq, Eq, Structural)]
pub enum FlushAction {
    /// Hand command `i` of the composition to the platform.
    Apply(usize),
    /// Every command was applied.
    Done,
    /// The flush was abandoned: the instance tree and the native tree may
    /// differ, and a full resynchronisation is needed.
    Resynchronize,
}

/// The progress of handing one composition to the platform, command by
/// command, in order.
#[derive(Clone, Copy, Debug, PartialEq, Eq, Structural)]
pub struct Flush {
    pub len: usize,
    pub current: usize,
    pub retried: bool,
    pub policy: FailurePolicy,
}

/// The state after the platform answered for the current command, and the
/// next step.
pub open spec fn flush_step(f: Flush, ok: bool) -> (Flush, FlushAction) {
    if ok {
        let next = Flush { current: (f.current + 1) as usize, retried: false, ..f };
        if f.current + 1 >= f.len {
            (next, FlushAction::Done)
        } else {
            (next, FlushAction::Apply((f.current + 1) as usize))
        }
    } else if f.policy == FailurePolicy::RetryOnce && !f.retried {
        (Flush { retried: true, ..f }, FlushAction::Apply(f.current))
    } else {
        (f, FlushAction::Resynchronize)
    }
}

impl Flush {
    pub open spec fn wf(self) -> bool {
        self.current < self.len
    }

    /// Starts flushing a composition of `len` commands: the first step.
    pub fn start(len: usize, policy: FailurePolicy) -> (r: (Flush, FlushAction))
        ensures
            r.0 == (Flush { len, current: 0, retried: false, policy }),
            len == 0 ==> r.1 == FlushAction::Done,
            len > 0 ==> r.1 == FlushAction::Apply(0),
    {
        let f = Flush { len, current: 0, retried: false, policy };
        if len == 0 {
            (f, FlushAction::Done)
        } else {
            (f, FlushAction::Apply(0))
        }
    }

    /// Takes the platform's answer for the current command and returns the
    /// next step.
    pub fn on_result(&mut self, ok: bool) -> (r: FlushAction)
        requires
            old(self).wf(),
        ensures
            (*final(self), r) == flush_step(*old(self), ok),
            r is Apply ==> final(self).wf(),
    {
        if ok {
            self.current = self.current + 1;
            self.retried = false;
            if self.current >= self.len {
                FlushAction::Done
            } else {
                FlushAction::Apply(self.current)
            }
        } else if self.policy == FailurePolicy::RetryOnce && !self.retried {
            self.retried = true;
            FlushAction::Apply(self.current)
        } else {
            FlushAction::Resynchronize
        }
    }
}

/// A flush never skips a command and never moves backwards: each step
/// applies the current command again or the one right after it, and a
/// command is applied at most twice in a row.
pub proof fn lemma_flush_in_order(f: Flush, ok: bool)
    requires
        f.wf(),
    ensures
        flush_step(f, ok).1 is Apply ==> flush_step(f, ok).1->Apply_0 == f.current
            || flush_step(f, ok).1->Apply_0 == f.current + 1,
        flush_step(f, ok).1 == FlushAction::Apply(f.current) ==> !f.retried && f.policy == FailurePolicy::RetryOnce,
{
}

} // verus!
