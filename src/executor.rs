use vstd::prelude::*;

verus! {

/// What the executor does next.
#[derive(PartialEq, Eq, Structural, Debug, Clone, Copy)]
pub enum Step {
    /// Poll the top-level task once.
    Poll,
    /// Nothing is pending: halt the processor until the next interrupt.
    Sleep,
}

/// The decisions of a single-task executor. Its one ready signal is raised by
/// every resume handle and by the executor itself at startup.
pub struct Executor {
    /// Whether a resume handle has fired since the last poll.
    pub ready: bool,
}

impl Executor {
    /// The executor after choosing its next step, and that step.
    pub open spec fn stepped(self) -> (Executor, Step) {
        (Executor { ready: false }, if self.ready { Step::Poll } else { Step::Sleep })
    }

    /// An executor whose first step polls the task.
    pub fn new() -> (r: Executor)
        ensures
            r.ready,
    {
        Executor { ready: true }
    }

    /// Invokes a resume handle: the task is polled on the next step.
    pub fn wake(&mut self)
        ensures
            final(self).ready,
    {
        self.ready = true;
    }

    /// Whether the executor would sleep on its next step.
    pub fn is_idle(&self) -> (r: bool)
        ensures
            r == !self.ready,
    {
        !self.ready
    }

    /// Chooses the next step: poll once, clearing the ready signal, when it
    /// is raised; otherwise sleep. An idle executor never polls until a
    /// resume handle fires.
    pub fn next_step(&mut self) -> (s: Step)
        ensures
            (*final(self), s) == old(self).stepped(),
            s == Step::Poll <==> old(self).ready,
            !final(self).ready,
    {
        if self.ready {
            self.ready = false;
            Step::Poll
        } else {
            Step::Sleep
        }
    }
}

/// The executor and the number of polls it made after `events`, in order:
/// `true` is a resume handle firing, `false` the executor taking a step.
pub open spec fn run_events(e: Executor, events: Seq<bool>) -> (Executor, nat)
    decreases events.len(),
{
    if events.len() == 0 {
        (e, 0)
    } else {
        let (e1, polls) = run_events(e, events.drop_last());
        if events.last() {
            (Executor { ready: true }, polls)
        } else {
            let (e2, s) = e1.stepped();
            (e2, if s == Step::Poll { polls + 1 } else { polls })
        }
    }
}

/// How many of `events` are a resume handle firing.
pub open spec fn wake_count(events: Seq<bool>) -> nat
    decreases events.len(),
{
    if events.len() == 0 {
        0
    } else {
        wake_count(events.drop_last()) + if events.last() { 1nat } else { 0nat }
    }
}

/// The executor never busy-polls: whatever the interleaving of steps and
/// fired resume handles, it polls at most once per handle fired, plus once
/// at startup when it begins ready.
pub proof fn lemma_polls_bounded_by_wakes(e: Executor, events: Seq<bool>)
    ensures
        run_events(e, events).1 + (if run_events(e, events).0.ready { 1nat } else { 0nat })
            <= (if e.ready { 1nat } else { 0nat }) + wake_count(events),
        run_events(e, events).1 <= (if e.ready { 1nat } else { 0nat }) + wake_count(events),
    decreases events.len(),
{
    if events.len() > 0 {
        lemma_polls_bounded_by_wakes(e, events.drop_last());
    }
}

} // verus!
