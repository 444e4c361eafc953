use vstd::prelude::*;
use crate::executor::{Executor, Step};

verus! {

/// A suspension that lasts exactly one scheduling pass.
pub struct YieldNow {
    /// Whether the first poll has happened.
    pub yielded: bool,
}

/// A yield that has not been polled.
pub open spec fn fresh_yield() -> YieldNow {
    YieldNow { yielded: false }
}

/// A fresh yield.
pub fn yield_now() -> (r: YieldNow)
    ensures
        r == fresh_yield(),
{
    YieldNow { yielded: false }
}

impl YieldNow {
    /// The yield and the executor after one poll, and whether it was ready.
    pub open spec fn polled(self, e: Executor) -> (YieldNow, Executor, bool) {
        if self.yielded {
            (self, e, true)
        } else {
            (YieldNow { yielded: true }, Executor { ready: true }, false)
        }
    }

    /// The first poll invokes the task's own resume handle and reports not
    /// ready; every later poll reports ready.
    pub fn poll(&mut self, executor: &mut Executor) -> (ready: bool)
        ensures
            (*final(self), *final(executor), ready) == old(self).polled(*old(executor)),
            ready == old(self).yielded,
    {
        if self.yielded {
            true
        } else {
            self.yielded = true;
            executor.wake();
            false
        }
    }
}

/// A fresh yield awaited inside a pass reports not ready once, leaves the
/// executor ready so that its very next step polls again instead of
/// sleeping, and from then on reports ready whatever state the executor is
/// in: each yield awaited hands control back exactly once, so awaiting it `n`
/// times in a row yields `n` times.
pub proof fn lemma_yield_one_pass(e: Executor)
    ensures
        ({
            let (y1, e1, first) = fresh_yield().polled(e);
            let (e2, s) = e1.stepped();
            let (y2, e3, second) = y1.polled(e2);
            !first && s == Step::Poll && second && e3 == e2
        }),
        forall|later: Executor| #![auto] fresh_yield().polled(e).0.polled(later) == (fresh_yield().polled(e).0, later, true),
{
}

/// One poll of a task that still has `k` yields to await, `y` being the one
/// it awaits now: the task's next state, the executor, and whether the task
/// completed. A yield that completes is followed at once by the next one.
pub open spec fn yield_loop_poll(k: nat, y: YieldNow, e: Executor) -> (nat, YieldNow, Executor, bool)
    decreases k,
{
    if k == 0 {
        (0, y, e, true)
    } else {
        let (y1, e1, ready) = y.polled(e);
        if !ready {
            (k, y1, e1, false)
        } else {
            yield_loop_poll((k - 1) as nat, fresh_yield(), e1)
        }
    }
}

/// The task awaiting `n` yields in a row, polled once with each executor of
/// `es` in turn: its state and the result of each poll.
pub open spec fn yield_loop_run(n: nat, es: Seq<Executor>) -> (nat, YieldNow, Seq<bool>)
    decreases es.len(),
{
    if es.len() == 0 {
        (n, fresh_yield(), Seq::empty())
    } else {
        let (k, y, results) = yield_loop_run(n, es.drop_last());
        let (k1, y1, e1, ready) = yield_loop_poll(k, y, es.last());
        (k1, y1, results.push(ready))
    }
}

/// A task that awaits `yield_now()` `n` times in a row reports not ready on
/// its first `n` polls and completes on poll `n + 1`, whatever the executor
/// does in between: it hands control back exactly `n` times.
pub proof fn lemma_yield_loop(n: nat, es: Seq<Executor>)
    requires
        es.len() <= n + 1,
    ensures
        yield_loop_run(n, es).2.len() == es.len(),
        forall|i: int| 0 <= i < es.len() ==> yield_loop_run(n, es).2[i] == (i == n),
        1 <= es.len() <= n ==> yield_loop_run(n, es).0 == n - es.len() + 1 && yield_loop_run(n, es).1.yielded,
        es.len() == 0 ==> yield_loop_run(n, es).0 == n && !yield_loop_run(n, es).1.yielded,
    decreases es.len(),
{
    if es.len() > 0 {
        let prev = es.drop_last();
        lemma_yield_loop(n, prev);
        let (k, y, results) = yield_loop_run(n, prev);
        let e = es.last();
        if k >= 1 && y.yielded {
            let (y1, e1, r) = y.polled(e);
            assert(r);
            if k >= 2 {
                assert(yield_loop_poll((k - 1) as nat, fresh_yield(), e1).3 == false);
            } else {
                assert(yield_loop_poll(0, fresh_yield(), e1).3);
            }
        }
        let results2 = yield_loop_run(n, es).2;
        assert(results2 == results.push(yield_loop_poll(k, y, e).3));
        assert forall|i: int| 0 <= i < es.len() implies results2[i] == (i == n) by {
            if i < prev.len() {
                assert(results2[i] == results[i]);
            }
        }
    }
}

} // verus!
