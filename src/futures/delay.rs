use vstd::prelude::*;
use vstd::arithmetic::div_mod::*;
use vstd::multiset::Multiset;
use crate::timers::{
    after_registering, deadline_reached, holds_id, ids_unique, lemma_register_no_duplicates,
    lemma_registered_wf, reached, registered, time_modulus, HeapItem, WakersHeap,
    SCHEDULE_CAPACITY,
};

verus! {

/// Hands out task ids to suspensions, wrapping at `u16::MAX`.
pub struct DelayIds {
    /// The id that the next suspension gets.
    pub next: u16,
}

impl DelayIds {
    /// Ids start at zero.
    pub fn new() -> (r: DelayIds)
        ensures
            r.next == 0,
    {
        DelayIds { next: 0 }
    }

    /// Returns the next id and advances the counter.
    pub fn next_id(&mut self) -> (r: u16)
        ensures
            r == old(self).next,
            final(self).next == (old(self).next + 1) % 0x1_0000,
    {
        let id = self.next;
        self.next = self.next.wrapping_add(1);
        id
    }
}

/// The deadline of a suspension of `duration` milliseconds started at `now`.
pub open spec fn deadline_after(now: u32, duration: u32) -> u32 {
    ((now + duration) % time_modulus()) as u32
}

/// Durations must stay below this many milliseconds.
pub const MAX_DELAY: u32 = 0x8000_0000;

/// A single-use timed suspension. Dropping one that has registered leaves
/// its schedule entry in place until the deadline fires it.
pub struct Delay {
    /// The deadline, in milliseconds.
    pub wake_time: u32,
    /// The task id under which it registers with the schedule.
    pub id: u16,
    /// Whether it has reported ready.
    pub done: bool,
}

impl Delay {
    /// A suspension of `duration` milliseconds starting at `now`, with a
    /// fresh task id. The duration stays below half the clock's range, the
    /// window in which a wraparound-safe comparison tells past from future.
    pub fn wait_for(now: u32, duration: u32, ids: &mut DelayIds) -> (r: Delay)
        requires
            duration < MAX_DELAY,
        ensures
            r.wake_time == deadline_after(now, duration),
            r.id == old(ids).next,
            !r.done,
            final(ids).next == (old(ids).next + 1) % 0x1_0000,
    {
        let wake_time = now.wrapping_add(duration);
        let id = ids.next_id();
        Delay { wake_time, id, done: false }
    }

    /// Reports ready once the deadline is reached at `now`, and every time
    /// after that. Until then it registers `waker` with the schedule under
    /// its id and reports not ready.
    pub fn poll(&mut self, now: u32, waker: u8, wakers: &mut WakersHeap) -> (ready: bool)
        requires
            old(wakers).wf(),
        ensures
            final(wakers).wf(),
            ready == (old(self).done || reached(now, old(self).wake_time)),
            *final(self) == (Delay { done: ready, ..*old(self) }),
            ready ==> final(wakers)@ == old(wakers)@,
            !ready ==> final(wakers)@ == after_registering(old(wakers)@, old(self).wake_time, old(self).id, waker),
    {
        if self.done || deadline_reached(now, self.wake_time) {
            self.done = true;
            true
        } else {
            let _ = wakers.replace_or_push(self.wake_time, self.id, waker);
            false
        }
    }
}

/// A suspension of `duration` started at `start` reports not ready at every
/// time less than `duration` after `start`, and ready from `duration` on, as
/// long as both stay below half the range of the clock.
pub proof fn lemma_deadline(start: u32, duration: u32, elapsed: nat)
    requires
        duration < MAX_DELAY,
        elapsed < 0x8000_0000,
    ensures
        reached(((start + elapsed) % time_modulus()) as u32, deadline_after(start, duration)) <==> elapsed >= duration,
{
    let m = time_modulus();
    let now = (start + elapsed) % m;
    let dl = (start + duration) % m;
    lemma_sub_mod_noop(start + elapsed, start + duration, m);
    assert((start + elapsed) - (start + duration) == elapsed - duration);
    if elapsed >= duration {
        lemma_small_mod((elapsed - duration) as nat, m as nat);
    } else {
        lemma_fundamental_div_mod_converse(elapsed - duration, m, -1, elapsed - duration + m);
    }
}

/// The schedule after `n` polls, none of them ready, of the suspension with
/// deadline `wake_time` and id `id`, each handing over `waker`.
pub open spec fn polled_times(m: Multiset<HeapItem>, wake_time: u32, id: u16, waker: u8, n: nat) -> Multiset<HeapItem>
    decreases n,
{
    if n == 0 {
        m
    } else {
        after_registering(polled_times(m, wake_time, id, waker, (n - 1) as nat), wake_time, id, waker)
    }
}

/// Polling a suspension that is not ready `n >= 1` times leaves exactly one
/// entry for its id, the same as one poll: when the schedule had room or
/// already held its id, that entry is its own and the schedule grew by at
/// most one; when the schedule was full without its id, nothing changed.
pub proof fn lemma_repolling_registers_once(m: Multiset<HeapItem>, wake_time: u32, id: u16, waker: u8, n: nat)
    requires
        ids_unique(m),
        n >= 1,
    ensures
        polled_times(m, wake_time, id, waker, n) == after_registering(m, wake_time, id, waker),
        holds_id(m, id) || m.len() < SCHEDULE_CAPACITY ==> {
            let r = polled_times(m, wake_time, id, waker, n);
            &&& r.count((wake_time, id, waker)) == 1
            &&& forall|e: HeapItem| #[trigger] r.contains(e) && e.1 == id ==> e == (wake_time, id, waker)
            &&& r.len() == if holds_id(m, id) { m.len() } else { m.len() + 1 }
        },
        !holds_id(m, id) && m.len() >= SCHEDULE_CAPACITY ==> polled_times(m, wake_time, id, waker, n) == m,
    decreases n,
{
    lemma_register_no_duplicates(m, wake_time, id, waker, 1);
    lemma_registered_wf(m, wake_time, id, waker);
    let r = registered(m, wake_time, id, waker);
    assert(polled_times(m, wake_time, id, waker, 0) == m);
    if n > 1 {
        lemma_repolling_registers_once(m, wake_time, id, waker, (n - 1) as nat);
        if holds_id(m, id) || m.len() < SCHEDULE_CAPACITY {
            assert(r.contains((wake_time, id, waker)));
            assert(holds_id(r, id));
            lemma_register_no_duplicates(r, wake_time, id, waker, 1);
            lemma_registered_wf(r, wake_time, id, waker);
            assert(registered(r, wake_time, id, waker).count((wake_time, id, waker)) == 1);
            let w = crate::timers::item_with_id(r, id);
            assert(r.contains(w) && w.1 == id);
            assert(w == (wake_time, id, waker));
            assert(r.remove(w).insert(w) =~= r) by {
                broadcast use vstd::multiset::group_multiset_axioms;
            }
        }
    }
}

} // verus!
