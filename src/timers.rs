use vstd::prelude::*;
use vstd::arithmetic::div_mod::*;
use vstd::multiset::*;
use vstd::seq_lib::*;
use heapless::binary_heap::{BinaryHeap, Min};
use crate::executor::Executor;

verus! {

/// Processor clock frequency in Hz.
pub const FREQ_CPU: u32 = 16_000_000;

pub const CLOCK_CYCLES_PER_MICROSECOND: u32 = FREQ_CPU / 1_000_000;

/// Timer 0 ticks once every `PRESCALER` clock cycles.
pub const PRESCALER: u32 = 64;

/// Timer 0 overflows every 256 of its ticks.
pub const MICROSECONDS_PER_TIMER0_OVERFLOW: u32 = PRESCALER * 256 / CLOCK_CYCLES_PER_MICROSECOND;

/// The whole number of milliseconds per timer 0 overflow.
pub const MILLIS_INC: u32 = MICROSECONDS_PER_TIMER0_OVERFLOW / 1000;

/// The fractional milliseconds per overflow, in units of 8 microseconds so
/// that they fit a byte (exact for 8 and 16 MHz clocks).
pub const FRACT_INC: u8 = (MICROSECONDS_PER_TIMER0_OVERFLOW % 1000 / 8) as u8;

/// One millisecond in units of 8 microseconds.
pub const FRACT_MAX: u8 = (1000u32 / 8) as u8;

/// Number of whole microseconds taken by `cycles` processor cycles.
pub fn clock_cycles_to_microseconds(cycles: u32) -> (r: u32)
    ensures
        r == cycles / CLOCK_CYCLES_PER_MICROSECOND,
{
    cycles / CLOCK_CYCLES_PER_MICROSECOND
}

/// The modulus of every timestamp.
pub open spec fn time_modulus() -> int {
    0x1_0000_0000
}

/// The millisecond clock advanced by the timer overflow interrupt.
pub struct Clock {
    /// Elapsed milliseconds, wrapping at `u32::MAX`.
    pub millis: u32,
    /// Fraction of a millisecond not yet counted, in units of 8 microseconds.
    pub fract: u8,
    /// Number of overflow interrupts seen, wrapping.
    pub overflows: u32,
}

impl Clock {
    /// The fractional accumulator stays below one millisecond.
    pub open spec fn wf(&self) -> bool {
        self.fract < FRACT_MAX
    }

    /// The clock after one more overflow interrupt.
    pub open spec fn ticked(self) -> Clock {
        let f = self.fract + FRACT_INC;
        let carry: int = if f >= FRACT_MAX { 1 } else { 0 };
        Clock {
            millis: ((self.millis + MILLIS_INC + carry) % time_modulus()) as u32,
            fract: (f - carry * FRACT_MAX) as u8,
            overflows: ((self.overflows + 1) % time_modulus()) as u32,
        }
    }

    /// The clock after `n` more overflow interrupts.
    pub open spec fn ticked_n(self, n: nat) -> Clock
        decreases n,
    {
        if n == 0 {
            self
        } else {
            self.ticked().ticked_n((n - 1) as nat)
        }
    }

    /// A clock reading zero.
    pub fn new() -> (r: Clock)
        ensures
            r.wf(),
            r.millis == 0,
            r.fract == 0,
            r.overflows == 0,
    {
        Clock { millis: 0, fract: 0, overflows: 0 }
    }

    /// The current time in milliseconds.
    pub fn now(&self) -> (r: u32)
        ensures
            r == self.millis,
    {
        self.millis
    }

    /// Accounts for one timer overflow: adds the whole milliseconds, and one
    /// more when the fractional part reaches a millisecond.
    pub fn tick(&mut self)
        requires
            old(self).wf(),
        ensures
            final(self).wf(),
            *final(self) == old(self).ticked(),
    {
        let mut m = self.millis.wrapping_add(MILLIS_INC);
        let mut f = self.fract + FRACT_INC;
        if f >= FRACT_MAX {
            f = f - FRACT_MAX;
            m = m.wrapping_add(1);
        }
        proof {
            assert(m == ((self.millis + MILLIS_INC + (if self.fract + FRACT_INC >= FRACT_MAX { 1int } else { 0int })) % time_modulus())) by {
                lemma_add_mod_noop(self.millis + MILLIS_INC, 1, time_modulus());
                lemma_small_mod(1, time_modulus() as nat);
            }
        }
        self.millis = m;
        self.fract = f;
        self.overflows = self.overflows.wrapping_add(1);
    }
}

/// After `n` overflow interrupts the clock has advanced by `n` whole
/// increments plus every millisecond that the fractional increments add up
/// to, modulo the counter width, and the fraction keeps the remainder.
pub proof fn lemma_ticks_closed_form(c: Clock, n: nat)
    requires
        c.wf(),
    ensures
        c.ticked_n(n).wf(),
        c.ticked_n(n).millis == (c.millis + n * MILLIS_INC + (c.fract + n * FRACT_INC) / (FRACT_MAX as int)) % time_modulus(),
        c.ticked_n(n).fract == (c.fract + n * FRACT_INC) % (FRACT_MAX as int),
        c.ticked_n(n).overflows == (c.overflows + n) % time_modulus(),
    decreases n,
{
    if n == 0 {
        lemma_small_mod(c.millis as nat, time_modulus() as nat);
        lemma_small_mod(c.fract as nat, FRACT_MAX as nat);
        lemma_small_mod(c.overflows as nat, time_modulus() as nat);
        lemma_clock_constants();
        lemma_basic_div(c.fract as int, 125);
    } else {
        let t = c.ticked();
        let k = (n - 1) as nat;
        lemma_ticks_closed_form(t, k);
        lemma_clock_constants();
        let m = time_modulus();
        let f0 = c.fract as int;
        let carry: int = if f0 + 3 >= 125 { 1 } else { 0 };
        let a = f0 + 3 * n;
        let q = a / 125;
        let r = a % 125;
        lemma_fundamental_div_mod(a, 125);
        assert(t.fract + k * 3 == a - 125 * carry);
        lemma_fundamental_div_mod_converse(a - 125 * carry, 125, q - carry, r);
        let x = c.millis + 1 + carry;
        let y = k + q - carry;
        lemma_add_mod_noop_right(y, x, m);
        let ov = c.overflows + 1;
        lemma_add_mod_noop_right(k as int, ov, m);
    }
}

/// The increments that the timer configuration yields.
pub proof fn lemma_clock_constants()
    ensures
        MILLIS_INC == 1,
        FRACT_INC == 3,
        FRACT_MAX == 125,
{
}

/// Whether `deadline` has been reached at time `now`, both read modulo
/// `2^32`: true when `now` lies at most half the counter range after
/// `deadline`.
pub open spec fn reached(now: u32, deadline: u32) -> bool {
    (now - deadline) % time_modulus() < 0x8000_0000
}

/// Wraparound-safe `now >= deadline`.
pub fn deadline_reached(now: u32, deadline: u32) -> (r: bool)
    ensures
        r == reached(now, deadline),
{
    now.wrapping_sub(deadline) < 0x8000_0000
}

/// A pending wakeup as the schedule stores it: deadline, task id and resume
/// handle. Tuples order lexicographically, the deadline first.
pub type HeapItem = (u32, u16, u8);

/// Most wakeups that can be pending at once.
pub const SCHEDULE_CAPACITY: usize = 10;

/// The bounded min-heap behind the schedule.
pub type Heap = BinaryHeap<HeapItem, Min, SCHEDULE_CAPACITY>;

#[verifier::external_type_specification]
#[verifier::external_body]
#[verifier::reject_recursive_types(T)]
#[verifier::reject_recursive_types(K)]
pub struct ExBinaryHeap<T, K, const N: usize>(BinaryHeap<T, K, N>);

#[verifier::external_type_specification]
#[verifier::external_body]
pub struct ExMin(Min);

/// The items that a heap holds.
pub uninterp spec fn heap_contents(h: Heap) -> Multiset<HeapItem>;

/// The lexicographic order of `(u32, u16, u8)`.
pub open spec fn item_le(a: HeapItem, b: HeapItem) -> bool {
    a.0 < b.0 || (a.0 == b.0 && (a.1 < b.1 || (a.1 == b.1 && a.2 <= b.2)))
}

/// `x` is held by `m` and no item of `m` orders before it.
pub open spec fn is_least(m: Multiset<HeapItem>, x: HeapItem) -> bool {
    m.contains(x) && forall|y: HeapItem| m.contains(y) ==> item_le(x, y)
}

/// Relies on `heapless::BinaryHeap::new`: the heap starts empty.
#[verifier::external_body]
fn heap_new() -> (r: Heap)
    ensures
        heap_contents(r) == Multiset::<HeapItem>::empty(),
{
    BinaryHeap::new()
}

/// Relies on `heapless::BinaryHeap::len`: the number of items held.
#[verifier::external_body]
fn heap_len(h: &Heap) -> (r: usize)
    ensures
        r == heap_contents(*h).len(),
{
    h.len()
}

/// Relies on `heapless::BinaryHeap::capacity`: the storage holds `N` items.
#[verifier::external_body]
fn heap_capacity(h: &Heap) -> (r: usize)
    ensures
        r == SCHEDULE_CAPACITY,
{
    h.capacity()
}

/// Relies on `heapless::BinaryHeap::pop`: a min-heap removes and returns its
/// least item, or nothing when empty.
#[verifier::external_body]
fn heap_pop(h: &mut Heap) -> (r: Option<HeapItem>)
    ensures
        r is None ==> heap_contents(*old(h)).len() == 0 && heap_contents(*final(h)) == heap_contents(*old(h)),
        r matches Some(x) ==> is_least(heap_contents(*old(h)), x) && heap_contents(*final(h)) == heap_contents(*old(h)).remove(x),
{
    h.pop()
}

/// Relies on `heapless::BinaryHeap::push`: the item is added unless the
/// storage is full, in which case it is handed back and the heap is unchanged.
#[verifier::external_body]
fn heap_push(h: &mut Heap, x: HeapItem) -> (r: Result<(), HeapItem>)
    ensures
        r is Ok <==> heap_contents(*old(h)).len() < SCHEDULE_CAPACITY,
        r is Ok ==> heap_contents(*final(h)) == heap_contents(*old(h)).insert(x),
        r matches Err(y) ==> y == x && heap_contents(*final(h)) == heap_contents(*old(h)),
{
    h.push(x)
}

/// A pending wakeup handed out by the schedule.
pub struct WakersHeapEntry {
    /// The deadline, in milliseconds.
    pub wake_time: u32,
    /// The task id of the suspension that registered it.
    pub id: u16,
    /// The resume handle to invoke.
    pub waker: u8,
}

impl View for WakersHeapEntry {
    type V = HeapItem;

    open spec fn view(&self) -> HeapItem {
        (self.wake_time, self.id, self.waker)
    }
}

/// The items of a sequence of entries.
pub open spec fn entry_items(s: Seq<WakersHeapEntry>) -> Seq<HeapItem> {
    s.map_values(|e: WakersHeapEntry| e@)
}

/// Whether the deadline of `entry` has been reached at `now`.
pub fn wake_time_has_passed(entry: &WakersHeapEntry, now: u32) -> (r: bool)
    ensures
        r == reached(now, entry.wake_time),
{
    deadline_reached(now, entry.wake_time)
}

/// Some item of `m` carries the task id `id`.
pub open spec fn holds_id(m: Multiset<HeapItem>, id: u16) -> bool {
    exists|e: HeapItem| m.contains(e) && e.1 == id
}

/// The item of `m` that carries `id`.
pub open spec fn item_with_id(m: Multiset<HeapItem>, id: u16) -> HeapItem {
    choose|e: HeapItem| m.contains(e) && e.1 == id
}

/// No two items of `m` share a task id.
pub open spec fn ids_unique(m: Multiset<HeapItem>) -> bool {
    &&& forall|e: HeapItem| m.count(e) <= 1
    &&& forall|a: HeapItem, b: HeapItem| m.contains(a) && m.contains(b) && a.1 == b.1 ==> a == b
}

/// `m` after registering a wakeup at `wake_time` for task `id` with handle
/// `waker`: the item of that task is replaced, or a new one is added.
pub open spec fn registered(m: Multiset<HeapItem>, wake_time: u32, id: u16, waker: u8) -> Multiset<
    HeapItem,
> {
    if holds_id(m, id) {
        m.remove(item_with_id(m, id)).insert((wake_time, id, waker))
    } else {
        m.insert((wake_time, id, waker))
    }
}

/// The schedule after a suspension that is not ready registers with it: its
/// entry is added or replaced, unless the schedule is full and holds none
/// for it, in which case the registration is dropped.
pub open spec fn after_registering(m: Multiset<HeapItem>, wake_time: u32, id: u16, waker: u8) -> Multiset<HeapItem> {
    if holds_id(m, id) || m.len() < SCHEDULE_CAPACITY {
        registered(m, wake_time, id, waker)
    } else {
        m
    }
}

/// How long ago, modulo `2^32`, deadline `deadline` was at time `now`.
pub open spec fn age(now: u32, deadline: u32) -> int {
    (now - deadline) % time_modulus()
}

/// The items of `m` whose deadlines have been reached at `now`.
pub open spec fn due(m: Multiset<HeapItem>, now: u32) -> Multiset<HeapItem> {
    m.filter(|x: HeapItem| reached(now, x.0))
}

/// The items of `m` whose deadlines have not been reached at `now`.
pub open spec fn not_due(m: Multiset<HeapItem>, now: u32) -> Multiset<HeapItem> {
    m.filter(|x: HeapItem| !reached(now, x.0))
}

/// `a` fires before `b` at `now`: its deadline is older, or the deadlines are
/// equal and `a` orders first.
pub open spec fn fires_before(a: HeapItem, b: HeapItem, now: u32) -> bool {
    age(now, a.0) > age(now, b.0) || (a.0 == b.0 && item_le(a, b))
}

/// Draining `before` at `now` left `after` and fired `fired`: every item
/// whose deadline has been reached fires, oldest deadline first, and every
/// other item stays.
pub open spec fn drained(
    before: Multiset<HeapItem>,
    after: Multiset<HeapItem>,
    fired: Seq<HeapItem>,
    now: u32,
) -> bool {
    &&& after == not_due(before, now)
    &&& fired.to_multiset() == due(before, now)
    &&& forall|i: int, j: int| 0 <= i < j < fired.len() ==> fires_before(fired[i], fired[j], now)
}

/// The age of a deadline, without the modulus.
pub proof fn lemma_age(now: u32, deadline: u32)
    ensures
        deadline <= now ==> age(now, deadline) == now - deadline,
        deadline > now ==> age(now, deadline) == now - deadline + time_modulus(),
        reached(now, deadline) <==> age(now, deadline) < 0x8000_0000,
{
    if deadline <= now {
        lemma_small_mod((now - deadline) as nat, time_modulus() as nat);
    } else {
        lemma_fundamental_div_mod_converse(now - deadline, time_modulus(), -1, now - deadline + time_modulus());
    }
}

/// Registering keeps the task ids unique and adds at most one item.
pub proof fn lemma_registered_wf(m: Multiset<HeapItem>, wake_time: u32, id: u16, waker: u8)
    requires
        ids_unique(m),
    ensures
        ids_unique(registered(m, wake_time, id, waker)),
        holds_id(m, id) ==> registered(m, wake_time, id, waker).len() == m.len(),
        !holds_id(m, id) ==> registered(m, wake_time, id, waker).len() == m.len() + 1,
{
    broadcast use group_multiset_axioms;
    let n = (wake_time, id, waker);
    if holds_id(m, id) {
        let w = item_with_id(m, id);
        assert(m.contains(w) && w.1 == id);
        let r = m.remove(w).insert(n);
        assert forall|e: HeapItem| r.count(e) <= 1 by {
            if e.1 == id {
                if m.contains(e) {
                    assert(e == w);
                }
                assert(m.remove(w).count(e) == 0);
            }
        }
        assert forall|a: HeapItem, b: HeapItem| r.contains(a) && r.contains(b) && a.1 == b.1 implies a == b by {
            if a != n {
                assert(m.remove(w).contains(a));
                assert(m.contains(a));
                if a.1 == id {
                    assert(a == w);
                }
            }
            if b != n {
                assert(m.remove(w).contains(b));
                assert(m.contains(b));
                if b.1 == id {
                    assert(b == w);
                }
            }
        }
    } else {
        let r = m.insert(n);
        assert forall|e: HeapItem| r.count(e) <= 1 by {
            if e == n {
                assert(!m.contains(n));
            }
        }
        assert forall|a: HeapItem, b: HeapItem| r.contains(a) && r.contains(b) && a.1 == b.1 implies a == b by {
            if a != n {
                assert(m.contains(a));
            }
            if b != n {
                assert(m.contains(b));
            }
        }
    }
}

/// What stays after draining keeps the task ids unique.
pub proof fn lemma_not_due_unique(m: Multiset<HeapItem>, now: u32)
    requires
        ids_unique(m),
    ensures
        ids_unique(not_due(m, now)),
{
    broadcast use group_multiset_axioms;
    let r = not_due(m, now);
    assert forall|e: HeapItem| r.count(e) <= 1 by {
        assert(m.count(e) <= 1);
    }
    assert forall|a: HeapItem, b: HeapItem| r.contains(a) && r.contains(b) && a.1 == b.1 implies a == b by {
        assert(m.contains(a) && m.contains(b));
    }
}

/// The schedule of pending timed wakeups, at most one per task id.
pub struct WakersHeap {
    heap: Heap,
}

impl View for WakersHeap {
    type V = Multiset<HeapItem>;

    closed spec fn view(&self) -> Multiset<HeapItem> {
        heap_contents(self.heap)
    }
}

impl WakersHeap {
    /// At most `SCHEDULE_CAPACITY` wakeups, one per task id.
    pub open spec fn wf(&self) -> bool {
        self@.len() <= SCHEDULE_CAPACITY && ids_unique(self@)
    }

    /// An empty schedule.
    pub fn new() -> (r: WakersHeap)
        ensures
            r.wf(),
            r@ == Multiset::<HeapItem>::empty(),
    {
        WakersHeap { heap: heap_new() }
    }

    /// The number of pending wakeups.
    pub fn len(&self) -> (r: usize)
        ensures
            r == self@.len(),
    {
        heap_len(&self.heap)
    }

    /// Whether one more wakeup can be added.
    pub fn has_capacity(&self) -> (r: bool)
        ensures
            r == (self@.len() < SCHEDULE_CAPACITY),
    {
        heap_len(&self.heap) < heap_capacity(&self.heap)
    }

    /// Takes every item out of the heap, least first.
    fn take_all(&mut self) -> (items: Vec<HeapItem>)
        ensures
            items@.to_multiset() == old(self)@,
            final(self)@ == Multiset::<HeapItem>::empty(),
            forall|a: int, b: int| 0 <= a < b < items@.len() ==> item_le(items@[a], items@[b]),
    {
        let ghost start = self@;
        let mut items: Vec<HeapItem> = Vec::new();
        proof {
            broadcast use group_multiset_axioms;
            broadcast use to_multiset_len;
            broadcast use lemma_multiset_empty_len;
            assert(items@.to_multiset().len() == 0);
            assert(self@.add(items@.to_multiset()) =~= self@);
        }
        loop
            invariant
                start == old(self)@,
                self@.add(items@.to_multiset()) == start,
                forall|a: int, b: int| 0 <= a < b < items@.len() ==> item_le(items@[a], items@[b]),
                forall|a: int, y: HeapItem| 0 <= a < items@.len() && self@.contains(y) ==> item_le(items@[a], y),
            decreases self@.len(),
        {
            let ghost before = self@;
            match heap_pop(&mut self.heap) {
                Some(x) => {
                    proof {
                        broadcast use group_multiset_axioms;
                        broadcast use to_multiset_build;
                        assert(before == self@.insert(x));
                        assert(items@.push(x).to_multiset() == items@.to_multiset().insert(x));
                        assert(self@.add(items@.push(x).to_multiset()) =~= before.add(items@.to_multiset()));
                    }
                    items.push(x);
                },
                None => {
                    proof {
                        broadcast use group_multiset_axioms;
                        broadcast use lemma_multiset_empty_len;
                        assert(self@ =~= Multiset::<HeapItem>::empty());
                        assert(self@.add(items@.to_multiset()) =~= items@.to_multiset());
                        assert(items@.to_multiset() == start);
                    }
                    return items;
                },
            }
        }
    }

    /// Pushes back items that were taken out; they fit by construction.
    fn put_all(&mut self, items: &Vec<HeapItem>)
        requires
            old(self)@ == Multiset::<HeapItem>::empty(),
            items@.len() <= SCHEDULE_CAPACITY,
        ensures
            final(self)@ == items@.to_multiset(),
    {
        let mut i: usize = 0;
        proof {
            broadcast use group_multiset_axioms;
            broadcast use to_multiset_len;
            broadcast use lemma_multiset_empty_len;
            assert(items@.take(0).len() == 0);
            assert(items@.take(0).to_multiset().len() == 0);
            assert(items@.take(0).to_multiset() =~= Multiset::<HeapItem>::empty());
        }
        while i < items.len()
            invariant
                i <= items@.len() <= SCHEDULE_CAPACITY,
                self@ == items@.take(i as int).to_multiset(),
            decreases items@.len() - i,
        {
            proof {
                broadcast use group_multiset_axioms;
                broadcast use to_multiset_len;
                assert(items@.take(i as int).len() == i);
            }
            let _ = heap_push(&mut self.heap, items[i]);
            proof {
                broadcast use to_multiset_build;
                assert(items@.take(i as int + 1) =~= items@.take(i as int).push(items@[i as int]));
            }
            i += 1;
        }
        proof {
            assert(items@.take(i as int) =~= items@);
        }
    }

    /// Registers a wakeup for task `id`: if the task already has one, its
    /// deadline and handle are replaced; otherwise a new one is added, which
    /// fails when the schedule is full.
    pub fn replace_or_push(&mut self, wake_time: u32, id: u16, waker: u8) -> (r: Result<(), ()>)
        requires
            old(self).wf(),
        ensures
            final(self).wf(),
            r is Ok <==> (holds_id(old(self)@, id) || old(self)@.len() < SCHEDULE_CAPACITY),
            r is Ok ==> final(self)@ == registered(old(self)@, wake_time, id, waker),
            r is Err ==> final(self)@ == old(self)@,
            final(self)@ == after_registering(old(self)@, wake_time, id, waker),
    {
        let ghost start = self@;
        let mut items = self.take_all();
        proof {
            broadcast use to_multiset_len;
        }
        let mut i: usize = 0;
        while i < items.len() && items[i].1 != id
            invariant
                i <= items@.len(),
                forall|j: int| 0 <= j < i ==> items@[j].1 != id,
            decreases items@.len() - i,
        {
            i += 1;
        }
        let new_item: HeapItem = (wake_time, id, waker);
        if i < items.len() {
            proof {
                broadcast use group_multiset_axioms;
                broadcast use to_multiset_contains;
                broadcast use to_multiset_update;
                let old_item = items@[i as int];
                assert(items@.contains(old_item));
                assert(start.contains(old_item));
                assert(holds_id(start, id));
                let w = item_with_id(start, id);
                assert(w == old_item);
                assert(items@.update(i as int, new_item).to_multiset() =~= start.remove(w).insert(new_item));
            }
            items.set(i, new_item);
            self.put_all(&items);
            proof {
                lemma_registered_wf(start, wake_time, id, waker);
            }
            Ok(())
        } else {
            proof {
                broadcast use to_multiset_contains;
                if holds_id(start, id) {
                    let w = item_with_id(start, id);
                    assert(items@.contains(w));
                }
            }
            self.put_all(&items);
            let res = heap_push(&mut self.heap, new_item);
            proof {
                lemma_registered_wf(start, wake_time, id, waker);
            }
            match res {
                Ok(()) => Ok(()),
                Err(_) => Err(()),
            }
        }
    }

    /// Removes every wakeup whose deadline has been reached at `now` and
    /// returns them, oldest deadline first; the others stay.
    pub fn wake_all_before(&mut self, now: u32) -> (fired: Vec<WakersHeapEntry>)
        requires
            old(self).wf(),
        ensures
            final(self).wf(),
            drained(old(self)@, final(self)@, entry_items(fired@), now),
    {
        let ghost start = self@;
        let items = self.take_all();
        let ghost n = items@.len();
        let mut fired: Vec<WakersHeapEntry> = Vec::new();
        let mut kept: Vec<HeapItem> = Vec::new();
        let ghost mut fs: Seq<HeapItem> = Seq::empty();
        proof {
            broadcast use group_multiset_axioms;
            broadcast use to_multiset_len;
            broadcast use lemma_multiset_empty_len;
            assert(entry_items(fired@) =~= fs);
            assert(items@.take(0).len() == 0);
            assert(items@.take(0).to_multiset().len() == 0);
            assert(fs.to_multiset().len() == 0);
            assert(fs.to_multiset() =~= items@.take(0).to_multiset().filter(|x: HeapItem| reached(now, x.0) && x.0 > now));
        }
        // Deadlines above `now` that are reached wrapped past zero: they are
        // the oldest, and among them the smallest is the oldest.
        let mut i: usize = 0;
        while i < items.len()
            invariant
                i <= items@.len() == n,
                n <= SCHEDULE_CAPACITY,
                forall|a: int, b: int| 0 <= a < b < items@.len() ==> item_le(items@[a], items@[b]),
                entry_items(fired@) == fs,
                fs.to_multiset() == items@.take(i as int).to_multiset().filter(|x: HeapItem| reached(now, x.0) && x.0 > now),
                forall|j: int| 0 <= j < fs.len() ==> reached(now, #[trigger] fs[j].0) && fs[j].0 > now,
                forall|j: int, k: int| 0 <= j < fs.len() && i <= k < items@.len() ==> #[trigger] item_le(fs[j], items@[k]),
                forall|j: int, k: int| 0 <= j < k < fs.len() ==> fires_before(fs[j], fs[k], now),
                fs.len() <= i,
            decreases items@.len() - i,
        {
            let x = items[i];
            proof {
                broadcast use group_multiset_axioms;
                broadcast use to_multiset_build;
                assert(items@.take(i as int + 1) =~= items@.take(i as int).push(x));
            }
            if x.0 > now && deadline_reached(now, x.0) {
                proof {
                    broadcast use group_multiset_axioms;
                    assert forall|j: int| 0 <= j < fs.len() implies fires_before(fs[j], x, now) by {
                        lemma_age(now, fs[j].0);
                        lemma_age(now, x.0);
                        assert(item_le(fs[j], items@[i as int]));
                    }
                    assert(fs.push(x).to_multiset() =~= items@.take(i as int + 1).to_multiset().filter(|x: HeapItem| reached(now, x.0) && x.0 > now));
                    assert(entry_items(fired@.push(WakersHeapEntry { wake_time: x.0, id: x.1, waker: x.2 })) =~= fs.push(x));
                    fs = fs.push(x);
                }
                fired.push(WakersHeapEntry { wake_time: x.0, id: x.1, waker: x.2 });
            } else {
                proof {
                    broadcast use group_multiset_axioms;
                    assert(fs.to_multiset() =~= items@.take(i as int + 1).to_multiset().filter(|x: HeapItem| reached(now, x.0) && x.0 > now));
                }
            }
            i += 1;
        }
        let ghost first = fs;
        proof {
            broadcast use group_multiset_axioms;
            broadcast use to_multiset_len;
            broadcast use lemma_multiset_empty_len;
            assert(items@.take(i as int) =~= items@);
            assert(items@.take(0).to_multiset().len() == 0);
            assert(items@.take(0).to_multiset() =~= Multiset::<HeapItem>::empty());
            assert(kept@.to_multiset().len() == 0);
            assert(kept@.to_multiset() =~= Multiset::<HeapItem>::empty());
            assert(kept@.to_multiset() =~= items@.take(0).to_multiset().filter(|x: HeapItem| !reached(now, x.0)));
            assert(fs.to_multiset().add(items@.take(0).to_multiset().filter(|x: HeapItem| reached(now, x.0) && x.0 <= now))
                =~= first.to_multiset());
        }
        // Then the reached deadlines up to `now`, smallest (oldest) first.
        let mut i: usize = 0;
        while i < items.len()
            invariant
                i <= items@.len() == n,
                n <= SCHEDULE_CAPACITY,
                forall|a: int, b: int| 0 <= a < b < items@.len() ==> item_le(items@[a], items@[b]),
                items@.to_multiset() == start,
                first.to_multiset() == items@.to_multiset().filter(|x: HeapItem| reached(now, x.0) && x.0 > now),
                forall|j: int| 0 <= j < first.len() ==> reached(now, #[trigger] first[j].0) && first[j].0 > now,
                first.len() <= fs.len(),
                fs.take(first.len() as int) == first,
                entry_items(fired@) == fs,
                fs.to_multiset() == first.to_multiset().add(items@.take(i as int).to_multiset().filter(|x: HeapItem| reached(now, x.0) && x.0 <= now)),
                kept@.to_multiset() == items@.take(i as int).to_multiset().filter(|x: HeapItem| !reached(now, x.0)),
                kept@.len() <= i,
                forall|j: int| first.len() <= j < fs.len() ==> reached(now, #[trigger] fs[j].0) && fs[j].0 <= now,
                forall|j: int, k: int| first.len() <= j < fs.len() && i <= k < items@.len() ==> #[trigger] item_le(fs[j], items@[k]),
                forall|j: int, k: int| 0 <= j < k < fs.len() ==> fires_before(fs[j], fs[k], now),
            decreases items@.len() - i,
        {
            let x = items[i];
            proof {
                broadcast use group_multiset_axioms;
                broadcast use to_multiset_build;
                assert(items@.take(i as int + 1) =~= items@.take(i as int).push(x));
            }
            let is_due = deadline_reached(now, x.0);
            if x.0 <= now && is_due {
                proof {
                    broadcast use group_multiset_axioms;
                    assert forall|j: int| 0 <= j < fs.len() implies fires_before(fs[j], x, now) by {
                        lemma_age(now, fs[j].0);
                        lemma_age(now, x.0);
                        if j < first.len() {
                            assert(fs[j] == first[j]);
                        } else {
                            assert(item_le(fs[j], items@[i as int]));
                        }
                    }
                    assert(fs.push(x).to_multiset() =~= first.to_multiset().add(items@.take(i as int + 1).to_multiset().filter(|x: HeapItem| reached(now, x.0) && x.0 <= now)));
                    assert(kept@.to_multiset() =~= items@.take(i as int + 1).to_multiset().filter(|x: HeapItem| !reached(now, x.0)));
                    assert(fs.push(x).take(first.len() as int) =~= fs.take(first.len() as int));
                    assert(entry_items(fired@.push(WakersHeapEntry { wake_time: x.0, id: x.1, waker: x.2 })) =~= fs.push(x));
                    fs = fs.push(x);
                }
                fired.push(WakersHeapEntry { wake_time: x.0, id: x.1, waker: x.2 });
            } else if !is_due {
                proof {
                    broadcast use group_multiset_axioms;
                    assert(kept@.push(x).to_multiset() =~= items@.take(i as int + 1).to_multiset().filter(|x: HeapItem| !reached(now, x.0)));
                    assert(fs.to_multiset() =~= first.to_multiset().add(items@.take(i as int + 1).to_multiset().filter(|x: HeapItem| reached(now, x.0) && x.0 <= now)));
                }
                kept.push(x);
            } else {
                proof {
                    broadcast use group_multiset_axioms;
                    assert(kept@.to_multiset() =~= items@.take(i as int + 1).to_multiset().filter(|x: HeapItem| !reached(now, x.0)));
                    assert(fs.to_multiset() =~= first.to_multiset().add(items@.take(i as int + 1).to_multiset().filter(|x: HeapItem| reached(now, x.0) && x.0 <= now)));
                }
            }
            i += 1;
        }
        proof {
            broadcast use group_multiset_axioms;
            assert(items@.take(i as int) =~= items@);
            assert(kept@.to_multiset() =~= not_due(start, now));
            assert(fs.to_multiset() =~= due(start, now));
            lemma_not_due_unique(start, now);
        }
        self.put_all(&kept);
        fired
    }
}

/// Handles one timer 0 overflow: advances the clock, takes from the schedule
/// every wakeup whose deadline the new time has reached, and raises the
/// executor's ready signal when any did. Returns the wakeups taken.
pub fn on_timer_overflow(clock: &mut Clock, wakers: &mut WakersHeap, executor: &mut Executor) -> (fired: Vec<WakersHeapEntry>)
    requires
        old(clock).wf(),
        old(wakers).wf(),
    ensures
        final(clock).wf(),
        *final(clock) == old(clock).ticked(),
        final(wakers).wf(),
        drained(old(wakers)@, final(wakers)@, entry_items(fired@), final(clock).millis),
        final(executor).ready == (old(executor).ready || fired@.len() > 0),
{
    clock.tick();
    let fired = wakers.wake_all_before(clock.now());
    if fired.len() > 0 {
        executor.wake();
    }
    fired
}

/// With nothing pending, draining fires nothing: an overflow interrupt then
/// leaves an idle executor idle.
pub proof fn lemma_nothing_pending_fires_nothing(after: Multiset<HeapItem>, fired: Seq<HeapItem>, now: u32)
    requires
        drained(Multiset::empty(), after, fired, now),
    ensures
        fired.len() == 0,
        after == Multiset::<HeapItem>::empty(),
{
    broadcast use group_multiset_axioms;
    broadcast use to_multiset_len;
    broadcast use lemma_multiset_empty_len;
    assert(fired.to_multiset() =~= Multiset::<HeapItem>::empty());
    assert(fired.to_multiset().len() == 0);
    assert(after =~= Multiset::<HeapItem>::empty());
}

/// Draining twice at the same time fires nothing the second time: a
/// wakeup's handle is invoked once, when its entry is removed.
pub proof fn lemma_fires_once(
    m: Multiset<HeapItem>,
    m1: Multiset<HeapItem>,
    f1: Seq<HeapItem>,
    m2: Multiset<HeapItem>,
    f2: Seq<HeapItem>,
    now: u32,
)
    requires
        drained(m, m1, f1, now),
        drained(m1, m2, f2, now),
    ensures
        f2.len() == 0,
        m2 == m1,
{
    broadcast use group_multiset_axioms;
    broadcast use to_multiset_len;
    broadcast use lemma_multiset_empty_len;
    assert(f2.to_multiset() =~= Multiset::<HeapItem>::empty());
    assert(f2.to_multiset().len() == 0);
    assert(m2 =~= m1);
}

/// Once its wakeup fires, a task no longer has an entry in the schedule.
pub proof fn lemma_fired_leave_schedule(m: Multiset<HeapItem>, m1: Multiset<HeapItem>, f1: Seq<HeapItem>, now: u32)
    requires
        ids_unique(m),
        drained(m, m1, f1, now),
    ensures
        forall|i: int| 0 <= i < f1.len() ==> !holds_id(m1, #[trigger] f1[i].1),
{
    broadcast use group_multiset_axioms;
    broadcast use to_multiset_contains;
    assert forall|i: int| 0 <= i < f1.len() implies !holds_id(m1, #[trigger] f1[i].1) by {
        let x = f1[i];
        assert(f1.contains(x));
        assert(f1.to_multiset().count(x) > 0);
        assert(m.contains(x) && reached(now, x.0));
        if holds_id(m1, x.1) {
            let e = choose|e: HeapItem| m1.contains(e) && e.1 == x.1;
            assert(m.contains(e) && !reached(now, e.0));
            assert(e == x);
        }
    }
}

/// `m` after the same registration is made `n` times.
pub open spec fn registered_times(m: Multiset<HeapItem>, wake_time: u32, id: u16, waker: u8, n: nat) -> Multiset<HeapItem>
    decreases n,
{
    if n == 0 {
        m
    } else {
        registered(registered_times(m, wake_time, id, waker, (n - 1) as nat), wake_time, id, waker)
    }
}

/// Making the same registration any positive number of times leaves exactly
/// one entry for the task: the one that a single registration leaves.
pub proof fn lemma_register_no_duplicates(m: Multiset<HeapItem>, wake_time: u32, id: u16, waker: u8, n: nat)
    requires
        ids_unique(m),
        n >= 1,
    ensures
        registered_times(m, wake_time, id, waker, n) == registered(m, wake_time, id, waker),
        registered(m, wake_time, id, waker).count((wake_time, id, waker)) == 1,
        forall|e: HeapItem| #[trigger] registered(m, wake_time, id, waker).contains(e) && e.1 == id ==> e == (wake_time, id, waker),
    decreases n,
{
    broadcast use group_multiset_axioms;
    let r = registered(m, wake_time, id, waker);
    let x = (wake_time, id, waker);
    lemma_registered_wf(m, wake_time, id, waker);
    assert(r.contains(x));
    assert(holds_id(r, id));
    let w = item_with_id(r, id);
    assert(r.contains(w) && w.1 == id);
    assert(w == x);
    assert(r.remove(x).insert(x) =~= r);
    assert(registered(r, wake_time, id, waker) == r);
    if n > 1 {
        lemma_register_no_duplicates(m, wake_time, id, waker, (n - 1) as nat);
    } else {
        assert(registered_times(m, wake_time, id, waker, 0) == m);
    }
}

} // verus!
