use avr_async::executor::{Executor, Step};
use avr_async::futures::delay::{Delay, DelayIds};
use avr_async::futures::join::Join;
use avr_async::futures::yield_now::yield_now;
use avr_async::timers::{
    clock_cycles_to_microseconds, deadline_reached, on_timer_overflow, wake_time_has_passed,
    Clock, WakersHeap, WakersHeapEntry, FRACT_INC, FRACT_MAX, MICROSECONDS_PER_TIMER0_OVERFLOW,
    MILLIS_INC, SCHEDULE_CAPACITY,
};

#[test]
fn timer_constants() {
    assert_eq!(clock_cycles_to_microseconds(64 * 256), 1024);
    assert_eq!(clock_cycles_to_microseconds(15), 0);
    assert_eq!(MICROSECONDS_PER_TIMER0_OVERFLOW, 1024);
    assert_eq!(MILLIS_INC, 1);
    assert_eq!(FRACT_INC, 3);
    assert_eq!(FRACT_MAX, 125);
}

#[test]
fn clock_one_tick() {
    let mut c = Clock::new();
    c.tick();
    assert_eq!(c.now(), 1);
    assert_eq!(c.fract, 3);
    assert_eq!(c.overflows, 1);
}

#[test]
fn clock_fraction_carries() {
    let mut c = Clock::new();
    for _ in 0..41 {
        c.tick();
    }
    assert_eq!(c.now(), 41);
    assert_eq!(c.fract, 123);
    c.tick();
    assert_eq!(c.now(), 43);
    assert_eq!(c.fract, 1);
}

#[test]
fn clock_closed_form_after_many_ticks() {
    let mut c = Clock::new();
    let n: u64 = 10_000;
    for _ in 0..n {
        c.tick();
    }
    assert_eq!(c.now() as u64, n + (3 * n) / 125);
    assert_eq!(c.fract as u64, (3 * n) % 125);
    assert_eq!(c.overflows as u64, n);
}

#[test]
fn clock_wraps_at_counter_width() {
    let mut c = Clock { millis: u32::MAX, fract: 124, overflows: u32::MAX };
    c.tick();
    assert_eq!(c.now(), 1);
    assert_eq!(c.fract, 2);
    assert_eq!(c.overflows, 0);
}

#[test]
fn deadline_comparison_is_wraparound_safe() {
    assert!(deadline_reached(10, 10));
    assert!(deadline_reached(11, 10));
    assert!(!deadline_reached(9, 10));
    assert!(deadline_reached(5, u32::MAX - 5));
    assert!(!deadline_reached(u32::MAX - 5, 5));
    let e = WakersHeapEntry { wake_time: 100, id: 1, waker: 0 };
    assert!(wake_time_has_passed(&e, 100));
    assert!(!wake_time_has_passed(&e, 99));
}

#[test]
fn schedule_capacity_boundary() {
    let mut w = WakersHeap::new();
    for id in 0..SCHEDULE_CAPACITY as u16 {
        assert!(w.has_capacity());
        assert_eq!(w.replace_or_push(1000 + id as u32, id, 0), Ok(()));
    }
    assert_eq!(w.len(), SCHEDULE_CAPACITY);
    assert!(!w.has_capacity());
    assert_eq!(w.replace_or_push(500, 99, 0), Err(()));
    assert_eq!(w.len(), SCHEDULE_CAPACITY);
    // every existing entry is still there, in deadline order
    let fired = w.wake_all_before(2000);
    assert_eq!(fired.len(), SCHEDULE_CAPACITY);
    for (k, e) in fired.iter().enumerate() {
        assert_eq!(e.id, k as u16);
        assert_eq!(e.wake_time, 1000 + k as u32);
    }
}

#[test]
fn schedule_full_still_updates_existing_task() {
    let mut w = WakersHeap::new();
    for id in 0..SCHEDULE_CAPACITY as u16 {
        w.replace_or_push(1000, id, 0).unwrap();
    }
    assert_eq!(w.replace_or_push(1500, 3, 7), Ok(()));
    assert_eq!(w.len(), SCHEDULE_CAPACITY);
    let fired = w.wake_all_before(1200);
    assert_eq!(fired.len(), SCHEDULE_CAPACITY - 1);
    assert!(fired.iter().all(|e| e.id != 3));
    let last = w.wake_all_before(1500);
    assert_eq!(last.len(), 1);
    assert_eq!((last[0].wake_time, last[0].id, last[0].waker), (1500, 3, 7));
}

#[test]
fn schedule_no_duplicate_registration() {
    let mut w = WakersHeap::new();
    for _ in 0..5 {
        assert_eq!(w.replace_or_push(300, 42, 1), Ok(()));
    }
    assert_eq!(w.len(), 1);
    assert_eq!(w.replace_or_push(300, 43, 1), Ok(()));
    assert_eq!(w.len(), 2);
}

#[test]
fn schedule_drains_in_deadline_order_and_stops() {
    let mut w = WakersHeap::new();
    w.replace_or_push(30, 1, 0).unwrap();
    w.replace_or_push(10, 2, 0).unwrap();
    w.replace_or_push(20, 3, 0).unwrap();
    w.replace_or_push(40, 4, 0).unwrap();
    let fired = w.wake_all_before(25);
    let ids: Vec<u16> = fired.iter().map(|e| e.id).collect();
    assert_eq!(ids, vec![2, 3]);
    assert_eq!(w.len(), 2);
}

#[test]
fn schedule_fires_due_wakeups_across_the_wrap() {
    let mut w = WakersHeap::new();
    w.replace_or_push(10, 0, 0).unwrap();
    w.replace_or_push(0xFFFF_FFF0, 1, 0).unwrap();
    let fired = w.wake_all_before(5);
    assert_eq!(fired.len(), 1);
    assert_eq!(fired[0].id, 1);
    assert_eq!(w.len(), 1);
    let later = w.wake_all_before(10);
    assert_eq!(later.len(), 1);
    assert_eq!(later[0].id, 0);
}

#[test]
fn schedule_fires_oldest_deadline_first_across_the_wrap() {
    let mut w = WakersHeap::new();
    w.replace_or_push(5, 4, 0).unwrap();
    w.replace_or_push(3, 3, 0).unwrap();
    w.replace_or_push(0xFFFF_FFFA, 2, 0).unwrap();
    w.replace_or_push(0xFFFF_FFF0, 1, 0).unwrap();
    w.replace_or_push(6, 5, 0).unwrap();
    w.replace_or_push(0x8000_0005, 6, 0).unwrap();
    let fired = w.wake_all_before(5);
    let ids: Vec<u16> = fired.iter().map(|e| e.id).collect();
    assert_eq!(ids, vec![1, 2, 3, 4]);
    assert_eq!(w.len(), 2);
}

#[test]
fn overflow_interrupt_fires_wrapped_deadline() {
    let mut c = Clock { millis: 4, fract: 0, overflows: 0 };
    let mut w = WakersHeap::new();
    let mut e = Executor::new();
    assert_eq!(e.next_step(), Step::Poll);
    w.replace_or_push(10, 0, 0).unwrap();
    w.replace_or_push(0xFFFF_FFF0, 1, 0).unwrap();
    let fired = on_timer_overflow(&mut c, &mut w, &mut e);
    assert_eq!(c.now(), 5);
    assert_eq!(fired.len(), 1);
    assert_eq!(fired[0].wake_time, 0xFFFF_FFF0);
    assert_eq!(w.len(), 1);
    assert_eq!(e.next_step(), Step::Poll);
}

#[test]
fn schedule_fires_once() {
    let mut w = WakersHeap::new();
    w.replace_or_push(10, 1, 0).unwrap();
    assert_eq!(w.wake_all_before(10).len(), 1);
    assert_eq!(w.wake_all_before(10).len(), 0);
    assert_eq!(w.wake_all_before(11).len(), 0);
    assert_eq!(w.len(), 0);
}

#[test]
fn overflow_interrupt_fires_due_wakeups() {
    let mut c = Clock::new();
    let mut w = WakersHeap::new();
    let mut e = Executor::new();
    assert_eq!(e.next_step(), Step::Poll);
    w.replace_or_push(3, 9, 0).unwrap();
    assert_eq!(on_timer_overflow(&mut c, &mut w, &mut e).len(), 0);
    assert_eq!(on_timer_overflow(&mut c, &mut w, &mut e).len(), 0);
    assert!(e.is_idle());
    let fired = on_timer_overflow(&mut c, &mut w, &mut e);
    assert_eq!(c.now(), 3);
    assert_eq!(fired.len(), 1);
    assert_eq!(fired[0].id, 9);
    assert_eq!(w.len(), 0);
    assert_eq!(e.next_step(), Step::Poll);
}

#[test]
fn idle_executor_stays_idle_without_pending_wakeups() {
    let mut c = Clock::new();
    let mut w = WakersHeap::new();
    let mut e = Executor::new();
    assert_eq!(e.next_step(), Step::Poll);
    for _ in 0..1000 {
        assert_eq!(on_timer_overflow(&mut c, &mut w, &mut e).len(), 0);
        assert_eq!(e.next_step(), Step::Sleep);
    }
}

#[test]
fn delay_ids_wrap() {
    let mut ids = DelayIds { next: u16::MAX };
    assert_eq!(ids.next_id(), u16::MAX);
    assert_eq!(ids.next_id(), 0);
}

#[test]
fn delay_deadline_and_registration() {
    let mut ids = DelayIds::new();
    let mut w = WakersHeap::new();
    let mut d = Delay::wait_for(100, 50, &mut ids);
    assert_eq!(d.wake_time, 150);
    assert_eq!(d.id, 0);
    assert_eq!(ids.next, 1);
    for now in [100, 120, 149] {
        assert!(!d.poll(now, 0, &mut w));
    }
    assert_eq!(w.len(), 1);
    assert!(d.poll(150, 0, &mut w));
    assert!(d.poll(151, 0, &mut w));
    // a completed suspension stays completed, even half a counter range later
    assert!(d.poll(150u32.wrapping_add(0x8000_0001), 0, &mut w));
}

#[test]
fn delay_across_counter_wrap() {
    let mut ids = DelayIds::new();
    let mut w = WakersHeap::new();
    let mut d = Delay::wait_for(u32::MAX - 10, 20, &mut ids);
    assert_eq!(d.wake_time, 9);
    assert!(!d.poll(u32::MAX, 0, &mut w));
    assert!(!d.poll(8, 0, &mut w));
    assert!(d.poll(9, 0, &mut w));
}

#[test]
fn delay_with_full_schedule_is_dropped() {
    let mut ids = DelayIds { next: 100 };
    let mut w = WakersHeap::new();
    for id in 0..SCHEDULE_CAPACITY as u16 {
        w.replace_or_push(1000, id, 0).unwrap();
    }
    let mut d = Delay::wait_for(0, 10, &mut ids);
    assert!(!d.poll(0, 0, &mut w));
    assert_eq!(w.len(), SCHEDULE_CAPACITY);
    assert_eq!(w.wake_all_before(20).len(), 0);
}

#[test]
fn yield_spans_one_pass() {
    let mut e = Executor::new();
    assert_eq!(e.next_step(), Step::Poll);
    let mut y = yield_now();
    assert!(!y.poll(&mut e));
    assert_eq!(e.next_step(), Step::Poll);
    assert!(y.poll(&mut e));
    assert_eq!(e.next_step(), Step::Sleep);
}

#[test]
fn yield_loop_yields_n_times() {
    let mut e = Executor::new();
    let n = 7;
    let mut pending = 0;
    let mut passes = 0;
    let mut done = 0;
    let mut y = yield_now();
    while done < n {
        assert_eq!(e.next_step(), Step::Poll);
        passes += 1;
        if y.poll(&mut e) {
            done += 1;
            y = yield_now();
            if done < n {
                assert!(!y.poll(&mut e));
                pending += 1;
            }
        } else {
            pending += 1;
        }
    }
    assert_eq!(pending, n);
    assert_eq!(passes, n + 1);
    assert_eq!(e.next_step(), Step::Sleep);
}

#[test]
fn executor_idles_until_woken() {
    let mut e = Executor::new();
    assert!(!e.is_idle());
    assert_eq!(e.next_step(), Step::Poll);
    assert!(e.is_idle());
    for _ in 0..5 {
        assert_eq!(e.next_step(), Step::Sleep);
    }
    e.wake();
    assert_eq!(e.next_step(), Step::Poll);
    assert_eq!(e.next_step(), Step::Sleep);
}

#[test]
fn join_completes_with_last_branch() {
    let completes_at = [2u32, 5u32];
    let mut j = Join::new(2);
    let mut polls = [0u32; 2];
    let mut finished_at = None;
    for pass in 1..=8u32 {
        let mut ready = vec![false; 2];
        let order = j.pending_branches();
        assert_eq!(order, (0..2).filter(|&i| j.needs_poll(i)).collect::<Vec<_>>());
        if pass <= 2 {
            assert_eq!(order, vec![0, 1]);
        } else if pass <= 5 {
            assert_eq!(order, vec![1]);
        }
        for i in order {
            polls[i] += 1;
            ready[i] = polls[i] >= completes_at[i];
        }
        let complete = j.pass(&ready);
        assert_eq!(complete, pass >= 5);
        if complete && finished_at.is_none() {
            finished_at = Some(pass);
        }
    }
    assert_eq!(finished_at, Some(5));
    assert_eq!(polls, [2, 5]);
    assert!(j.is_complete());
}

#[test]
fn join_of_nothing_is_complete() {
    let mut j = Join::new(0);
    assert!(j.is_complete());
    assert!(j.pass(&vec![]));
}
