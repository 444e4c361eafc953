//! A cooperative, allocation-free async runtime for a single-core
//! microcontroller: an interrupt-driven millisecond clock, a bounded schedule
//! of timed wakeups, timed and yielding suspensions, an N-way join and the
//! executor's ready/idle decisions; plus the step functions of the blink,
//! frequency-output and scrolling-text routines that run on it.
pub mod blinks;
pub mod executor;
pub mod freq_pin;
pub mod futures;
pub mod lcd;
pub mod timers;
