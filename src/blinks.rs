use vstd::prelude::*;

verus! {

/// Length of one Morse unit, in milliseconds.
pub const MORSE_UNIT: u32 = 250;

/// Steps in one SOS cycle: nine blinks of two steps each, then a pause.
pub const SOS_STEPS: usize = 19;

/// Steps in one breathing cycle: duty 0 up to 255, then 254 down to 1.
pub const PULSE_STEPS: usize = 510;

/// Milliseconds that each breathing step lasts.
pub const PULSE_STEP_MILLIS: u32 = 10;

/// Length in units of the `i`-th blink of S-O-S: short, short, short, long,
/// long, long, short, short, short.
pub open spec fn sos_factor_spec(i: int) -> u32 {
    if 3 <= i < 6 { 3 } else { 1 }
}

/// The `i`-th blink length of S-O-S, in Morse units.
pub fn sos_factor(i: usize) -> (r: u32)
    requires
        i < 9,
    ensures
        r == sos_factor_spec(i as int),
{
    if 3 <= i && i < 6 { 3 } else { 1 }
}

/// The LED state and its duration at step `k` of an SOS cycle: each blink is
/// the LED on for its length, then off for one unit; the cycle ends with six
/// units off.
pub open spec fn sos_step_spec(k: int) -> (bool, u32) {
    if k == 18 {
        (false, (6 * MORSE_UNIT) as u32)
    } else if k % 2 == 0 {
        (true, (MORSE_UNIT * sos_factor_spec(k / 2)) as u32)
    } else {
        (false, MORSE_UNIT)
    }
}

/// The LED state and how long to hold it, at step `step` of the endlessly
/// repeated SOS pattern.
pub fn sos_step(step: usize) -> (r: (bool, u32))
    ensures
        r == sos_step_spec((step % SOS_STEPS) as int),
{
    let k = step % SOS_STEPS;
    if k == 18 {
        (false, 6 * MORSE_UNIT)
    } else if k % 2 == 0 {
        (true, MORSE_UNIT * sos_factor(k / 2))
    } else {
        (false, MORSE_UNIT)
    }
}

/// The PWM duty at step `k` of a breathing cycle.
pub open spec fn pulse_duty_spec(k: int) -> u8 {
    if k < 256 { k as u8 } else { (510 - k) as u8 }
}

/// The PWM duty at step `step` of the endlessly repeated breathing ramp:
/// up from 0 to 255, then down to 1, one step every `PULSE_STEP_MILLIS`.
pub fn pulse_duty(step: usize) -> (r: u8)
    ensures
        r == pulse_duty_spec((step % PULSE_STEPS) as int),
        r as int == if step % PULSE_STEPS < 256 { (step % PULSE_STEPS) as int } else { PULSE_STEPS - step % PULSE_STEPS },
{
    let k = step % PULSE_STEPS;
    if k < 256 {
        k as u8
    } else {
        (PULSE_STEPS - k) as u8
    }
}

} // verus!
