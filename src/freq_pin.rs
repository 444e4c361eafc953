use vstd::prelude::*;
use vstd::arithmetic::div_mod::*;

verus! {

/// Clock divider of timer 2.
#[derive(PartialEq, Eq, Structural, Debug, Clone, Copy)]
pub enum Prescaler {
    Direct,
    Prescale8,
    Prescale64,
    Prescale256,
    Prescale1024,
}

/// Lowest square-wave frequency that timer 2 is set up for, in Hz.
pub const MIN_FREQ: u16 = 40;

/// Highest square-wave frequency that timer 2 is set up for, in Hz.
pub const MAX_FREQ: u16 = 35000;

/// The divider chosen for `freq`, and the timer's count rate under it
/// (16 MHz divided by the divider).
pub open spec fn freq_band(freq: int) -> (Prescaler, int) {
    if freq < 200 {
        (Prescaler::Prescale1024, 15625)
    } else if freq < 1000 {
        (Prescaler::Prescale256, 62500)
    } else if freq < 4800 {
        (Prescaler::Prescale64, 250_000)
    } else {
        (Prescaler::Prescale8, 2_000_000)
    }
}

/// The timer 2 divider and compare value that toggle the output at `freq`
/// Hz in CTC mode: the compare value is the count rate over twice the
/// frequency, which always fits a byte.
pub fn freq_settings(freq: u16) -> (r: (Prescaler, u8))
    requires
        MIN_FREQ <= freq <= MAX_FREQ,
    ensures
        r.0 == freq_band(freq as int).0,
        r.1 as int == freq_band(freq as int).1 / (2 * freq as int),
{
    let (prescaler, numerator): (Prescaler, u32) = if freq < 200 {
        (Prescaler::Prescale1024, 15625)
    } else if freq < 1000 {
        (Prescaler::Prescale256, 62500)
    } else if freq < 4800 {
        (Prescaler::Prescale64, 250_000)
    } else {
        (Prescaler::Prescale8, 2_000_000)
    };
    let divisor: u32 = 2 * freq as u32;
    let low: u32 = if freq < 200 { 80 } else if freq < 1000 { 400 } else if freq < 4800 { 2000 } else { 9600 };
    proof {
        lemma_div_is_ordered_by_denominator(numerator as int, low as int, divisor as int);
        assert(numerator / low <= 255);
    }
    let reg = numerator / divisor;
    (prescaler, reg as u8)
}

} // verus!
