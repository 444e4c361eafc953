use avr_async::blinks::{pulse_duty, sos_step, MORSE_UNIT, PULSE_STEPS, SOS_STEPS};
use avr_async::freq_pin::{freq_settings, Prescaler};
use avr_async::lcd::{moving_text_frame, DISPLAY_WIDTH};

#[test]
fn sos_pattern() {
    let mut on_lengths = Vec::new();
    let mut total = 0;
    for k in 0..SOS_STEPS {
        let (on, ms) = sos_step(k);
        total += ms;
        if k < 18 {
            assert_eq!(on, k % 2 == 0);
            if on {
                on_lengths.push(ms / MORSE_UNIT);
            } else {
                assert_eq!(ms, MORSE_UNIT);
            }
        } else {
            assert_eq!((on, ms), (false, 6 * MORSE_UNIT));
        }
    }
    assert_eq!(on_lengths, vec![1, 1, 1, 3, 3, 3, 1, 1, 1]);
    assert_eq!(total, (15 + 9 + 6) * MORSE_UNIT);
    assert_eq!(sos_step(SOS_STEPS), sos_step(0));
    assert_eq!(sos_step(SOS_STEPS + 6), (true, 3 * MORSE_UNIT));
}

#[test]
fn pulse_ramp() {
    assert_eq!(pulse_duty(0), 0);
    assert_eq!(pulse_duty(255), 255);
    assert_eq!(pulse_duty(256), 254);
    assert_eq!(pulse_duty(509), 1);
    assert_eq!(pulse_duty(PULSE_STEPS), 0);
    let expected: Vec<u8> = (0..=255u8).chain((1..=254u8).rev()).collect();
    let got: Vec<u8> = (0..PULSE_STEPS).map(pulse_duty).collect();
    assert_eq!(got, expected);
}

#[test]
fn frequency_bands() {
    assert_eq!(freq_settings(40), (Prescaler::Prescale1024, 195));
    assert_eq!(freq_settings(199), (Prescaler::Prescale1024, 39));
    assert_eq!(freq_settings(200), (Prescaler::Prescale256, 156));
    assert_eq!(freq_settings(500), (Prescaler::Prescale256, 62));
    assert_eq!(freq_settings(1000), (Prescaler::Prescale64, 125));
    assert_eq!(freq_settings(4800), (Prescaler::Prescale8, 208));
    assert_eq!(freq_settings(35000), (Prescaler::Prescale8, 28));
}

fn line(s: &str) -> Vec<char> {
    s.chars().collect()
}

#[test]
fn moving_text_scrolls_back_and_forth() {
    let text: Vec<char> = "Control".chars().collect();
    assert_eq!(moving_text_frame(&text, 0), line("Control         "));
    assert_eq!(moving_text_frame(&text, 1), line(" Control        "));
    assert_eq!(moving_text_frame(&text, 9), line("         Control"));
    assert_eq!(moving_text_frame(&text, 10), line("        Control "));
    assert_eq!(moving_text_frame(&text, 17), line(" Control        "));
    assert_eq!(moving_text_frame(&text, 18), line("Control         "));
    for k in 0..40 {
        assert_eq!(moving_text_frame(&text, k).len(), DISPLAY_WIDTH);
    }
}

#[test]
fn moving_text_of_empty_and_nearly_full_lines() {
    assert_eq!(moving_text_frame(&Vec::new(), 3), line("                "));
    let text: Vec<char> = "abcdefghijklmno".chars().collect();
    assert_eq!(moving_text_frame(&text, 0), line("abcdefghijklmno "));
    assert_eq!(moving_text_frame(&text, 1), line(" abcdefghijklmno"));
    assert_eq!(moving_text_frame(&text, 2), line("abcdefghijklmno "));
}
