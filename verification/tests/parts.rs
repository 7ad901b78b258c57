//! Component-level behaviour: the bounded wait, the bit sampler and the
//! byte assembler on scripted lines.

use dht_frame::error::DhtError;
use dht_frame::read::{read_bit, read_byte, wait_until_timeout};
use dht_frame::sim::{SimDelay, SimLine};

type Fault = u8;
type Resp = Result<bool, Fault>;

fn push_bit_pulses(b: bool, script: &mut Vec<Resp>) {
    script.push(Ok(true));
    script.push(Ok(b));
    script.push(Ok(false));
}

fn push_byte_pulses(v: u8, script: &mut Vec<Resp>) {
    for i in 0..8 {
        push_bit_pulses(v & (0x80u8 >> i) != 0, script);
    }
}

#[test]
fn wait_returns_on_first_matching_level() {
    let mut script: Vec<Resp> = vec![Ok(true)];
    script.extend(vec![Ok(false); 10]);
    let mut line = SimLine::new(script, false);
    let mut delay = SimDelay::new();
    assert!(matches!(wait_until_timeout(&mut delay, &mut line, true), Ok(())));
    assert_eq!(line.remaining_len(), 10);
}

#[test]
fn wait_polls_until_the_level_shows() {
    let mut script: Vec<Resp> = vec![Ok(false); 5];
    script.push(Ok(true));
    script.extend(vec![Ok(false); 10]);
    let mut line = SimLine::new(script, false);
    let mut delay = SimDelay::new();
    assert!(matches!(wait_until_timeout(&mut delay, &mut line, true), Ok(())));
    assert_eq!(line.remaining_len(), 10);
}

#[test]
fn wait_times_out_after_exactly_one_hundred_attempts() {
    let script: Vec<Resp> = vec![Ok(false); 120];
    let mut line = SimLine::new(script, false);
    let mut delay = SimDelay::new();
    let got = wait_until_timeout(&mut delay, &mut line, true);
    assert!(matches!(got, Err(DhtError::Timeout)));
    assert_eq!(line.remaining_len(), 20);
}

#[test]
fn wait_misses_a_transition_on_the_hundred_first_query() {
    // the level the wait is looking for arrives one query too late
    let mut script: Vec<Resp> = vec![Ok(false); 100];
    script.push(Ok(true));
    let mut line = SimLine::new(script, false);
    let mut delay = SimDelay::new();
    let got = wait_until_timeout(&mut delay, &mut line, true);
    assert!(matches!(got, Err(DhtError::Timeout)));
    assert_eq!(line.remaining_len(), 1);
}

#[test]
fn wait_surfaces_fault_without_retry() {
    let mut script: Vec<Resp> = vec![Ok(false); 4];
    script.push(Err(9));
    script.extend(vec![Ok(true); 8]);
    let mut line = SimLine::new(script, false);
    let mut delay = SimDelay::new();
    let got = wait_until_timeout(&mut delay, &mut line, true);
    assert!(matches!(got, Err(DhtError::PinError(9))));
    assert_eq!(line.remaining_len(), 8);
}

#[test]
fn short_pulse_decodes_to_zero() {
    // high at once, already low again at the settle-time sample
    let mut line: SimLine<Fault> = SimLine::new(vec![Ok(true), Ok(false), Ok(false)], false);
    let mut delay = SimDelay::new();
    assert!(matches!(read_bit(&mut delay, &mut line), Ok(false)));
    assert_eq!(line.remaining_len(), 0);
}

#[test]
fn long_pulse_decodes_to_one() {
    // still high at the settle-time sample, low by the close-out wait
    let mut line: SimLine<Fault> = SimLine::new(vec![Ok(true), Ok(true), Ok(false)], false);
    let mut delay = SimDelay::new();
    assert!(matches!(read_bit(&mut delay, &mut line), Ok(true)));
    assert_eq!(line.remaining_len(), 0);
}

#[test]
fn bit_waits_for_rising_edge_before_sampling() {
    let script: Vec<Resp> = vec![Ok(false), Ok(false), Ok(false), Ok(true), Ok(true), Ok(false)];
    let mut line = SimLine::new(script, false);
    let mut delay = SimDelay::new();
    assert!(matches!(read_bit(&mut delay, &mut line), Ok(true)));
    assert_eq!(line.remaining_len(), 0);
}

#[test]
fn bit_fault_at_sample_propagates() {
    let mut line: SimLine<Fault> = SimLine::new(vec![Ok(true), Err(3), Ok(false)], false);
    let mut delay = SimDelay::new();
    let got = read_bit(&mut delay, &mut line);
    assert!(matches!(got, Err(DhtError::PinError(3))));
    assert_eq!(line.remaining_len(), 1);
}

#[test]
fn byte_assembles_each_position_msb_first() {
    // a single 1 bit in every one of the eight positions
    for k in 0..8 {
        let v: u8 = 0x80 >> k;
        let mut script: Vec<Resp> = Vec::new();
        push_byte_pulses(v, &mut script);
        let mut line = SimLine::new(script, false);
        let mut delay = SimDelay::new();
        let got = read_byte(&mut delay, &mut line);
        assert!(matches!(got, Ok(byte) if byte == v));
        assert_eq!(line.remaining_len(), 0);
    }
}

#[test]
fn byte_assembles_mixed_pattern() {
    let mut script: Vec<Resp> = Vec::new();
    push_byte_pulses(0xA7, &mut script);
    let mut line = SimLine::new(script, false);
    let mut delay = SimDelay::new();
    let got = read_byte(&mut delay, &mut line);
    assert!(matches!(got, Ok(0xA7)));
}

#[test]
fn byte_aborts_on_first_failed_bit() {
    // two good bits, then a pulse that never ends
    let mut script: Vec<Resp> = Vec::new();
    push_bit_pulses(true, &mut script);
    push_bit_pulses(false, &mut script);
    script.push(Ok(true));
    script.push(Ok(true));
    let mut line = SimLine::new(script, true);
    let mut delay = SimDelay::new();
    let got = read_byte(&mut delay, &mut line);
    assert!(matches!(got, Err(DhtError::Timeout)));
}
