//! Frame-level behaviour: checksum acceptance and rejection, timeout
//! boundedness, fault short-circuiting and all-or-nothing results.

use dht_frame::error::DhtError;
use dht_frame::read::{frame_checksum, read_raw};
use dht_frame::sim::{SimDelay, SimLine};

type Fault = u8;
type Resp = Result<bool, Fault>;

fn push_bit_pulses(b: bool, script: &mut Vec<Resp>) {
    script.push(Ok(true));
    script.push(Ok(b));
    script.push(Ok(false));
}

fn push_byte_pulses(v: u8, script: &mut Vec<Resp>) {
    for i in 0..8 {
        push_bit_pulses(v & (0x80u8 >> i) != 0, script);
    }
}

fn frame_script(bytes: [u8; 5]) -> Vec<Resp> {
    let mut script: Vec<Resp> = vec![Ok(true), Ok(false)];
    for v in bytes {
        push_byte_pulses(v, &mut script);
    }
    script
}

fn wrapping_sum(data: [u8; 4]) -> u8 {
    let mut c: u8 = 0;
    for v in data {
        c = c.wrapping_add(v);
    }
    c
}

#[test]
fn frame_accepts_example() {
    let data: [u8; 4] = [0x23, 0x00, 0x18, 0x00];
    let mut line = SimLine::new(frame_script([0x23, 0x00, 0x18, 0x00, 0x3B]), false);
    let mut delay = SimDelay::new();
    let got = read_raw(&mut delay, &mut line);
    assert!(matches!(got, Ok(frame) if frame == data));
    // the conforming script is consumed exactly: 2 + 5 * 24 queries
    assert_eq!(line.remaining_len(), 0);
}

#[test]
fn frame_accepts_wrapping_checksum() {
    // sums that wrap past 255 are still accepted
    let data: [u8; 4] = [0xFF, 0xFF, 0xFF, 0xFF];
    let c = wrapping_sum(data);
    assert_eq!(c, 0xFC);
    let mut line = SimLine::new(frame_script([0xFF, 0xFF, 0xFF, 0xFF, c]), false);
    let mut delay = SimDelay::new();
    let got = read_raw(&mut delay, &mut line);
    assert!(matches!(got, Ok(frame) if frame == data));
}

#[test]
fn frame_rejects_every_single_byte_mutation() {
    let data: [u8; 4] = [0x23, 0x00, 0x18, 0x00];
    let c = wrapping_sum(data);
    for i in 0..4 {
        let mut mutated = data;
        mutated[i] = mutated[i].wrapping_add(1);
        let bytes: [u8; 5] = [mutated[0], mutated[1], mutated[2], mutated[3], c];
        let mut line = SimLine::new(frame_script(bytes), false);
        let mut delay = SimDelay::new();
        let got = read_raw(&mut delay, &mut line);
        assert!(matches!(got, Err(DhtError::ChecksumMismatch)));
    }
}

#[test]
fn frame_rejects_corrupted_checksum_byte() {
    let data: [u8; 4] = [0x01, 0x02, 0x03, 0x04];
    let c = wrapping_sum(data).wrapping_add(0x80);
    let mut line = SimLine::new(frame_script([0x01, 0x02, 0x03, 0x04, c]), false);
    let mut delay = SimDelay::new();
    let got = read_raw(&mut delay, &mut line);
    assert!(matches!(got, Err(DhtError::ChecksumMismatch)));
}

#[test]
fn frame_timeout_is_exactly_one_hundred_queries() {
    // the preamble's rising edge never comes: the one bounded wait makes
    // exactly 100 queries, no more, no fewer
    let script: Vec<Resp> = vec![Ok(false); 150];
    let mut line = SimLine::new(script, false);
    let mut delay = SimDelay::new();
    let got = read_raw(&mut delay, &mut line);
    assert!(matches!(got, Err(DhtError::Timeout)));
    assert_eq!(line.remaining_len(), 50);
}

#[test]
fn frame_timeout_when_line_stays_high() {
    // the line answers high forever: the preamble's falling edge never
    // comes; 1 query for the rising edge, 100 for the falling edge
    let script: Vec<Resp> = vec![Ok(true); 200];
    let mut line = SimLine::new(script, true);
    let mut delay = SimDelay::new();
    let got = read_raw(&mut delay, &mut line);
    assert!(matches!(got, Err(DhtError::Timeout)));
    assert_eq!(line.remaining_len(), 99);
}

#[test]
fn frame_fault_aborts_after_exactly_k_queries() {
    // fault on the third query: two idle polls, then the fault; nothing
    // after it is queried
    let mut script: Vec<Resp> = vec![Ok(false), Ok(false), Err(7)];
    script.extend(vec![Ok(true); 40]);
    let mut line = SimLine::new(script, false);
    let mut delay = SimDelay::new();
    let got = read_raw(&mut delay, &mut line);
    assert!(matches!(got, Err(DhtError::PinError(7))));
    assert_eq!(line.remaining_len(), 40);
}

#[test]
fn frame_fault_mid_data_aborts_immediately() {
    // a conforming frame whose 10th response is replaced by a fault
    let mut script = frame_script([0x23, 0x00, 0x18, 0x00, 0x3B]);
    let total = script.len();
    script[9] = Err(42);
    let mut line = SimLine::new(script, false);
    let mut delay = SimDelay::new();
    let got = read_raw(&mut delay, &mut line);
    assert!(matches!(got, Err(DhtError::PinError(42))));
    assert_eq!(line.remaining_len(), total - 10);
}

#[test]
fn frame_failure_yields_no_partial_data() {
    // three full bytes arrive, then the line goes dead: the caller sees
    // one error and nothing of the bytes already received
    let mut script: Vec<Resp> = vec![Ok(true), Ok(false)];
    for v in [0x23u8, 0x00, 0x18] {
        push_byte_pulses(v, &mut script);
    }
    let mut line = SimLine::new(script, false);
    let mut delay = SimDelay::new();
    let got = read_raw(&mut delay, &mut line);
    assert!(matches!(got, Err(DhtError::Timeout)));
}

#[test]
fn frame_checksum_wraps_to_zero() {
    assert_eq!(frame_checksum(&[1, 2, 3, 250]), 0);
    assert_eq!(frame_checksum(&[0x23, 0x00, 0x18, 0x00]), 0x3B);
    assert_eq!(frame_checksum(&[0, 0, 0, 0]), 0);
    assert_eq!(frame_checksum(&[0xFF, 0xFF, 0xFF, 0xFF]), 0xFC);
}

#[test]
fn pin_fault_lifts_into_dht_error() {
    let e: DhtError<u8> = DhtError::from(42u8);
    assert!(matches!(e, DhtError::PinError(42)));
}
