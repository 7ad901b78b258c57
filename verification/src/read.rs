//! The executable decoder: bounded polling, bit sampling, byte assembly
//! and the frame read, each verified against its [`crate::model`] trace.

use crate::capability::{Delay, InputOutputPin};
use crate::error::DhtError;
use crate::model::{
    bit_trace, bits_trace, bits_val, byte_trace, bytes_trace, checksum, frame_trace,
    lemma_bits_trace_err, lemma_bits_val_bound, lemma_bytes_trace_err, lemma_two_pow_mono,
    lemma_wait_trace_skip, ones, resp_at, two_pow, wait_trace, HOST_START_US, SETTLE_US,
    TIMEOUT_US,
};
use vstd::prelude::*;

verus! {

/// Repeatedly query the line until it reads `want` (true = high), giving up
/// with `Timeout` once [`TIMEOUT_US`] queries have read the other level and
/// suspending one microsecond after each fruitless query. A line fault
/// aborts at once and is surfaced unchanged; nothing is retried.
#[verifier::loop_isolation(false)]
pub fn wait_until_timeout<E, D: Delay, L: InputOutputPin<E>>(
    delay: &mut D,
    line: &mut L,
    want: bool,
) -> (r: Result<(), DhtError<E>>)
    requires
        old(line).inv(),
    ensures
        final(line).inv(),
        final(line).script() == old(line).script(),
        final(line).default_level() == old(line).default_level(),
        ({
            let t = wait_trace(
                old(line).script(),
                old(line).default_level(),
                old(line).queries(),
                want,
                TIMEOUT_US as nat,
            );
            &&& r == t.res
            &&& final(line).queries() == old(line).queries() + t.queries
            &&& final(delay).log() == old(delay).log() + t.delays
        }),
{
    let ghost script = old(line).script();
    let ghost dflt = old(line).default_level();
    let ghost at0 = old(line).queries();
    let mut i: u8 = 0;
    while i < TIMEOUT_US
        invariant
            line.inv(),
            line.script() == script,
            line.default_level() == dflt,
            line.queries() == at0 + i as nat,
            delay.log() == old(delay).log() + ones(i as nat),
            i <= TIMEOUT_US,
            forall|k: nat|
                at0 <= k < at0 + i as nat ==> #[trigger] resp_at(script, dflt, k) == Ok::<bool, E>(
                    !want,
                ),
        decreases TIMEOUT_US - i,
    {
        proof {
            lemma_wait_trace_skip(script, dflt, at0, want, TIMEOUT_US as nat, i as nat);
        }
        match line.read_level() {
            Err(e) => {
                return Err(DhtError::PinError(e));
            },
            Ok(level) => {
                if level == want {
                    return Ok(());
                }
            },
        }
        delay.suspend(1);
        proof {
            assert((old(delay).log() + ones(i as nat)).push(1u32) =~= old(delay).log() + ones(
                i as nat + 1,
            ));
        }
        i = i + 1;
    }
    proof {
        lemma_wait_trace_skip(script, dflt, at0, want, TIMEOUT_US as nat, TIMEOUT_US as nat);
    }
    Err(DhtError::Timeout)
}

/// Decode one pulse-width-encoded bit: wait for the rising edge that begins
/// the pulse, suspend the settle delay, sample the line exactly once (high
/// means 1, low means 0), then wait for the line to return low so the next
/// bit's rising edge is unambiguous. Any fault or timeout aborts the whole
/// operation; no partial bit value is ever returned.
pub fn read_bit<E, D: Delay, L: InputOutputPin<E>>(delay: &mut D, line: &mut L) -> (r: Result<
    bool,
    DhtError<E>,
>)
    requires
        old(line).inv(),
    ensures
        final(line).inv(),
        final(line).script() == old(line).script(),
        final(line).default_level() == old(line).default_level(),
        ({
            let t = bit_trace(old(line).script(), old(line).default_level(), old(line).queries());
            &&& r == t.res
            &&& final(line).queries() == old(line).queries() + t.queries
            &&& final(delay).log() == old(delay).log() + t.delays
        }),
{
    let ghost script = old(line).script();
    let ghost dflt = old(line).default_level();
    let ghost at0 = old(line).queries();
    let ghost l0 = old(delay).log();
    let ghost rise = wait_trace(script, dflt, at0, true, TIMEOUT_US as nat);
    match wait_until_timeout(delay, line, true) {
        Err(e) => {
            return Err(e);
        },
        Ok(_) => {},
    }
    delay.suspend(SETTLE_US);
    proof {
        assert((l0 + rise.delays).push(SETTLE_US) =~= l0 + (rise.delays + seq![SETTLE_US]));
    }
    let level = match line.read_level() {
        Err(e) => {
            return Err(DhtError::PinError(e));
        },
        Ok(level) => level,
    };
    let ghost fall = wait_trace(script, dflt, at0 + rise.queries + 1, false, TIMEOUT_US as nat);
    match wait_until_timeout(delay, line, false) {
        Err(e) => {
            proof {
                assert((l0 + (rise.delays + seq![SETTLE_US])) + fall.delays =~= l0 + (rise.delays
                    + seq![SETTLE_US] + fall.delays));
            }
            return Err(e);
        },
        Ok(_) => {},
    }
    proof {
        assert((l0 + (rise.delays + seq![SETTLE_US])) + fall.delays =~= l0 + (rise.delays
            + seq![SETTLE_US] + fall.delays));
    }
    Ok(level)
}

/// Assemble one byte from eight bits read in sequence, placing the first
/// bit in the most-significant position and the eighth in the
/// least-significant position. The first failed bit aborts the assembly
/// with that same failure; no byte is returned.
#[verifier::loop_isolation(false)]
pub fn read_byte<E, D: Delay, L: InputOutputPin<E>>(delay: &mut D, line: &mut L) -> (r: Result<
    u8,
    DhtError<E>,
>)
    requires
        old(line).inv(),
    ensures
        final(line).inv(),
        final(line).script() == old(line).script(),
        final(line).default_level() == old(line).default_level(),
        ({
            let t = byte_trace(old(line).script(), old(line).default_level(), old(line).queries());
            &&& r == t.res
            &&& final(line).queries() == old(line).queries() + t.queries
            &&& final(delay).log() == old(delay).log() + t.delays
        }),
{
    let ghost script = old(line).script();
    let ghost dflt = old(line).default_level();
    let ghost at0 = old(line).queries();
    let ghost l0 = old(delay).log();
    let mut byte: u8 = 0;
    let ghost mut bits: Seq<bool> = Seq::empty();
    let mut i: u8 = 0;
    while i < 8
        invariant
            line.inv(),
            line.script() == script,
            line.default_level() == dflt,
            i <= 8,
            bits.len() == i as nat,
            byte as nat == bits_val(bits),
            ({
                let t = bits_trace(script, dflt, at0, i as nat);
                &&& t.res == Ok::<Seq<bool>, DhtError<E>>(bits)
                &&& line.queries() == at0 + t.queries
                &&& delay.log() == l0 + t.delays
            }),
        decreases 8 - i,
    {
        let ghost pre = bits_trace(script, dflt, at0, i as nat);
        let ghost bt = bit_trace(script, dflt, at0 + pre.queries);
        let b = match read_bit(delay, line) {
            Err(e) => {
                proof {
                    assert((l0 + pre.delays) + bt.delays =~= l0 + (pre.delays + bt.delays));
                    lemma_bits_trace_err(script, dflt, at0, i as nat + 1, 8);
                }
                return Err(e);
            },
            Ok(b) => b,
        };
        proof {
            lemma_bits_val_bound(bits);
            lemma_two_pow_mono(i as nat, 7);
            assert(two_pow(7) == 128) by {
                reveal_with_fuel(two_pow, 8);
            }
            bits = bits.push(b);
            assert(bits.drop_last() =~= bits_trace(script, dflt, at0, i as nat).res->Ok_0);
            assert((l0 + pre.delays) + bt.delays =~= l0 + (pre.delays + bt.delays));
        }
        byte = 2 * byte + (if b {
            1
        } else {
            0
        });
        i = i + 1;
    }
    proof {
        lemma_bits_val_bound(bits);
        assert(two_pow(8) == 256) by {
            reveal_with_fuel(two_pow, 9);
        }
    }
    Ok(byte)
}

/// The 8-bit wrapping sum of the four data bytes, as transmitted in the
/// frame's fifth byte.
pub fn frame_checksum(data: &[u8; 4]) -> (c: u8)
    ensures
        c == checksum(data@),
{
    let mut c: u8 = 0;
    let mut i: usize = 0;
    while i < 4
        invariant
            i <= 4,
            c == checksum(data@.take(i as int)),
        decreases 4 - i,
    {
        c = c.wrapping_add(data[i]);
        proof {
            assert(data@.take(i as int + 1).drop_last() =~= data@.take(i as int));
        }
        i = i + 1;
    }
    proof {
        assert(data@.take(4) =~= data@);
    }
    c
}

/// Read one validated four-byte data frame, or fail.
///
/// The host drives the line high (best-effort: a fault from driving is
/// deliberately ignored, since the line may be pulled high passively) and
/// holds that state for the start delay. The sensor's acknowledgment
/// preamble is then confirmed by waiting for the line to go high and then
/// low; four data bytes and one checksum byte follow, and the frame is
/// accepted only when the checksum byte equals the 8-bit wrapping sum of
/// the data bytes. No partial frame is ever returned: the result is the
/// whole frame or one error, exactly as the ghost frame trace prescribes.
#[verifier::loop_isolation(false)]
#[verifier::rlimit(60)]
pub fn read_raw<E, D: Delay, L: InputOutputPin<E>>(delay: &mut D, line: &mut L) -> (r: Result<
    [u8; 4],
    DhtError<E>,
>)
    requires
        old(line).inv(),
    ensures
        final(line).inv(),
        final(line).script() == old(line).script(),
        final(line).default_level() == old(line).default_level(),
        ({
            let t = frame_trace(
                old(line).script(),
                old(line).default_level(),
                old(line).queries(),
            );
            &&& (match (r, t.res) {
                (Ok(data), Ok(expected)) => data@ == expected,
                (Err(actual), Err(expected)) => actual == expected,
                _ => false,
            })
            &&& final(line).queries() == old(line).queries() + t.queries
            &&& final(delay).log() == old(delay).log() + t.delays
        }),
{
    let ghost script = old(line).script();
    let ghost dflt = old(line).default_level();
    let ghost at0 = old(line).queries();
    let ghost l0 = old(delay).log();
    let _ = line.drive_high();
    delay.suspend(HOST_START_US);
    proof {
        assert(l0.push(HOST_START_US) =~= l0 + seq![HOST_START_US]);
    }
    let ghost rise = wait_trace(script, dflt, at0, true, TIMEOUT_US as nat);
    match wait_until_timeout(delay, line, true) {
        Err(e) => {
            proof {
                assert((l0 + seq![HOST_START_US]) + rise.delays =~= l0 + (seq![HOST_START_US]
                    + rise.delays));
            }
            return Err(e);
        },
        Ok(_) => {},
    }
    let ghost fall = wait_trace(script, dflt, at0 + rise.queries, false, TIMEOUT_US as nat);
    match wait_until_timeout(delay, line, false) {
        Err(e) => {
            proof {
                assert(((l0 + seq![HOST_START_US]) + rise.delays) + fall.delays =~= l0 + (
                seq![HOST_START_US] + rise.delays + fall.delays));
            }
            return Err(e);
        },
        Ok(_) => {},
    }
    let ghost data_at = at0 + rise.queries + fall.queries;
    let ghost qpre = line.queries();
    let ghost lpre = delay.log();
    let mut data: Vec<u8> = Vec::new();
    let mut k: u8 = 0;
    while k < 4
        invariant
            line.inv(),
            line.script() == script,
            line.default_level() == dflt,
            k <= 4,
            data@.len() == k as nat,
            ({
                let t = bytes_trace(script, dflt, data_at, k as nat);
                &&& t.res == Ok::<Seq<u8>, DhtError<E>>(data@)
                &&& line.queries() == data_at + t.queries
                &&& delay.log() == lpre + t.delays
            }),
        decreases 4 - k,
    {
        let ghost pre = bytes_trace(script, dflt, data_at, k as nat);
        let ghost bt = byte_trace(script, dflt, data_at + pre.queries);
        match read_byte(delay, line) {
            Err(e) => {
                proof {
                    assert((lpre + pre.delays) + bt.delays =~= lpre + (pre.delays + bt.delays));
                    lemma_bytes_trace_err(script, dflt, data_at, k as nat + 1, 4);
                    let t = frame_trace(script, dflt, at0);
                    assert(lpre + bytes_trace(script, dflt, data_at, 4).delays =~= l0 + t.delays);
                }
                return Err(e);
            },
            Ok(byte) => {
                data.push(byte);
            },
        }
        proof {
            assert((lpre + pre.delays) + bt.delays =~= lpre + (pre.delays + bt.delays));
        }
        k = k + 1;
    }
    let ghost dt = bytes_trace(script, dflt, data_at, 4);
    let ghost ct = byte_trace(script, dflt, data_at + dt.queries);
    let cbyte = match read_byte(delay, line) {
        Err(e) => {
            proof {
                let t = frame_trace(script, dflt, at0);
                assert((lpre + dt.delays) + ct.delays =~= l0 + t.delays);
            }
            return Err(e);
        },
        Ok(byte) => byte,
    };
    let frame: [u8; 4] = [data[0], data[1], data[2], data[3]];
    proof {
        assert(frame@ =~= data@);
        let t = frame_trace(script, dflt, at0);
        assert((lpre + dt.delays) + ct.delays =~= l0 + t.delays);
    }
    if frame_checksum(&frame) != cbyte {
        Err(DhtError::ChecksumMismatch)
    } else {
        Ok(frame)
    }
}

} // verus!
