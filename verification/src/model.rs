//! Ghost model of the protocol: what each layer of the decoder returns,
//! how many line queries it consumes and which suspensions it requests,
//! as a function of the line's response schedule.

use crate::error::DhtError;
use vstd::prelude::*;

verus! {

/// Polling budget: the maximum number of one-microsecond attempts any
/// bounded wait makes before failing with `Timeout`.
pub const TIMEOUT_US: u8 = 100;

/// Settle delay before sampling a bit's pulse, in microseconds. A short
/// pulse (bit 0) has already ended by then; a long pulse (bit 1) has not.
pub const SETTLE_US: u32 = 35;

/// How long the host holds its start signal, in microseconds.
pub const HOST_START_US: u32 = 48;

/// Externally visible behaviour of one protocol step: its outcome, the
/// number of line read queries it consumed, and the suspensions it
/// requested, in order.
pub struct Trace<T, E> {
    /// The step's result.
    pub res: Result<T, DhtError<E>>,
    /// How many read queries the step made on the line.
    pub queries: nat,
    /// The suspension durations the step requested, in microseconds.
    pub delays: Seq<u32>,
}

/// What a line with response schedule `script` and settled level `dflt`
/// yields to its `i`-th read query.
pub open spec fn resp_at<E>(script: Seq<Result<bool, E>>, dflt: bool, i: nat) -> Result<bool, E> {
    if i < script.len() {
        script[i as int]
    } else {
        Ok(dflt)
    }
}

/// `n` one-microsecond suspensions.
pub open spec fn ones(n: nat) -> Seq<u32> {
    Seq::new(n, |i: int| 1u32)
}

/// `n` settle-delay suspensions.
pub open spec fn settles(n: nat) -> Seq<u32> {
    Seq::new(n, |i: int| SETTLE_US)
}

/// Bounded wait for the line to read `want`, with `budget` attempts left,
/// the next query being the `at`-th. Each query that reads the other level
/// is followed by a one-microsecond suspension; a fault aborts at once.
pub open spec fn wait_trace<E>(
    script: Seq<Result<bool, E>>,
    dflt: bool,
    at: nat,
    want: bool,
    budget: nat,
) -> Trace<(), E>
    decreases budget,
{
    if budget == 0 {
        Trace { res: Err(DhtError::Timeout), queries: 0, delays: Seq::empty() }
    } else {
        match resp_at(script, dflt, at) {
            Err(e) => Trace { res: Err(DhtError::PinError(e)), queries: 1, delays: Seq::empty() },
            Ok(level) => if level == want {
                Trace { res: Ok(()), queries: 1, delays: Seq::empty() }
            } else {
                let rest = wait_trace(script, dflt, at + 1, want, (budget - 1) as nat);
                Trace {
                    res: rest.res,
                    queries: 1 + rest.queries,
                    delays: seq![1u32] + rest.delays,
                }
            },
        }
    }
}

/// One pulse-width-encoded bit: wait for the rising edge, settle, sample
/// once (the bit's value), then wait for the pulse to end.
pub open spec fn bit_trace<E>(script: Seq<Result<bool, E>>, dflt: bool, at: nat) -> Trace<
    bool,
    E,
> {
    let rise = wait_trace(script, dflt, at, true, TIMEOUT_US as nat);
    match rise.res {
        Err(e) => Trace { res: Err(e), queries: rise.queries, delays: rise.delays },
        Ok(_) => {
            let sample_at = at + rise.queries;
            match resp_at(script, dflt, sample_at) {
                Err(e) => Trace {
                    res: Err(DhtError::PinError(e)),
                    queries: rise.queries + 1,
                    delays: rise.delays + seq![SETTLE_US],
                },
                Ok(level) => {
                    let fall = wait_trace(script, dflt, sample_at + 1, false, TIMEOUT_US as nat);
                    Trace {
                        res: match fall.res {
                            Err(e) => Err(e),
                            Ok(_) => Ok(level),
                        },
                        queries: rise.queries + 1 + fall.queries,
                        delays: rise.delays + seq![SETTLE_US] + fall.delays,
                    }
                },
            }
        },
    }
}

/// The first `n` bits read in sequence, each picking up where the one
/// before left off; the first failure aborts the run.
pub open spec fn bits_trace<E>(script: Seq<Result<bool, E>>, dflt: bool, at: nat, n: nat) -> Trace<
    Seq<bool>,
    E,
>
    decreases n,
{
    if n == 0 {
        Trace { res: Ok(Seq::empty()), queries: 0, delays: Seq::empty() }
    } else {
        let pre = bits_trace(script, dflt, at, (n - 1) as nat);
        match pre.res {
            Err(_) => pre,
            Ok(bits) => {
                let b = bit_trace(script, dflt, at + pre.queries);
                Trace {
                    res: match b.res {
                        Err(e) => Err(e),
                        Ok(bit) => Ok(bits.push(bit)),
                    },
                    queries: pre.queries + b.queries,
                    delays: pre.delays + b.delays,
                }
            },
        }
    }
}

/// `2^n`, for bounding assembled byte values.
pub open spec fn two_pow(n: nat) -> nat
    decreases n,
{
    if n == 0 {
        1
    } else {
        2 * two_pow((n - 1) as nat)
    }
}

/// The value of a bit string read most-significant bit first.
pub open spec fn bits_val(bits: Seq<bool>) -> nat
    decreases bits.len(),
{
    if bits.len() == 0 {
        0
    } else {
        2 * bits_val(bits.drop_last()) + if bits.last() {
            1nat
        } else {
            0nat
        }
    }
}

/// One byte: eight bits assembled most-significant bit first.
pub open spec fn byte_trace<E>(script: Seq<Result<bool, E>>, dflt: bool, at: nat) -> Trace<
    u8,
    E,
> {
    let t = bits_trace(script, dflt, at, 8);
    Trace {
        res: match t.res {
            Err(e) => Err(e),
            Ok(bits) => Ok(bits_val(bits) as u8),
        },
        queries: t.queries,
        delays: t.delays,
    }
}

/// The first `n` bytes read in sequence; the first failure aborts the run.
pub open spec fn bytes_trace<E>(script: Seq<Result<bool, E>>, dflt: bool, at: nat, n: nat) -> Trace<
    Seq<u8>,
    E,
>
    decreases n,
{
    if n == 0 {
        Trace { res: Ok(Seq::empty()), queries: 0, delays: Seq::empty() }
    } else {
        let pre = bytes_trace(script, dflt, at, (n - 1) as nat);
        match pre.res {
            Err(_) => pre,
            Ok(bytes) => {
                let b = byte_trace(script, dflt, at + pre.queries);
                Trace {
                    res: match b.res {
                        Err(e) => Err(e),
                        Ok(byte) => Ok(bytes.push(byte)),
                    },
                    queries: pre.queries + b.queries,
                    delays: pre.delays + b.delays,
                }
            },
        }
    }
}

/// The 8-bit wrapping sum of a byte sequence.
pub open spec fn checksum(data: Seq<u8>) -> u8
    decreases data.len(),
{
    if data.len() == 0 {
        0u8
    } else {
        vstd::wrapping::u8_specs::wrapping_add(checksum(data.drop_last()), data.last())
    }
}

/// One whole frame read: the host's start signal and hold, the sensor's
/// acknowledgment preamble (a rising then a falling transition), four data
/// bytes, one checksum byte, and validation. On success the result is the
/// four data bytes; a checksum mismatch, fault or timeout yields the
/// corresponding error and no data at all.
pub open spec fn frame_trace<E>(script: Seq<Result<bool, E>>, dflt: bool, at: nat) -> Trace<
    Seq<u8>,
    E,
> {
    let rise = wait_trace(script, dflt, at, true, TIMEOUT_US as nat);
    match rise.res {
        Err(e) => Trace {
            res: Err(e),
            queries: rise.queries,
            delays: seq![HOST_START_US] + rise.delays,
        },
        Ok(_) => {
            let fall = wait_trace(script, dflt, at + rise.queries, false, TIMEOUT_US as nat);
            match fall.res {
                Err(e) => Trace {
                    res: Err(e),
                    queries: rise.queries + fall.queries,
                    delays: seq![HOST_START_US] + rise.delays + fall.delays,
                },
                Ok(_) => {
                    let data_at = at + rise.queries + fall.queries;
                    let dt = bytes_trace(script, dflt, data_at, 4);
                    match dt.res {
                        Err(e) => Trace {
                            res: Err(e),
                            queries: rise.queries + fall.queries + dt.queries,
                            delays: seq![HOST_START_US] + rise.delays + fall.delays + dt.delays,
                        },
                        Ok(data) => {
                            let ct = byte_trace(script, dflt, data_at + dt.queries);
                            let q = rise.queries + fall.queries + dt.queries + ct.queries;
                            let d = seq![HOST_START_US] + rise.delays + fall.delays + dt.delays
                                + ct.delays;
                            Trace {
                                res: match ct.res {
                                    Err(e) => Err(e),
                                    Ok(c) => if checksum(data) == c {
                                        Ok(data)
                                    } else {
                                        Err(DhtError::ChecksumMismatch)
                                    },
                                },
                                queries: q,
                                delays: d,
                            }
                        },
                    }
                },
            }
        },
    }
}

/// Splitting a bounded wait after `i` fruitless attempts: if the first `i`
/// queries read the level that was not waited for, the wait's trace is
/// those `i` attempts followed by the wait's trace on the rest of the
/// budget.
pub proof fn lemma_wait_trace_skip<E>(
    script: Seq<Result<bool, E>>,
    dflt: bool,
    at: nat,
    want: bool,
    budget: nat,
    i: nat,
)
    requires
        i <= budget,
        forall|k: nat|
            at <= k < at + i ==> #[trigger] resp_at(script, dflt, k) == Ok::<bool, E>(!want),
    ensures
        ({
            let rest = wait_trace(script, dflt, at + i, want, (budget - i) as nat);
            wait_trace(script, dflt, at, want, budget) == Trace::<(), E> {
                res: rest.res,
                queries: i + rest.queries,
                delays: ones(i) + rest.delays,
            }
        }),
    decreases i,
{
    let rest = wait_trace(script, dflt, at + i, want, (budget - i) as nat);
    if i == 0 {
        assert(ones(0) + rest.delays =~= rest.delays);
        assert(wait_trace(script, dflt, at, want, budget) == rest);
    } else {
        assert(resp_at(script, dflt, at) == Ok::<bool, E>(!want));
        let tail = wait_trace(script, dflt, at + 1, want, (budget - 1) as nat);
        lemma_wait_trace_skip(script, dflt, at + 1, want, (budget - 1) as nat, (i - 1) as nat);
        assert(at + 1 + (i - 1) == at + i);
        assert(seq![1u32] + (ones((i - 1) as nat) + rest.delays) =~= ones(i) + rest.delays);
    }
}

/// A failed bit run stays failed: once the first `k` bits end in an error,
/// reading any longer run changes nothing.
pub proof fn lemma_bits_trace_err<E>(script: Seq<Result<bool, E>>, dflt: bool, at: nat, k: nat, n: nat)
    requires
        k <= n,
        bits_trace(script, dflt, at, k).res is Err,
    ensures
        bits_trace(script, dflt, at, n) == bits_trace(script, dflt, at, k),
    decreases n,
{
    if k < n {
        lemma_bits_trace_err(script, dflt, at, k, (n - 1) as nat);
    }
}

/// `two_pow` grows monotonically.
pub proof fn lemma_two_pow_mono(a: nat, b: nat)
    requires
        a <= b,
    ensures
        two_pow(a) <= two_pow(b),
    decreases b,
{
    if a < b {
        lemma_two_pow_mono(a, (b - 1) as nat);
    }
}

/// A bit string's value is below `2^len`.
pub proof fn lemma_bits_val_bound(bits: Seq<bool>)
    ensures
        bits_val(bits) < two_pow(bits.len()),
    decreases bits.len(),
{
    if bits.len() > 0 {
        lemma_bits_val_bound(bits.drop_last());
    }
}

/// A failed byte run stays failed: once the first `k` bytes end in an
/// error, reading any longer run changes nothing.
pub proof fn lemma_bytes_trace_err<E>(script: Seq<Result<bool, E>>, dflt: bool, at: nat, k: nat, n: nat)
    requires
        k <= n,
        bytes_trace(script, dflt, at, k).res is Err,
    ensures
        bytes_trace(script, dflt, at, n) == bytes_trace(script, dflt, at, k),
    decreases n,
{
    if k < n {
        lemma_bytes_trace_err(script, dflt, at, k, (n - 1) as nat);
    }
}

} // verus!

