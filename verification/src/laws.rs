//! Protocol-wide laws, proved against the ghost model in [`crate::model`].
//!
//! The `encode_*` functions build the response script of a *conforming*
//! sensor: one whose every transition is seen on the first query. Short
//! pulses (bit 0) read low at the settle-time sample, long pulses (bit 1)
//! read high, and each pulse ends before the close-out wait queries the
//! line. The laws then pin down what the decoder's traces yield on such
//! scripts — and on non-conforming ones: a transition that never comes, a
//! fault mid-wait, a corrupted byte.

use crate::error::DhtError;
use crate::model::{
    bit_trace, bits_trace, bits_val, byte_trace, bytes_trace, checksum, frame_trace,
    lemma_wait_trace_skip, ones, resp_at, settles, two_pow, wait_trace, Trace, HOST_START_US,
    SETTLE_US, TIMEOUT_US,
};
use vstd::arithmetic::div_mod::lemma_fundamental_div_mod;
use vstd::prelude::*;

verus! {

/// The script of a conforming sensor transmitting one bit of value `b`:
/// the rising edge is seen at once, the settle-time sample reads the bit's
/// value, and the pulse is over by the close-out query.
pub open spec fn encode_bit<E>(b: bool) -> Seq<Result<bool, E>> {
    seq![Ok(true), Ok(b), Ok(false)]
}

/// The script of a conforming sensor transmitting `bits` in order.
pub open spec fn encode_bits<E>(bits: Seq<bool>) -> Seq<Result<bool, E>>
    decreases bits.len(),
{
    if bits.len() == 0 {
        Seq::empty()
    } else {
        encode_bits::<E>(bits.drop_last()) + encode_bit::<E>(bits.last())
    }
}

/// The `n`-bit string whose most-significant-first value is `v % 2^n`.
pub open spec fn val_bits(v: nat, n: nat) -> Seq<bool>
    decreases n,
{
    if n == 0 {
        Seq::empty()
    } else {
        val_bits(v / 2, (n - 1) as nat).push(v % 2 == 1)
    }
}

/// The script of a conforming sensor transmitting one byte, most
/// significant bit first.
pub open spec fn encode_byte<E>(v: u8) -> Seq<Result<bool, E>> {
    encode_bits::<E>(val_bits(v as nat, 8))
}

/// The script of a conforming sensor transmitting `bytes` in order.
pub open spec fn encode_bytes<E>(bytes: Seq<u8>) -> Seq<Result<bool, E>>
    decreases bytes.len(),
{
    if bytes.len() == 0 {
        Seq::empty()
    } else {
        encode_bytes::<E>(bytes.drop_last()) + encode_byte::<E>(bytes.last())
    }
}

/// The script of a conforming sensor answering a read request: its
/// acknowledgment preamble (high at once, then low at once) followed by
/// the transmitted bytes.
pub open spec fn encode_frame<E>(bytes: Seq<u8>) -> Seq<Result<bool, E>> {
    seq![Ok(true), Ok(false)] + encode_bytes::<E>(bytes)
}

proof fn lemma_encode_bits_len<E>(bits: Seq<bool>)
    ensures
        encode_bits::<E>(bits).len() == 3 * bits.len(),
    decreases bits.len(),
{
    if bits.len() > 0 {
        lemma_encode_bits_len::<E>(bits.drop_last());
    }
}

/// `val_bits` is the inverse of `bits_val` below `2^n`.
proof fn lemma_val_bits(v: nat, n: nat)
    requires
        v < two_pow(n),
    ensures
        val_bits(v, n).len() == n,
        bits_val(val_bits(v, n)) == v,
    decreases n,
{
    if n > 0 {
        assert(v / 2 < two_pow((n - 1) as nat));
        lemma_val_bits(v / 2, (n - 1) as nat);
        let bits = val_bits(v, n);
        assert(bits.drop_last() =~= val_bits(v / 2, (n - 1) as nat));
        lemma_fundamental_div_mod(v as int, 2);
    }
}

proof fn lemma_encode_byte_len<E>(v: u8)
    ensures
        encode_byte::<E>(v).len() == 24,
{
    assert(two_pow(8) == 256) by {
        reveal_with_fuel(two_pow, 9);
    }
    lemma_val_bits(v as nat, 8);
    lemma_encode_bits_len::<E>(val_bits(v as nat, 8));
}

proof fn lemma_encode_bytes_len<E>(bytes: Seq<u8>)
    ensures
        encode_bytes::<E>(bytes).len() == 24 * bytes.len(),
    decreases bytes.len(),
{
    if bytes.len() > 0 {
        lemma_encode_bytes_len::<E>(bytes.drop_last());
        lemma_encode_byte_len::<E>(bytes.last());
    }
}

/// Bit decode correctness, pointwise form: wherever the line answers a
/// rising-edge wait with high at once, the settle-time sample with the
/// bit's value, and the close-out wait with low at once, the bit sampler
/// consumes exactly those three queries, suspends once for the settle
/// delay, and returns the sampled value.
pub proof fn lemma_bit_decode_at<E>(script: Seq<Result<bool, E>>, dflt: bool, at: nat, b: bool)
    requires
        resp_at(script, dflt, at) == Ok::<bool, E>(true),
        resp_at(script, dflt, at + 1) == Ok::<bool, E>(b),
        resp_at(script, dflt, at + 2) == Ok::<bool, E>(false),
    ensures
        bit_trace(script, dflt, at) == (Trace::<bool, E> {
            res: Ok(b),
            queries: 3,
            delays: seq![SETTLE_US],
        }),
{
    let rise = wait_trace(script, dflt, at, true, TIMEOUT_US as nat);
    assert(rise == (Trace::<(), E> { res: Ok(()), queries: 1, delays: Seq::empty() }));
    let fall = wait_trace(script, dflt, at + 2, false, TIMEOUT_US as nat);
    assert(fall == (Trace::<(), E> { res: Ok(()), queries: 1, delays: Seq::empty() }));
    assert(rise.delays + seq![SETTLE_US] + fall.delays =~= seq![SETTLE_US]);
}

/// Bit decode correctness for a conforming one-bit script: a short high
/// pulse — already over at the settle-time sample — decodes to bit 0, and
/// a long one — still high at the sample, over by the close-out wait —
/// decodes to bit 1.
pub proof fn lemma_bit_decode<E>(b: bool, dflt: bool)
    ensures
        bit_trace(encode_bit::<E>(b), dflt, 0) == (Trace::<bool, E> {
            res: Ok(b),
            queries: 3,
            delays: seq![SETTLE_US],
        }),
{
    lemma_bit_decode_at(encode_bit::<E>(b), dflt, 0, b);
}

/// A conforming script section transmitting `bits` decodes to exactly
/// `bits`, three queries and one settle delay per bit.
proof fn lemma_bits_decode_at<E>(script: Seq<Result<bool, E>>, dflt: bool, at: nat, bits: Seq<bool>)
    requires
        at + 3 * bits.len() <= script.len(),
        script.subrange(at as int, (at + 3 * bits.len()) as int) == encode_bits::<E>(bits),
    ensures
        bits_trace(script, dflt, at, bits.len()) == (Trace::<Seq<bool>, E> {
            res: Ok(bits),
            queries: 3 * bits.len(),
            delays: settles(bits.len()),
        }),
    decreases bits.len(),
{
    lemma_encode_bits_len::<E>(bits);
    if bits.len() == 0 {
        assert(bits =~= Seq::<bool>::empty());
        assert(settles(0) =~= Seq::<u32>::empty());
    } else {
        let n = bits.len();
        let head = bits.drop_last();
        lemma_encode_bits_len::<E>(head);
        assert(script.subrange(at as int, (at + 3 * head.len()) as int) =~= encode_bits::<E>(
            head,
        )) by {
            assert(forall|i: int|
                0 <= i < 3 * head.len() ==> script.subrange(
                    at as int,
                    (at + 3 * n) as int,
                )[i] == #[trigger] (encode_bits::<E>(head) + encode_bit::<E>(bits.last()))[i]);
        }
        lemma_bits_decode_at(script, dflt, at, head);
        let bat = at + 3 * head.len();
        let sub = script.subrange(at as int, (at + 3 * n) as int);
        let enc_last = encode_bit::<E>(bits.last());
        assert(sub == encode_bits::<E>(head) + enc_last);
        assert(script[bat as int] == sub[3 * head.len() as int]);
        assert(sub[3 * head.len() as int] == enc_last[0]);
        assert(script[bat as int + 1] == sub[3 * head.len() as int + 1]);
        assert(sub[3 * head.len() as int + 1] == enc_last[1]);
        assert(script[bat as int + 2] == sub[3 * head.len() as int + 2]);
        assert(sub[3 * head.len() as int + 2] == enc_last[2]);
        lemma_bit_decode_at(script, dflt, bat, bits.last());
        assert(head.push(bits.last()) =~= bits);
        assert(settles(head.len()) + seq![SETTLE_US] =~= settles(n));
    }
}

/// Byte decode correctness: a conforming script section transmitting one
/// byte decodes to that byte, assembled most-significant bit first.
proof fn lemma_byte_decode_at<E>(script: Seq<Result<bool, E>>, dflt: bool, at: nat, v: u8)
    requires
        at + 24 <= script.len(),
        script.subrange(at as int, at as int + 24) == encode_byte::<E>(v),
    ensures
        byte_trace(script, dflt, at) == (Trace::<u8, E> {
            res: Ok(v),
            queries: 24,
            delays: settles(8),
        }),
{
    assert(two_pow(8) == 256) by {
        reveal_with_fuel(two_pow, 9);
    }
    lemma_val_bits(v as nat, 8);
    lemma_bits_decode_at(script, dflt, at, val_bits(v as nat, 8));
}

/// Bit decode correctness across all eight positions of a byte: the
/// conforming script of any byte value decodes to that value, most
/// significant bit first.
pub proof fn lemma_byte_decode<E>(v: u8, dflt: bool)
    ensures
        byte_trace(encode_byte::<E>(v), dflt, 0) == (Trace::<u8, E> {
            res: Ok(v),
            queries: 24,
            delays: settles(8),
        }),
{
    lemma_encode_byte_len::<E>(v);
    assert(encode_byte::<E>(v).subrange(0, 24) =~= encode_byte::<E>(v));
    lemma_byte_decode_at(encode_byte::<E>(v), dflt, 0, v);
}

/// A conforming script section transmitting `bytes` decodes to exactly
/// `bytes`, twenty-four queries and eight settle delays per byte.
proof fn lemma_bytes_decode_at<E>(script: Seq<Result<bool, E>>, dflt: bool, at: nat, bytes: Seq<u8>)
    requires
        at + 24 * bytes.len() <= script.len(),
        script.subrange(at as int, (at + 24 * bytes.len()) as int) == encode_bytes::<E>(bytes),
    ensures
        bytes_trace(script, dflt, at, bytes.len()) == (Trace::<Seq<u8>, E> {
            res: Ok(bytes),
            queries: 24 * bytes.len(),
            delays: settles(8 * bytes.len()),
        }),
    decreases bytes.len(),
{
    lemma_encode_bytes_len::<E>(bytes);
    if bytes.len() == 0 {
        assert(bytes =~= Seq::<u8>::empty());
        assert(settles(0) =~= Seq::<u32>::empty());
    } else {
        let n = bytes.len();
        let head = bytes.drop_last();
        lemma_encode_bytes_len::<E>(head);
        lemma_encode_byte_len::<E>(bytes.last());
        let sub = script.subrange(at as int, (at + 24 * n) as int);
        assert(sub == encode_bytes::<E>(head) + encode_byte::<E>(bytes.last()));
        assert(script.subrange(at as int, (at + 24 * head.len()) as int) =~= encode_bytes::<E>(
            head,
        )) by {
            assert(forall|i: int|
                0 <= i < 24 * head.len() ==> script.subrange(
                    at as int,
                    (at + 24 * n) as int,
                )[i] == #[trigger] (encode_bytes::<E>(head) + encode_byte::<E>(bytes.last()))[i]);
        }
        lemma_bytes_decode_at(script, dflt, at, head);
        let bat = at + 24 * head.len();
        assert(script.subrange(bat as int, bat as int + 24) =~= encode_byte::<E>(bytes.last()))
            by {
            assert(forall|i: int|
                0 <= i < 24 ==> #[trigger] script.subrange(bat as int, bat as int + 24)[i] == sub[
                    24 * head.len() + i
                ]);
        }
        lemma_byte_decode_at(script, dflt, bat, bytes.last());
        assert(head.push(bytes.last()) =~= bytes);
        assert(settles(8 * head.len()) + settles(8) =~= settles(8 * n));
    }
}

/// What a frame read yields on the conforming script of five transmitted
/// bytes: the whole script is consumed — two preamble queries and three
/// per bit, 122 in all — the suspensions are the start hold followed by
/// forty settle delays, and the outcome is the four data bytes, or
/// `ChecksumMismatch` when the fifth byte is not their 8-bit wrapping sum.
pub proof fn lemma_frame_decode<E>(bytes: Seq<u8>, dflt: bool)
    requires
        bytes.len() == 5,
    ensures
        ({
            let t = frame_trace(encode_frame::<E>(bytes), dflt, 0);
            &&& t.res == (if checksum(bytes.take(4)) == bytes[4] {
                Ok::<Seq<u8>, DhtError<E>>(bytes.take(4))
            } else {
                Err(DhtError::ChecksumMismatch)
            })
            &&& t.queries == 122
            &&& t.delays == seq![HOST_START_US] + settles(40)
        }),
{
    let s = encode_frame::<E>(bytes);
    let data = bytes.take(4);
    let enc = encode_bytes::<E>(bytes);
    lemma_encode_bytes_len::<E>(bytes);
    assert(data =~= bytes.drop_last());
    lemma_encode_bytes_len::<E>(data);
    lemma_encode_byte_len::<E>(bytes.last());
    assert(enc == encode_bytes::<E>(data) + encode_byte::<E>(bytes.last()));
    assert(resp_at(s, dflt, 0) == Ok::<bool, E>(true));
    assert(resp_at(s, dflt, 1) == Ok::<bool, E>(false));
    let rise = wait_trace(s, dflt, 0, true, TIMEOUT_US as nat);
    assert(rise == (Trace::<(), E> { res: Ok(()), queries: 1, delays: Seq::empty() }));
    let fall = wait_trace(s, dflt, 1, false, TIMEOUT_US as nat);
    assert(fall == (Trace::<(), E> { res: Ok(()), queries: 1, delays: Seq::empty() }));
    assert(s.subrange(2, 98) =~= encode_bytes::<E>(data)) by {
        assert(forall|i: int| 0 <= i < 96 ==> s.subrange(2, 98)[i] == #[trigger] enc[i]);
        assert(forall|i: int|
            0 <= i < 96 ==> #[trigger] enc[i] == (encode_bytes::<E>(data) + encode_byte::<E>(
                bytes.last(),
            ))[i]);
    }
    lemma_bytes_decode_at(s, dflt, 2, data);
    assert(s.subrange(98, 122) =~= encode_byte::<E>(bytes.last())) by {
        assert(forall|i: int| 0 <= i < 24 ==> s.subrange(98, 122)[i] == #[trigger] enc[96 + i]);
    }
    lemma_byte_decode_at(s, dflt, 98, bytes.last());
    assert(bytes[4] == bytes.last());
    assert(frame_trace(s, dflt, 0).delays =~= seq![HOST_START_US] + settles(40));
}

/// Checksum acceptance: a conforming line transmitting any four data bytes
/// followed by their 8-bit wrapping sum makes the frame read succeed with
/// exactly those four bytes.
pub proof fn lemma_checksum_acceptance<E>(data: Seq<u8>, dflt: bool)
    requires
        data.len() == 4,
    ensures
        frame_trace(encode_frame::<E>(data.push(checksum(data))), dflt, 0).res == Ok::<
            Seq<u8>,
            DhtError<E>,
        >(data),
{
    let bytes = data.push(checksum(data));
    lemma_frame_decode::<E>(bytes, dflt);
    assert(bytes.take(4) =~= data);
}

/// Plain (unwrapped) sum of a byte sequence.
spec fn byte_sum(data: Seq<u8>) -> int
    decreases data.len(),
{
    if data.len() == 0 {
        0
    } else {
        byte_sum(data.drop_last()) + data.last()
    }
}

/// The wrapping checksum is the plain sum reduced modulo 256.
proof fn lemma_checksum_is_mod_sum(data: Seq<u8>)
    ensures
        byte_sum(data) >= 0,
        checksum(data) == byte_sum(data) % 256,
    decreases data.len(),
{
    if data.len() > 0 {
        lemma_checksum_is_mod_sum(data.drop_last());
        let s = byte_sum(data.drop_last());
        let c = checksum(data.drop_last()) as int;
        let v = data.last() as int;
        lemma_fundamental_div_mod(s, 256);
        vstd::arithmetic::div_mod::lemma_mod_multiples_vanish(s / 256, c + v, 256);
        if c + v > 255 {
            vstd::arithmetic::div_mod::lemma_mod_multiples_vanish(1, c + v - 256, 256);
            vstd::arithmetic::div_mod::lemma_small_mod((c + v - 256) as nat, 256);
        } else {
            vstd::arithmetic::div_mod::lemma_small_mod((c + v) as nat, 256);
        }
    }
}

/// Replacing one byte shifts the plain sum by exactly the difference.
proof fn lemma_byte_sum_update(data: Seq<u8>, i: int, v: u8)
    requires
        0 <= i < data.len(),
    ensures
        byte_sum(data.update(i, v)) == byte_sum(data) - data[i] + v,
    decreases data.len(),
{
    let upd = data.update(i, v);
    if i == data.len() - 1 {
        assert(upd.drop_last() =~= data.drop_last());
    } else {
        assert(upd.drop_last() =~= data.drop_last().update(i, v));
        lemma_byte_sum_update(data.drop_last(), i, v);
    }
}

/// Mutating any single byte always changes the 8-bit wrapping sum.
proof fn lemma_checksum_update_differs(data: Seq<u8>, i: int, v: u8)
    requires
        0 <= i < data.len(),
        v != data[i],
    ensures
        checksum(data.update(i, v)) != checksum(data),
{
    let mutated = data.update(i, v);
    lemma_byte_sum_update(data, i, v);
    lemma_checksum_is_mod_sum(data);
    lemma_checksum_is_mod_sum(mutated);
    let s1 = byte_sum(data);
    let s2 = byte_sum(mutated);
    lemma_fundamental_div_mod(s1, 256);
    lemma_fundamental_div_mod(s2, 256);
    let q1 = s1 / 256;
    let q2 = s2 / 256;
    if checksum(mutated) == checksum(data) {
        assert(s2 - s1 == 256 * (q2 - q1));
        if q2 > q1 {
            assert(256 * (q2 - q1) >= 256) by (nonlinear_arith)
                requires
                    q2 - q1 >= 1,
            ;
        } else if q2 < q1 {
            assert(256 * (q2 - q1) <= -256) by (nonlinear_arith)
                requires
                    q2 - q1 <= -1,
            ;
        }
        assert(false);
    }
}

/// Checksum rejection: mutating any single data byte while a conforming
/// line still transmits the original bytes' wrapping sum makes the frame
/// read fail with `ChecksumMismatch` — never yield a different data result.
pub proof fn lemma_checksum_rejection<E>(data: Seq<u8>, i: int, v: u8, dflt: bool)
    requires
        data.len() == 4,
        0 <= i < 4,
        v != data[i],
    ensures
        frame_trace(encode_frame::<E>(data.update(i, v).push(checksum(data))), dflt, 0).res
            == Err::<Seq<u8>, DhtError<E>>(DhtError::ChecksumMismatch),
{
    let mutated = data.update(i, v);
    let bytes = mutated.push(checksum(data));
    lemma_frame_decode::<E>(bytes, dflt);
    assert(bytes.take(4) =~= mutated);
    lemma_checksum_update_differs(data, i, v);
}

/// Timeout boundedness: when the awaited level never shows within the
/// polling budget, a bounded wait makes exactly `TIMEOUT_US` queries —
/// no more, no fewer — suspends one microsecond after each, and fails
/// with `Timeout`.
pub proof fn lemma_timeout_exact<E>(script: Seq<Result<bool, E>>, dflt: bool, at: nat, want: bool)
    requires
        forall|k: nat|
            at <= k < at + TIMEOUT_US as nat ==> #[trigger] resp_at(script, dflt, k) == Ok::<
                bool,
                E,
            >(!want),
    ensures
        wait_trace(script, dflt, at, want, TIMEOUT_US as nat) == (Trace::<(), E> {
            res: Err(DhtError::Timeout),
            queries: TIMEOUT_US as nat,
            delays: ones(TIMEOUT_US as nat),
        }),
{
    lemma_wait_trace_skip(script, dflt, at, want, TIMEOUT_US as nat, TIMEOUT_US as nat);
    assert(ones(TIMEOUT_US as nat) + Seq::<u32>::empty() =~= ones(TIMEOUT_US as nat));
}

/// Fault short-circuiting: when the line's `k`-th query of a bounded wait
/// raises a fault and the queries before it read the other level, the wait
/// makes exactly `k` queries — none after the fault — and fails with
/// `PinError` wrapping that fault.
pub proof fn lemma_fault_short_circuit<E>(
    script: Seq<Result<bool, E>>,
    dflt: bool,
    at: nat,
    want: bool,
    k: nat,
    e: E,
)
    requires
        1 <= k <= TIMEOUT_US as nat,
        forall|j: nat|
            at <= j < at + k - 1 ==> #[trigger] resp_at(script, dflt, j) == Ok::<bool, E>(!want),
        resp_at(script, dflt, (at + k - 1) as nat) == Err::<bool, E>(e),
    ensures
        wait_trace(script, dflt, at, want, TIMEOUT_US as nat) == (Trace::<(), E> {
            res: Err(DhtError::PinError(e)),
            queries: k,
            delays: ones((k - 1) as nat),
        }),
{
    lemma_wait_trace_skip(script, dflt, at, want, TIMEOUT_US as nat, (k - 1) as nat);
    assert(ones((k - 1) as nat) + Seq::<u32>::empty() =~= ones((k - 1) as nat));
}

/// A successful run of `n` bytes yields exactly `n` of them.
proof fn lemma_bytes_trace_len<E>(script: Seq<Result<bool, E>>, dflt: bool, at: nat, n: nat)
    ensures
        bytes_trace(script, dflt, at, n).res matches Ok(bytes) ==> bytes.len() == n,
    decreases n,
{
    if n > 0 {
        lemma_bytes_trace_len(script, dflt, at, (n - 1) as nat);
    }
}

/// Atomicity: over every response schedule whatsoever, the frame read's
/// outcome is either a complete four-byte frame or a single error value;
/// no partial frame is ever part of the outcome.
pub proof fn lemma_frame_atomic<E>(script: Seq<Result<bool, E>>, dflt: bool, at: nat)
    ensures
        frame_trace(script, dflt, at).res matches Ok(data) ==> data.len() == 4,
{
    let rise = wait_trace(script, dflt, at, true, TIMEOUT_US as nat);
    let fall = wait_trace(script, dflt, at + rise.queries, false, TIMEOUT_US as nat);
    lemma_bytes_trace_len(script, dflt, at + rise.queries + fall.queries, 4);
}

} // verus!
