use vstd::prelude::*;

verus! {

/// Failure taxonomy for one frame read. Every failure aborts the current
/// read immediately and is surfaced unchanged; none is retried internally.
#[derive(Debug)]
pub enum DhtError<E> {
    /// The line capability reported a fault while reading or driving the
    /// line; wraps the capability's native fault value opaquely.
    PinError(E),
    /// A complete five-byte frame was received, but the 8-bit wrapping sum
    /// of the four data bytes did not match the fifth byte.
    ChecksumMismatch,
    /// A bounded wait for a line-level transition exhausted its polling
    /// budget without the condition becoming true.
    Timeout,
}

impl<E> From<E> for DhtError<E> {
    fn from(error: E) -> (r: DhtError<E>) {
        DhtError::PinError(error)
    }
}

impl<E> vstd::std_specs::convert::FromSpecImpl<E> for DhtError<E> {
    open spec fn obeys_from_spec() -> bool {
        true
    }

    open spec fn from_spec(error: E) -> Self {
        DhtError::PinError(error)
    }
}

} // verus!
