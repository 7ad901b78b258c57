use crate::model::resp_at;
use vstd::prelude::*;

verus! {

/// The single bidirectional line the sensor shares with the host: one
/// logical pin that the host can both sample and drive high. The capability
/// is exclusively borrowed by one in-flight read; the embedding environment
/// must not touch the line concurrently.
///
/// For specification purposes a line carries a ghost *response schedule*:
/// `script()` lists the values handed out to successive read queries, and
/// once the script is exhausted every further query reads `default_level()`
/// without fault (see [`resp_at`]). `queries()` counts the read queries made
/// so far, so the value the next query yields is
/// `resp_at(script(), default_level(), queries())`.
///
/// The ghost model's functions carry defaults so that implementations
/// outside the verified world — a real hardware pin — need only provide the
/// two executable operations; an implementation whose behaviour is to be
/// reasoned about overrides the model, as the scriptable line of
/// [`crate::sim`] does.
pub trait InputOutputPin<E> {
    /// The line's response schedule: what its `i`-th read query yields.
    open spec fn script(&self) -> Seq<Result<bool, E>> {
        Seq::empty()
    }

    /// The level (true = high) read once the schedule is exhausted.
    open spec fn default_level(&self) -> bool {
        false
    }

    /// How many read queries have been made so far.
    open spec fn queries(&self) -> nat {
        0
    }

    /// Well-formedness of the capability's own state; established by its
    /// constructors and preserved by both operations.
    open spec fn inv(&self) -> bool {
        true
    }

    /// Sample the line's current level: `Ok(true)` when high, `Ok(false)`
    /// when low, or the capability's native fault.
    fn read_level(&mut self) -> (r: Result<bool, E>)
        requires
            old(self).inv(),
        ensures
            final(self).inv(),
            final(self).script() == old(self).script(),
            final(self).default_level() == old(self).default_level(),
            final(self).queries() == old(self).queries() + 1,
            r == resp_at(old(self).script(), old(self).default_level(), old(self).queries()),
    ;

    /// Drive the line high, or report the capability's native fault.
    /// Driving consumes no read query and leaves the schedule alone.
    fn drive_high(&mut self) -> (r: Result<(), E>)
        requires
            old(self).inv(),
        ensures
            final(self).inv(),
            final(self).script() == old(self).script(),
            final(self).default_level() == old(self).default_level(),
            final(self).queries() == old(self).queries(),
    ;
}

/// Microsecond-granularity suspension: blocks or cooperatively suspends the
/// calling flow for at least the requested duration and always returns
/// control afterwards, with no failure mode and no partial completion.
///
/// For specification purposes a delay carries a ghost log of the durations
/// requested so far, so contracts can pin down the exact suspension
/// sequence a protocol step performs.
/// The ghost log carries a default so that implementations outside the
/// verified world — a real hardware timer — need only provide `suspend`.
pub trait Delay {
    /// The suspensions requested so far, in microseconds, in order.
    open spec fn log(&self) -> Seq<u32> {
        Seq::empty()
    }

    /// Suspend the calling flow for at least `us` microseconds.
    fn suspend(&mut self, us: u32)
        ensures
            final(self).log() == old(self).log().push(us),
    ;
}

} // verus!
