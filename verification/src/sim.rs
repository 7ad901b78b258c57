//! Scriptable capabilities for exercising the decoder without hardware.
//!
//! A [`SimLine`] is constructed from an explicit response script: the value
//! its first, second, ... read query yields. Once the script is exhausted
//! the line settles at a fixed level and reads it without fault, so every
//! query is answered. Driving the simulated line high always succeeds and
//! leaves the script alone. A [`SimDelay`] returns immediately and only
//! records (in ghost state) the suspensions requested of it.

use crate::capability::{Delay, InputOutputPin};
use vstd::prelude::*;

verus! {

/// A line whose responses are scripted in advance.
pub struct SimLine<E> {
    /// Scripted responses not consumed yet.
    remaining: Vec<Result<bool, E>>,
    /// The level read once the script is exhausted.
    settled: bool,
    /// Scripted responses already consumed, in order.
    past: Ghost<Seq<Result<bool, E>>>,
    /// Read queries made after the script was exhausted.
    extra: Ghost<nat>,
}

impl<E> SimLine<E> {
    /// A line that answers its read queries with `script`, in order, and
    /// reads `default_level` once the script is exhausted.
    pub fn new(script: Vec<Result<bool, E>>, default_level: bool) -> (line: SimLine<E>)
        ensures
            line.inv(),
            line.script() == script@,
            line.default_level() == default_level,
            line.queries() == 0,
    {
        let line = SimLine {
            remaining: script,
            settled: default_level,
            past: Ghost(Seq::empty()),
            extra: Ghost(0nat),
        };
        proof {
            assert(line.script() =~= line.remaining@);
        }
        line
    }

    /// How many scripted responses have not been consumed yet.
    pub fn remaining_len(&self) -> (n: usize)
        requires
            self.inv(),
        ensures
            n == if self.queries() <= self.script().len() {
                self.script().len() - self.queries()
            } else {
                0int
            },
    {
        self.remaining.len()
    }
}

impl<E> InputOutputPin<E> for SimLine<E> {
    closed spec fn script(&self) -> Seq<Result<bool, E>> {
        self.past@ + self.remaining@
    }

    closed spec fn default_level(&self) -> bool {
        self.settled
    }

    closed spec fn queries(&self) -> nat {
        self.past@.len() + self.extra@
    }

    closed spec fn inv(&self) -> bool {
        self.extra@ > 0 ==> self.remaining@.len() == 0
    }

    fn read_level(&mut self) -> (r: Result<bool, E>) {
        if self.remaining.len() > 0 {
            let ghost head = self.remaining@[0];
            let r = self.remaining.remove(0);
            proof {
                self.past@ = self.past@.push(head);
                assert(self.past@ + self.remaining@ =~= old(self).past@ + old(self).remaining@);
                assert((old(self).past@ + old(self).remaining@)[old(self).past@.len() as int]
                    == head);
            }
            r
        } else {
            proof {
                self.extra@ = self.extra@ + 1;
            }
            Ok(self.settled)
        }
    }

    fn drive_high(&mut self) -> (r: Result<(), E>) {
        Ok(())
    }
}

/// A delay that returns immediately, keeping only a ghost log of the
/// suspensions requested of it.
pub struct SimDelay {
    /// The suspensions requested so far, in microseconds.
    history: Ghost<Seq<u32>>,
}

impl SimDelay {
    /// A delay with an empty log.
    pub fn new() -> (d: SimDelay)
        ensures
            d.log() == Seq::<u32>::empty(),
    {
        SimDelay { history: Ghost(Seq::empty()) }
    }
}

impl Delay for SimDelay {
    closed spec fn log(&self) -> Seq<u32> {
        self.history@
    }

    fn suspend(&mut self, us: u32) {
        proof {
            self.history@ = self.history@.push(us);
        }
    }
}

} // verus!
