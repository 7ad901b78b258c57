//! Decoder for the fixed-length data frame of a single-line,
//! pulse-width-encoded humidity/temperature sensor.
//!
//! The host drives a start signal on the line, waits for the sensor's
//! acknowledgment preamble, and then samples forty pulse-width-encoded bits:
//! four data bytes followed by one checksum byte (the 8-bit wrapping sum of
//! the data bytes). All waiting is bounded: every line-level transition is
//! polled at most [`read::TIMEOUT_US`] times, one microsecond apart.
//!
//! The line and the microsecond delay are capabilities supplied by the
//! embedding environment through the [`capability`] traits. The protocol
//! logic itself is fully specified against a ghost model of the line's
//! responses ([`model`]) and verified; [`sim`] provides a scriptable line
//! for exercising the decoder without hardware.

pub mod capability;
pub mod error;
pub mod laws;
pub mod model;
pub mod read;
pub mod sim;
