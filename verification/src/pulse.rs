//! The detection value broadcast to clients.
//!
//! A detection is reported by the detection engine with its frequency, a
//! normalized signal strength, the receiver gain at capture time and a
//! timestamp.  The wire payload is textual, so all fields are carried as
//! plain integers: the frequency in hertz, the strength in thousandths of
//! the normalized unit (1000 = 1.0), and the timestamp in milliseconds.

use vstd::prelude::*;

verus! {

/// A single reported signal event.  Immutable once produced; broadcast by
/// copy to every connected client.
#[derive(Clone, Copy, Debug, PartialEq, Eq, Structural)]
pub struct Pulse {
    /// Frequency of the detected signal, in hertz.
    pub freq_hz: u64,
    /// Normalized signal strength in thousandths (1000 = 1.0).  Values a
    /// little above 1000 can occur on clipping-strength signals.
    pub signal_strength_milli: u32,
    /// Receiver total gain at the time of capture.
    pub gain: u32,
    /// Capture time, in milliseconds.
    pub timestamp_ms: u64,
}

} // verus!
