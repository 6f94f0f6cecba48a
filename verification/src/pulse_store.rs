//! The telemetry-side store of received detections.
//!
//! The downstream telemetry bridge consumes the detection stream as an
//! ordinary protocol client, pairs each detection with the position
//! data current at arrival, and serves the result over its own API.
//! The store is an explicitly owned value handed through a typed
//! handle; position values are carried as plain integers (millimetres,
//! millimetres per second, centidegrees).

use vstd::prelude::*;

use crate::pulse::Pulse;

verus! {

/// A position fix paired with a detection.
#[derive(Clone, Copy, Debug, PartialEq, Eq, Structural)]
pub struct Telemetry {
    /// Position east of the base point, in millimetres.
    pub x_mm: i64,
    /// Position north of the base point, in millimetres.
    pub y_mm: i64,
    /// Altitude, in millimetres.
    pub z_mm: i64,
    /// Velocity components, in millimetres per second.
    pub vx_mm_s: i64,
    /// Velocity, north component.
    pub vy_mm_s: i64,
    /// Velocity, vertical component.
    pub vz_mm_s: i64,
    /// Heading, in hundredths of a degree.
    pub heading_cdeg: u32,
}

/// One detection together with the telemetry current when it arrived.
#[derive(Clone, Copy, Debug, PartialEq, Eq, Structural)]
pub struct PulseWithTelemetry {
    /// The position data paired with the detection.
    pub telemetry: Telemetry,
    /// The detection itself.
    pub pulse: Pulse,
}

/// The owned store of all detections received so far, in arrival order.
pub struct PulseHandle {
    /// Every received detection, oldest first; never reordered.
    pub pulses: Vec<PulseWithTelemetry>,
}

impl PulseHandle {
    /// An empty store.
    pub fn new() -> (r: PulseHandle)
        ensures
            r.pulses@.len() == 0,
    {
        PulseHandle { pulses: Vec::new() }
    }

    /// Record one received detection at the end of the store.
    pub fn push_pulse(&mut self, value: PulseWithTelemetry)
        ensures
            final(self).pulses@ == old(self).pulses@.push(value),
    {
        self.pulses.push(value);
    }
}

/// The detections recorded at or after the given index, in order; an
/// index at or past the end yields none.
pub fn get_pulses_since(handle: &PulseHandle, index: usize) -> (r: Vec<PulseWithTelemetry>)
    ensures
        r@ == if index < handle.pulses@.len() {
            handle.pulses@.skip(index as int)
        } else {
            Seq::<PulseWithTelemetry>::empty()
        },
{
    let mut out: Vec<PulseWithTelemetry> = Vec::new();
    if index >= handle.pulses.len() {
        proof {
            assert(out@ =~= Seq::<PulseWithTelemetry>::empty());
        }
        return out;
    }
    let mut i: usize = index;
    while i < handle.pulses.len()
        invariant
            index <= i <= handle.pulses@.len(),
            out@ == handle.pulses@.subrange(index as int, i as int),
        decreases handle.pulses@.len() - i,
    {
        out.push(handle.pulses[i]);
        proof {
            assert(handle.pulses@.subrange(index as int, i + 1) =~= handle.pulses@.subrange(
                index as int,
                i as int,
            ).push(handle.pulses@[i as int]));
        }
        i = i + 1;
    }
    proof {
        assert(out@ =~= handle.pulses@.skip(index as int));
    }
    out
}

} // verus!
