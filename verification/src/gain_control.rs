//! Closed-loop automatic gain control.
//!
//! Strong detections trigger an immediate gain cut to avoid clipping;
//! prolonged silence triggers a gradual gain increase to recover
//! sensitivity.  Both adjustments are quantized to a fixed step and the
//! gain never goes negative.

use vstd::prelude::*;

use crate::config::{HackRFConfig, MAX_LNA_GAIN, MAX_VGA_GAIN};
use crate::pulse::Pulse;

verus! {

/// Size of one gain adjustment, in dB.
pub const GAIN_STEP: u32 = 4;
/// A batch maximum strength above this (in thousandths) triggers a cut.
pub const STRONG_SIGNAL_MILLI: u32 = 900;

/// A receiver gain setting, split between the two amplifier stages.
#[derive(Clone, Copy, Debug, PartialEq, Eq, Structural)]
pub struct GainConfig {
    /// LNA gain in dB.
    pub lna_gain: u32,
    /// VGA gain in dB.
    pub vga_gain: u32,
}

/// How a total gain is split between the stages: the LNA is filled first,
/// the VGA takes the remainder, and anything beyond the hardware maximum
/// is discarded.
pub open spec fn spec_gain_for(total: int) -> GainConfig {
    GainConfig {
        lna_gain: if total <= MAX_LNA_GAIN { total as u32 } else { MAX_LNA_GAIN },
        vga_gain: if total <= MAX_LNA_GAIN {
            0
        } else if total - MAX_LNA_GAIN <= MAX_VGA_GAIN {
            (total - MAX_LNA_GAIN) as u32
        } else {
            MAX_VGA_GAIN
        },
    }
}

impl GainConfig {
    /// The setting stays within what the hardware accepts.
    pub open spec fn wf(self) -> bool {
        self.lna_gain <= MAX_LNA_GAIN && self.vga_gain <= MAX_VGA_GAIN
    }

    /// Sum of the two stages.
    pub open spec fn total_spec(self) -> int {
        self.lna_gain + self.vga_gain
    }

    /// Build a setting from a requested total gain, LNA-first.
    pub fn new(total: u32) -> (r: GainConfig)
        ensures
            r == spec_gain_for(total as int),
            r.wf(),
    {
        if total <= MAX_LNA_GAIN {
            GainConfig { lna_gain: total, vga_gain: 0 }
        } else if total - MAX_LNA_GAIN <= MAX_VGA_GAIN {
            GainConfig { lna_gain: MAX_LNA_GAIN, vga_gain: total - MAX_LNA_GAIN }
        } else {
            GainConfig { lna_gain: MAX_LNA_GAIN, vga_gain: MAX_VGA_GAIN }
        }
    }

    /// The derived total gain of the setting.
    pub fn total_gain(&self) -> (r: u32)
        requires
            self.wf(),
        ensures
            r == self.total_spec(),
    {
        self.lna_gain + self.vga_gain
    }
}

/// One step up from the given total gain.
pub fn increase_gain(old_gain: u32) -> (r: GainConfig)
    requires
        old_gain + GAIN_STEP <= u32::MAX,
    ensures
        r == spec_gain_for(old_gain + GAIN_STEP),
        r.wf(),
{
    GainConfig::new(old_gain + GAIN_STEP)
}

/// One step down from the given total gain, floored at zero.
pub fn decrease_gain(old_gain: u32) -> (r: GainConfig)
    ensures
        r == spec_gain_for(if old_gain > GAIN_STEP { old_gain - GAIN_STEP } else { 0 }),
        r.wf(),
{
    if old_gain > GAIN_STEP {
        GainConfig::new(old_gain - GAIN_STEP)
    } else {
        GainConfig::new(0)
    }
}

/// Largest signal strength in a batch of detections, in thousandths, or
/// `-1` for an empty batch.
pub open spec fn batch_max_strength(s: Seq<Pulse>) -> int
    decreases s.len(),
{
    if s.len() == 0 {
        -1
    } else {
        let rest = batch_max_strength(s.drop_last());
        if s.last().signal_strength_milli as int > rest {
            s.last().signal_strength_milli as int
        } else {
            rest
        }
    }
}

/// The gain controller's counter update: elapsed samples are added to the
/// silence counter, saturating rather than wrapping.
pub open spec fn spec_update_count(gc: GainControl, elapsed: int) -> GainControl {
    GainControl {
        samples_since_pulse: if gc.samples_since_pulse + elapsed <= u64::MAX {
            (gc.samples_since_pulse + elapsed) as u64
        } else {
            u64::MAX
        },
        ..gc
    }
}

/// The gain controller's decision on one batch of detections: the next
/// controller state and the new setting, if any.
///
/// A batch whose maximum strength exceeds the strong-signal threshold
/// resets the silence counter and cuts the gain by one step.  A batch
/// with detections at or below the threshold only resets the counter.
/// With no detections, once the silence counter exceeds the wait
/// threshold, the threshold is subtracted from it (preserving any
/// excess, allowing back-to-back increases) and the gain rises by one
/// step.  Otherwise nothing changes.
pub open spec fn spec_check_gain(gc: GainControl, pulses: Seq<Pulse>) -> (GainControl, Option<
    GainConfig,
>) {
    let m = batch_max_strength(pulses);
    let total = gc.current_gain.total_spec();
    if m > STRONG_SIGNAL_MILLI {
        let cut = spec_gain_for(if total > GAIN_STEP { total - GAIN_STEP } else { 0 });
        (GainControl { current_gain: cut, samples_since_pulse: 0, ..gc }, Some(cut))
    } else if m >= 0 {
        (GainControl { samples_since_pulse: 0, ..gc }, None)
    } else if gc.samples_since_pulse > gc.wait_time {
        let raised = spec_gain_for(total + GAIN_STEP);
        (
            GainControl {
                current_gain: raised,
                samples_since_pulse: (gc.samples_since_pulse - gc.wait_time) as u64,
                ..gc
            },
            Some(raised),
        )
    } else {
        (gc, None)
    }
}

/// The automatic gain controller.
///
/// Holds the current gain setting, a wait threshold (two seconds' worth of
/// samples at the configured sample rate), and a counter of samples seen
/// since the last detection.
#[derive(Clone, Copy, Debug)]
pub struct GainControl {
    /// The gain setting in force.
    pub current_gain: GainConfig,
    /// How many silent samples allow one gain increase.
    pub wait_time: u64,
    /// Samples observed since the last detection.
    pub samples_since_pulse: u64,
}

impl GainControl {
    /// The controller's gain stays within hardware bounds.
    pub open spec fn wf(self) -> bool {
        self.current_gain.wf()
    }

    /// Start controlling from the configured gain, with a two-second wait
    /// threshold sized from the configured sample rate.
    pub fn new(config: &HackRFConfig) -> (r: GainControl)
        requires
            config@.wf(),
        ensures
            r.current_gain == (GainConfig { lna_gain: config.lna_gain, vga_gain: config.vga_gain }),
            r.wait_time == 2 * config.samp_rate,
            r.samples_since_pulse == 0,
            r.wf(),
    {
        GainControl {
            current_gain: GainConfig { lna_gain: config.lna_gain, vga_gain: config.vga_gain },
            wait_time: 2 * config.samp_rate,
            samples_since_pulse: 0,
        }
    }

    /// Account for elapsed samples since the last check.  The counter
    /// saturates rather than wrapping.
    pub fn update_sample_count(&mut self, elapsed_samples: u64)
        ensures
            *final(self) == spec_update_count(*old(self), elapsed_samples as int),
    {
        self.samples_since_pulse = self.samples_since_pulse.saturating_add(elapsed_samples);
    }

    /// Consult the controller with one batch of detections.
    ///
    /// A batch whose maximum strength exceeds the strong-signal threshold
    /// resets the silence counter and cuts the gain by one step.  A batch
    /// with detections below the threshold only resets the counter.  With
    /// no detections, once the silence counter exceeds the wait threshold
    /// the threshold is subtracted from it (preserving any excess) and the
    /// gain rises by one step.  Otherwise nothing changes and no new
    /// setting is returned.
    pub fn check_gain(&mut self, pulses: &[Pulse]) -> (r: Option<GainConfig>)
        requires
            old(self).wf(),
        ensures
            final(self).wf(),
            (*final(self), r) == spec_check_gain(*old(self), pulses@),
    {
        let max_pulse = batch_max(pulses);

        if let Some(strength) = max_pulse {
            self.samples_since_pulse = 0;

            if strength > STRONG_SIGNAL_MILLI {
                let total = self.current_gain.total_gain();
                self.current_gain = decrease_gain(total);
                return Some(self.current_gain);
            }
        }

        if self.samples_since_pulse > self.wait_time {
            self.samples_since_pulse = self.samples_since_pulse - self.wait_time;
            let total = self.current_gain.total_gain();
            self.current_gain = increase_gain(total);

            return Some(self.current_gain);
        }

        None
    }
}

/// Largest strength in the batch, or `None` for an empty batch.
fn batch_max(pulses: &[Pulse]) -> (r: Option<u32>)
    ensures
        match r {
            Some(m) => m as int == batch_max_strength(pulses@),
            None => pulses@.len() == 0,
        },
{
    if pulses.len() == 0 {
        return None;
    }

    let mut m: u32 = pulses[0].signal_strength_milli;
    let mut i: usize = 1;

    assert(batch_max_strength(Seq::<Pulse>::empty()) == -1);
    assert(pulses@.take(1).drop_last() =~= Seq::<Pulse>::empty());
    assert(pulses@.take(1).last() == pulses@[0]);

    while i < pulses.len()
        invariant
            1 <= i <= pulses@.len(),
            m as int == batch_max_strength(pulses@.take(i as int)),
        decreases pulses@.len() - i,
    {
        assert(pulses@.take(i + 1).drop_last() =~= pulses@.take(i as int));
        assert(pulses@.take(i + 1).last() == pulses@[i as int]);

        if pulses[i].signal_strength_milli > m {
            m = pulses[i].signal_strength_milli;
        }
        i = i + 1;
    }

    assert(pulses@.take(pulses@.len() as int) =~= pulses@);
    Some(m)
}

/// Whatever the controller decides, the gain setting stays within the
/// hardware's bounds: it never goes negative and never exceeds what the
/// two stages accept.
pub proof fn lemma_check_gain_preserves_bounds(gc: GainControl, pulses: Seq<Pulse>)
    requires
        gc.wf(),
    ensures
        spec_check_gain(gc, pulses).0.wf(),
        match spec_check_gain(gc, pulses).1 {
            Some(g) => g.wf(),
            None => true,
        },
{
}

} // verus!
