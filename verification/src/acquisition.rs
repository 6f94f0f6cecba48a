//! Acquisition task state machine and its supervisor.
//!
//! The acquisition worker owns the radio and the detection engine.  Its
//! run alternates between two states — idle, awaiting a command, and
//! streaming, pulling sample chunks — and is watched by a supervisor
//! that restarts it after any failure, following a fixed cooldown.  The
//! blocking waits, the device calls and the file writes happen outside;
//! this module holds every decision: what a command does to the run,
//! what one sample chunk does to the controller and the configuration,
//! which device settings a configuration requires, and what the
//! supervisor does with a failed run.

use vstd::prelude::*;

use crate::config::{Command, CommandV, Config, HackRFConfig, HackRFConfigV};
use crate::gain_control::{spec_check_gain, spec_update_count, GainControl};
use crate::pulse::Pulse;

verus! {

/// Seconds the supervisor waits before restarting a failed run.
pub const RETRY_COOLDOWN_SECS: u64 = 10;

/// The inner run's state.
#[derive(Clone, Copy, Debug, PartialEq, Eq, Structural)]
pub enum RunState {
    /// Blocked awaiting a command.
    Idle,
    /// Actively pulling sample chunks.
    Streaming,
    /// The run is over; the supervisor takes it from here.
    Terminated,
}

/// The state a command moves the run to: any `Start` enters streaming,
/// `Stop` (re-)enters idle, `Exit` ends the run.
pub open spec fn spec_dispatch(state: RunState, cmd: CommandV) -> RunState {
    match cmd {
        CommandV::Start(_) => RunState::Streaming,
        CommandV::Stop => RunState::Idle,
        CommandV::Exit => RunState::Terminated,
    }
}

/// Apply one command to the run.
///
/// `Start(Some(cfg))` replaces the active configuration before streaming
/// begins; `Start(None)` keeps every previously active parameter and
/// only re-enters streaming.  `Stop` never changes the configuration:
/// received while idle, the run simply remains idle awaiting the next
/// command.
pub fn dispatch_command(state: RunState, cmd: &Command, config: &mut Config) -> (next: RunState)
    ensures
        next == spec_dispatch(state, cmd@),
        match cmd@ {
            CommandV::Start(Some(new_config)) => final(config)@ == new_config,
            _ => final(config)@ == old(config)@,
        },
{
    match cmd {
        Command::Start(Some(new_config)) => {
            *config = new_config.clone_config();
            RunState::Streaming
        },
        Command::Start(None) => RunState::Streaming,
        Command::Stop => RunState::Idle,
        Command::Exit => RunState::Terminated,
    }
}

/// `Stop` while idle is a no-op: the run stays idle, its configuration
/// untouched, awaiting the next command.
pub proof fn lemma_stop_while_idle_is_noop()
    ensures
        spec_dispatch(RunState::Idle, CommandV::Stop) == RunState::Idle,
{
}

/// What the streaming loop decides after one sample chunk.
#[derive(Clone, Copy, Debug, PartialEq, Eq, Structural)]
pub enum ChunkOutcome {
    /// Keep streaming under the current configuration.
    Continue,
    /// A gain update was accepted: end this streaming iteration and
    /// immediately reconfigure and resume (a synthetic `Start(None)`).
    Reconfigure,
}

/// The acquisition worker's mutable state while streaming.
pub struct AcquisitionState {
    /// The active configuration; gain updates are written back into it.
    pub config: Config,
    /// The automatic gain controller.
    pub gain_control: GainControl,
    /// The device overflow counter as last observed.
    pub last_overflow: u64,
}

impl AcquisitionState {
    /// The controller's gain stays within hardware bounds.
    pub open spec fn wf(self) -> bool {
        self.gain_control.wf()
    }

    /// The active configuration, as a value.
    pub open spec fn spec_config(self) -> crate::config::ConfigV {
        self.config@
    }
}

/// Digest one sample chunk.
///
/// The device's overflow counter is compared with the last observed
/// value; a mismatch means dropped samples — reported, resynchronized,
/// and never fatal.  If automatic gain control is enabled, the elapsed
/// samples feed the controller and the detection batch is checked; an
/// accepted new setting is written into the pending configuration and
/// the caller is told to reconfigure and resume.  The detections
/// themselves always go on to the bridge, whatever is decided here.
pub fn handle_chunk(
    acq: &mut AcquisitionState,
    chunk_len: u64,
    overflow_now: u64,
    pulses: &[Pulse],
) -> (r: (bool, ChunkOutcome))
    requires
        old(acq).wf(),
    ensures
        final(acq).wf(),
        r.0 == (overflow_now != old(acq).last_overflow),
        final(acq).last_overflow == overflow_now,
        final(acq).config@.detector_config == old(acq).config@.detector_config,
        ({
            let h = old(acq).config@.hackrf_config;
            if h.auto_gain {
                let stepped = spec_update_count(old(acq).gain_control, chunk_len as int);
                let (checked, update) = spec_check_gain(stepped, pulses@);
                &&& final(acq).gain_control == checked
                &&& match update {
                    Some(g) => {
                        &&& final(acq).config@.hackrf_config == HackRFConfigV {
                            lna_gain: g.lna_gain,
                            vga_gain: g.vga_gain,
                            ..h
                        }
                        &&& r.1 == ChunkOutcome::Reconfigure
                    },
                    None => {
                        &&& final(acq).config@.hackrf_config == h
                        &&& r.1 == ChunkOutcome::Continue
                    },
                }
            } else {
                &&& final(acq).gain_control == old(acq).gain_control
                &&& final(acq).config@.hackrf_config == h
                &&& r.1 == ChunkOutcome::Continue
            }
        }),
{
    let dropped = overflow_now != acq.last_overflow;
    acq.last_overflow = overflow_now;

    if acq.config.hackrf_config.auto_gain {
        acq.gain_control.update_sample_count(chunk_len);
        if let Some(gain_update) = acq.gain_control.check_gain(pulses) {
            acq.config.hackrf_config.lna_gain = gain_update.lna_gain;
            acq.config.hackrf_config.vga_gain = gain_update.vga_gain;
            return (dropped, ChunkOutcome::Reconfigure);
        }
    }

    (dropped, ChunkOutcome::Continue)
}

/// One setting pushed to the radio while applying a configuration.
#[derive(Clone, Copy, Debug, PartialEq, Eq, Structural)]
pub enum DeviceOp {
    /// Set the sample rate, in samples per second.
    SetSampRate(u64),
    /// Set the center frequency, in hertz.
    SetFreq(u64),
    /// Set the LNA gain, in dB.
    SetLnaGain(u32),
    /// Set the VGA gain, in dB.
    SetVgaGain(u32),
    /// Enable or disable the RF amplifier.
    SetAmpEnable(bool),
    /// Enable or disable antenna port power.
    SetAntennaEnable(bool),
    /// Set the baseband filter bandwidth, in hertz.
    SetBasebandFilter(u64),
}

/// The settings a configuration pushes to the radio, in order; the
/// baseband filter is set last and only when configured.
pub open spec fn spec_setup_plan(h: HackRFConfigV) -> Seq<DeviceOp> {
    let fixed = seq![
        DeviceOp::SetSampRate(h.samp_rate),
        DeviceOp::SetFreq(h.center_freq),
        DeviceOp::SetLnaGain(h.lna_gain),
        DeviceOp::SetVgaGain(h.vga_gain),
        DeviceOp::SetAmpEnable(h.amp_enable),
        DeviceOp::SetAntennaEnable(h.antenna_enable),
    ];
    match h.baseband_filter {
        Some(bw) => fixed.push(DeviceOp::SetBasebandFilter(bw)),
        None => fixed,
    }
}

/// The ordered list of device settings to apply for a configuration.
/// Each is fallible at the device; a failure aborts the run and is the
/// supervisor's to handle.
pub fn device_setup_plan(h: &HackRFConfig) -> (r: Vec<DeviceOp>)
    ensures
        r@ == spec_setup_plan(h@),
{
    let mut ops: Vec<DeviceOp> = Vec::new();
    ops.push(DeviceOp::SetSampRate(h.samp_rate));
    ops.push(DeviceOp::SetFreq(h.center_freq));
    ops.push(DeviceOp::SetLnaGain(h.lna_gain));
    ops.push(DeviceOp::SetVgaGain(h.vga_gain));
    ops.push(DeviceOp::SetAmpEnable(h.amp_enable));
    ops.push(DeviceOp::SetAntennaEnable(h.antenna_enable));
    if let Some(bw) = h.baseband_filter {
        ops.push(DeviceOp::SetBasebandFilter(bw));
    }
    proof {
        assert(ops@ =~= spec_setup_plan(h@));
    }
    ops
}

/// What the supervisor decides after a run ends.
#[derive(Clone, Copy, Debug, PartialEq, Eq, Structural)]
pub enum SupervisorDecision {
    /// Restart the run from scratch after this many seconds of cooldown.
    RetryAfterCooldown(u64),
    /// The bounded retry policy is exhausted; stop restarting.
    Halt,
}

/// The crash-only supervisor: every way a run ends — device-open
/// failure, configuration failure, stream error, even an explicit
/// `Exit` — is treated the same, as a failure to recover from by
/// restarting after a fixed cooldown.  The retry policy is a parameter
/// so a bounded supervisor can be observed without real delays; the
/// production policy is unbounded.
pub struct Supervisor {
    /// Retries allowed, or `None` for the unbounded crash-only policy.
    pub retry_limit: Option<u64>,
    /// Runs restarted so far.
    pub retries: u64,
}

impl Supervisor {
    /// A supervisor that has not yet restarted anything.
    pub fn new(retry_limit: Option<u64>) -> (r: Supervisor)
        ensures
            r.retry_limit == retry_limit,
            r.retries == 0,
    {
        Supervisor { retry_limit, retries: 0 }
    }

    /// Decide what to do with a run that ended.  Under the limit (or
    /// always, when unbounded) the answer is one more restart after the
    /// fixed cooldown; at the limit, halt.  The process itself never
    /// terminates on a run failure.
    pub fn on_run_end(&mut self) -> (d: SupervisorDecision)
        ensures
            final(self).retry_limit == old(self).retry_limit,
            match old(self).retry_limit {
                Some(limit) => if old(self).retries < limit {
                    &&& d == SupervisorDecision::RetryAfterCooldown(RETRY_COOLDOWN_SECS)
                    &&& final(self).retries == old(self).retries + 1
                } else {
                    &&& d == SupervisorDecision::Halt
                    &&& final(self).retries == old(self).retries
                },
                None => {
                    &&& d == SupervisorDecision::RetryAfterCooldown(RETRY_COOLDOWN_SECS)
                    &&& final(self).retries == if old(self).retries < u64::MAX {
                        old(self).retries + 1
                    } else {
                        u64::MAX as int
                    }
                },
            },
    {
        match self.retry_limit {
            Some(limit) => {
                if self.retries < limit {
                    self.retries = self.retries + 1;
                    SupervisorDecision::RetryAfterCooldown(RETRY_COOLDOWN_SECS)
                } else {
                    SupervisorDecision::Halt
                }
            },
            None => {
                self.retries = self.retries.saturating_add(1);
                SupervisorDecision::RetryAfterCooldown(RETRY_COOLDOWN_SECS)
            },
        }
    }
}

} // verus!
