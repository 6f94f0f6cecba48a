//! Capture configuration and the client command set.
//!
//! A `Config` describes one capture session: the device parameters pushed
//! to the radio and the parameters of the detection engine.  A `Command`
//! is what a client sends over the wire to control the shared acquisition
//! pipeline.  Contracts speak of these values through their views
//! (`HackRFConfigV`, `ConfigV`, `CommandV`), which carry the raw-log path
//! as a byte sequence.

use vstd::prelude::*;

verus! {

/// Largest LNA (low-noise amplifier) gain the radio accepts, in dB.
pub const MAX_LNA_GAIN: u32 = 40;
/// Largest VGA (baseband) gain the radio accepts, in dB.
pub const MAX_VGA_GAIN: u32 = 62;
/// Largest sample rate the radio supports, in samples per second.
pub const MAX_SAMP_RATE: u64 = 20_000_000;

/// Device parameters for the radio front end.
#[derive(Clone, Debug, PartialEq)]
pub struct HackRFConfig {
    /// Sample rate in samples per second.
    pub samp_rate: u64,
    /// Center frequency in hertz.
    pub center_freq: u64,
    /// LNA gain in dB.
    pub lna_gain: u32,
    /// VGA gain in dB.
    pub vga_gain: u32,
    /// Whether the RF amplifier is enabled.
    pub amp_enable: bool,
    /// Whether antenna port power is enabled.
    pub antenna_enable: bool,
    /// Baseband filter bandwidth in hertz, or `None` for the device default.
    pub baseband_filter: Option<u64>,
    /// Path of an append-only raw-sample log, as raw path bytes, or `None`
    /// to disable raw logging.
    pub raw_log: Option<Vec<u8>>,
    /// Whether the automatic gain controller may adjust the gain.
    pub auto_gain: bool,
}

/// The mathematical value of a `HackRFConfig`: the same parameters, with
/// the raw-log path as a byte sequence.
#[verifier::ext_equal]
pub struct HackRFConfigV {
    /// Sample rate in samples per second.
    pub samp_rate: u64,
    /// Center frequency in hertz.
    pub center_freq: u64,
    /// LNA gain in dB.
    pub lna_gain: u32,
    /// VGA gain in dB.
    pub vga_gain: u32,
    /// Whether the RF amplifier is enabled.
    pub amp_enable: bool,
    /// Whether antenna port power is enabled.
    pub antenna_enable: bool,
    /// Baseband filter bandwidth in hertz, if set.
    pub baseband_filter: Option<u64>,
    /// Raw-sample log path bytes, if raw logging is enabled.
    pub raw_log: Option<Seq<u8>>,
    /// Whether the automatic gain controller may adjust the gain.
    pub auto_gain: bool,
}

impl View for HackRFConfig {
    type V = HackRFConfigV;

    open spec fn view(&self) -> HackRFConfigV {
        HackRFConfigV {
            samp_rate: self.samp_rate,
            center_freq: self.center_freq,
            lna_gain: self.lna_gain,
            vga_gain: self.vga_gain,
            amp_enable: self.amp_enable,
            antenna_enable: self.antenna_enable,
            baseband_filter: self.baseband_filter,
            raw_log: match self.raw_log {
                Some(p) => Some(p@),
                None => None,
            },
            auto_gain: self.auto_gain,
        }
    }
}

impl HackRFConfigV {
    /// The parameters the device itself can accept.
    pub open spec fn wf(self) -> bool {
        &&& self.samp_rate <= MAX_SAMP_RATE
        &&& self.lna_gain <= MAX_LNA_GAIN
        &&& self.vga_gain <= MAX_VGA_GAIN
    }
}

impl HackRFConfig {
    /// An owned copy with the same value.
    pub fn clone_hackrf(&self) -> (r: HackRFConfig)
        ensures
            r@ == self@,
    {
        let raw_log = match &self.raw_log {
            Some(p) => Some(crate::wire::copy_bytes(p)),
            None => None,
        };
        let r = HackRFConfig {
            samp_rate: self.samp_rate,
            center_freq: self.center_freq,
            lna_gain: self.lna_gain,
            vga_gain: self.vga_gain,
            amp_enable: self.amp_enable,
            antenna_enable: self.antenna_enable,
            baseband_filter: self.baseband_filter,
            raw_log,
            auto_gain: self.auto_gain,
        };
        r
    }
}

/// Parameters of the detection engine.
#[derive(Clone, Copy, Debug, PartialEq, Eq, Structural)]
pub struct DetectorConfig {
    /// Detection threshold in thousandths of the normalized unit.
    pub threshold_milli: u32,
    /// Minimum pulse duration, in samples, for a detection to be reported.
    pub min_pulse_samples: u32,
}

/// One capture session's full configuration.
#[derive(Clone, Debug, PartialEq)]
pub struct Config {
    /// Device parameters.
    pub hackrf_config: HackRFConfig,
    /// Detection-engine parameters.
    pub detector_config: DetectorConfig,
}

/// The mathematical value of a `Config`.
#[verifier::ext_equal]
pub struct ConfigV {
    /// Device parameters.
    pub hackrf_config: HackRFConfigV,
    /// Detection-engine parameters.
    pub detector_config: DetectorConfig,
}

impl View for Config {
    type V = ConfigV;

    open spec fn view(&self) -> ConfigV {
        ConfigV { hackrf_config: self.hackrf_config@, detector_config: self.detector_config }
    }
}

impl ConfigV {
    /// A configuration the device and controller can accept.
    pub open spec fn wf(self) -> bool {
        self.hackrf_config.wf()
    }
}

impl Config {
    /// An owned copy with the same value.
    pub fn clone_config(&self) -> (r: Config)
        ensures
            r@ == self@,
    {
        Config {
            hackrf_config: self.hackrf_config.clone_hackrf(),
            detector_config: self.detector_config,
        }
    }
}

/// A control message sent by a client to the acquisition pipeline.
///
/// `Start(None)` resumes or reconfigures gain only, keeping the active
/// configuration; `Start(Some(cfg))` replaces the active configuration.
#[derive(Clone, Debug, PartialEq)]
pub enum Command {
    /// Begin (or re-begin) streaming, optionally with a new configuration.
    Start(Option<Config>),
    /// Stop streaming and wait for the next command.
    Stop,
    /// Terminate the current acquisition run.
    Exit,
}

/// The mathematical value of a `Command`.
#[verifier::ext_equal]
pub enum CommandV {
    /// Begin (or re-begin) streaming, optionally with a new configuration.
    Start(Option<ConfigV>),
    /// Stop streaming and wait for the next command.
    Stop,
    /// Terminate the current acquisition run.
    Exit,
}

impl View for Command {
    type V = CommandV;

    open spec fn view(&self) -> CommandV {
        match self {
            Command::Start(Some(c)) => CommandV::Start(Some(c@)),
            Command::Start(None) => CommandV::Start(None),
            Command::Stop => CommandV::Stop,
            Command::Exit => CommandV::Exit,
        }
    }
}

} // verus!
