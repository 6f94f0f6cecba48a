//! Resolving the persisted configuration.
//!
//! The configuration file is optional: a missing file silently falls
//! back to the defaults, which the caller then persists; a present but
//! malformed file is a fatal startup condition, reported as an error
//! rather than patched over.  Reading and writing the file itself is
//! the application layer's; this module decides what its content means.

use vstd::prelude::*;

use crate::config::{Config, ConfigV, DetectorConfig, HackRFConfig};
use crate::payload::{decode_config, spec_config_payload};

verus! {

/// Why a present configuration file was rejected.
#[derive(Clone, Copy, Debug, PartialEq, Eq, Structural)]
pub enum ConfigError {
    /// The file's content is not a configuration payload.
    Malformed,
}

/// The configuration used when none has been persisted yet.
pub open spec fn spec_default_config() -> ConfigV {
    Config {
        hackrf_config: HackRFConfig {
            samp_rate: 10_000_000,
            center_freq: 150_000_000,
            lna_gain: 32,
            vga_gain: 30,
            amp_enable: false,
            antenna_enable: false,
            baseband_filter: None,
            raw_log: None,
            auto_gain: true,
        },
        detector_config: DetectorConfig { threshold_milli: 500, min_pulse_samples: 100 },
    }@
}

/// The configuration used when none has been persisted yet.
pub fn default_config() -> (r: Config)
    ensures
        r@ == spec_default_config(),
        r@.wf(),
{
    Config {
        hackrf_config: HackRFConfig {
            samp_rate: 10_000_000,
            center_freq: 150_000_000,
            lna_gain: 32,
            vga_gain: 30,
            amp_enable: false,
            antenna_enable: false,
            baseband_filter: None,
            raw_log: None,
            auto_gain: true,
        },
        detector_config: DetectorConfig { threshold_milli: 500, min_pulse_samples: 100 },
    }
}

/// Decide what loaded configuration-file content means.
///
/// No content (no file): the defaults are used, and the second result
/// says they should be persisted.  Content that decodes: exactly that
/// configuration is used, nothing is persisted.  Content that does not
/// decode: a fatal error, so an operator can fix or remove the file.
pub fn resolve_config_bytes(content: Option<&Vec<u8>>) -> (r: Result<(Config, bool), ConfigError>)
    ensures
        match content {
            None => {
                &&& r is Ok
                &&& r->Ok_0.0@ == spec_default_config()
                &&& r->Ok_0.1 == true
            },
            Some(b) => {
                &&& r is Ok ==> r->Ok_0.1 == false && b@ == spec_config_payload(r->Ok_0.0@)
                &&& (forall|c: ConfigV| b@ == spec_config_payload(c) ==> r is Ok && r->Ok_0.0@ == c)
                &&& r is Err ==> r->Err_0 == ConfigError::Malformed && (forall|c: ConfigV|
                    b@ != spec_config_payload(c))
            },
        },
{
    match content {
        None => Ok((default_config(), true)),
        Some(b) => match decode_config(b) {
            Some(cfg) => Ok((cfg, false)),
            None => Err(ConfigError::Malformed),
        },
    }
}

} // verus!
