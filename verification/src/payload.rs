//! Payload encoding of detections, commands and configurations.
//!
//! Payloads are structured text in a JSON-compatible shape with a fixed
//! field order.  Every encoder states exactly the bytes it produces;
//! every decoder is exact: it accepts precisely the encodings and pins
//! down the one value that produced them.

use vstd::prelude::*;

use crate::codec::{
    is_digit,
    bool_at, bool_lit, dec_rep, emit_bool, emit_string, emit_u64, esc_bytes, json_string,
    lemma_bool_at_unique, lemma_num_at_unique, lemma_parse_content_complete,
    lemma_parse_content_sound, lemma_split_at, lemma_subrange_join, lemma_tail_split, num_at, parse_bool,
    parse_str_content, parse_string, parse_u64, append_bytes, expect_bytes, QUOTE,
};
use crate::config::{Command, CommandV, Config, ConfigV, DetectorConfig, HackRFConfig, HackRFConfigV};
use crate::pulse::Pulse;

verus! {

/// The bytes of `{"freq_hz":`.
pub open spec fn lit_pulse_open() -> Seq<u8> {
    seq![0x7bu8, 0x22u8, 0x66u8, 0x72u8, 0x65u8, 0x71u8, 0x5fu8, 0x68u8, 0x7au8, 0x22u8, 0x3au8]
}

/// The bytes of `{"freq_hz":`, as a vector.
pub fn lit_pulse_open_vec() -> (r: Vec<u8>)
    ensures
        r@ == lit_pulse_open(),
{
    let mut v: Vec<u8> = Vec::new();
    v.push(0x7b);
    v.push(0x22);
    v.push(0x66);
    v.push(0x72);
    v.push(0x65);
    v.push(0x71);
    v.push(0x5f);
    v.push(0x68);
    v.push(0x7a);
    v.push(0x22);
    v.push(0x3a);
    proof {
        assert(v@ =~= lit_pulse_open());
    }
    v
}

/// The bytes of `,"signal_strength_milli":`.
pub open spec fn lit_sep_strength() -> Seq<u8> {
    seq![0x2cu8, 0x22u8, 0x73u8, 0x69u8, 0x67u8, 0x6eu8, 0x61u8, 0x6cu8, 0x5fu8, 0x73u8, 0x74u8, 0x72u8, 0x65u8, 0x6eu8, 0x67u8, 0x74u8, 0x68u8, 0x5fu8, 0x6du8, 0x69u8, 0x6cu8, 0x6cu8, 0x69u8, 0x22u8, 0x3au8]
}

/// The bytes of `,"signal_strength_milli":`, as a vector.
pub fn lit_sep_strength_vec() -> (r: Vec<u8>)
    ensures
        r@ == lit_sep_strength(),
{
    let mut v: Vec<u8> = Vec::new();
    v.push(0x2c);
    v.push(0x22);
    v.push(0x73);
    v.push(0x69);
    v.push(0x67);
    v.push(0x6e);
    v.push(0x61);
    v.push(0x6c);
    v.push(0x5f);
    v.push(0x73);
    v.push(0x74);
    v.push(0x72);
    v.push(0x65);
    v.push(0x6e);
    v.push(0x67);
    v.push(0x74);
    v.push(0x68);
    v.push(0x5f);
    v.push(0x6d);
    v.push(0x69);
    v.push(0x6c);
    v.push(0x6c);
    v.push(0x69);
    v.push(0x22);
    v.push(0x3a);
    proof {
        assert(v@ =~= lit_sep_strength());
    }
    v
}

/// The bytes of `,"gain":`.
pub open spec fn lit_sep_gain() -> Seq<u8> {
    seq![0x2cu8, 0x22u8, 0x67u8, 0x61u8, 0x69u8, 0x6eu8, 0x22u8, 0x3au8]
}

/// The bytes of `,"gain":`, as a vector.
pub fn lit_sep_gain_vec() -> (r: Vec<u8>)
    ensures
        r@ == lit_sep_gain(),
{
    let mut v: Vec<u8> = Vec::new();
    v.push(0x2c);
    v.push(0x22);
    v.push(0x67);
    v.push(0x61);
    v.push(0x69);
    v.push(0x6e);
    v.push(0x22);
    v.push(0x3a);
    proof {
        assert(v@ =~= lit_sep_gain());
    }
    v
}

/// The bytes of `,"timestamp_ms":`.
pub open spec fn lit_sep_timestamp() -> Seq<u8> {
    seq![0x2cu8, 0x22u8, 0x74u8, 0x69u8, 0x6du8, 0x65u8, 0x73u8, 0x74u8, 0x61u8, 0x6du8, 0x70u8, 0x5fu8, 0x6du8, 0x73u8, 0x22u8, 0x3au8]
}

/// The bytes of `,"timestamp_ms":`, as a vector.
pub fn lit_sep_timestamp_vec() -> (r: Vec<u8>)
    ensures
        r@ == lit_sep_timestamp(),
{
    let mut v: Vec<u8> = Vec::new();
    v.push(0x2c);
    v.push(0x22);
    v.push(0x74);
    v.push(0x69);
    v.push(0x6d);
    v.push(0x65);
    v.push(0x73);
    v.push(0x74);
    v.push(0x61);
    v.push(0x6d);
    v.push(0x70);
    v.push(0x5f);
    v.push(0x6d);
    v.push(0x73);
    v.push(0x22);
    v.push(0x3a);
    proof {
        assert(v@ =~= lit_sep_timestamp());
    }
    v
}

/// The bytes of `}`.
pub open spec fn lit_close_brace() -> Seq<u8> {
    seq![0x7du8]
}

/// The bytes of `}`, as a vector.
pub fn lit_close_brace_vec() -> (r: Vec<u8>)
    ensures
        r@ == lit_close_brace(),
{
    let mut v: Vec<u8> = Vec::new();
    v.push(0x7d);
    proof {
        assert(v@ =~= lit_close_brace());
    }
    v
}

/// The bytes of `{"hackrf_config":{"samp_rate":`.
pub open spec fn lit_cfg_open() -> Seq<u8> {
    seq![0x7bu8, 0x22u8, 0x68u8, 0x61u8, 0x63u8, 0x6bu8, 0x72u8, 0x66u8, 0x5fu8, 0x63u8, 0x6fu8, 0x6eu8, 0x66u8, 0x69u8, 0x67u8, 0x22u8, 0x3au8, 0x7bu8, 0x22u8, 0x73u8, 0x61u8, 0x6du8, 0x70u8, 0x5fu8, 0x72u8, 0x61u8, 0x74u8, 0x65u8, 0x22u8, 0x3au8]
}

/// The bytes of `{"hackrf_config":{"samp_rate":`, as a vector.
pub fn lit_cfg_open_vec() -> (r: Vec<u8>)
    ensures
        r@ == lit_cfg_open(),
{
    let mut v: Vec<u8> = Vec::new();
    v.push(0x7b);
    v.push(0x22);
    v.push(0x68);
    v.push(0x61);
    v.push(0x63);
    v.push(0x6b);
    v.push(0x72);
    v.push(0x66);
    v.push(0x5f);
    v.push(0x63);
    v.push(0x6f);
    v.push(0x6e);
    v.push(0x66);
    v.push(0x69);
    v.push(0x67);
    v.push(0x22);
    v.push(0x3a);
    v.push(0x7b);
    v.push(0x22);
    v.push(0x73);
    v.push(0x61);
    v.push(0x6d);
    v.push(0x70);
    v.push(0x5f);
    v.push(0x72);
    v.push(0x61);
    v.push(0x74);
    v.push(0x65);
    v.push(0x22);
    v.push(0x3a);
    proof {
        assert(v@ =~= lit_cfg_open());
    }
    v
}

/// The bytes of `,"center_freq":`.
pub open spec fn lit_sep_center_freq() -> Seq<u8> {
    seq![0x2cu8, 0x22u8, 0x63u8, 0x65u8, 0x6eu8, 0x74u8, 0x65u8, 0x72u8, 0x5fu8, 0x66u8, 0x72u8, 0x65u8, 0x71u8, 0x22u8, 0x3au8]
}

/// The bytes of `,"center_freq":`, as a vector.
pub fn lit_sep_center_freq_vec() -> (r: Vec<u8>)
    ensures
        r@ == lit_sep_center_freq(),
{
    let mut v: Vec<u8> = Vec::new();
    v.push(0x2c);
    v.push(0x22);
    v.push(0x63);
    v.push(0x65);
    v.push(0x6e);
    v.push(0x74);
    v.push(0x65);
    v.push(0x72);
    v.push(0x5f);
    v.push(0x66);
    v.push(0x72);
    v.push(0x65);
    v.push(0x71);
    v.push(0x22);
    v.push(0x3a);
    proof {
        assert(v@ =~= lit_sep_center_freq());
    }
    v
}

/// The bytes of `,"lna_gain":`.
pub open spec fn lit_sep_lna_gain() -> Seq<u8> {
    seq![0x2cu8, 0x22u8, 0x6cu8, 0x6eu8, 0x61u8, 0x5fu8, 0x67u8, 0x61u8, 0x69u8, 0x6eu8, 0x22u8, 0x3au8]
}

/// The bytes of `,"lna_gain":`, as a vector.
pub fn lit_sep_lna_gain_vec() -> (r: Vec<u8>)
    ensures
        r@ == lit_sep_lna_gain(),
{
    let mut v: Vec<u8> = Vec::new();
    v.push(0x2c);
    v.push(0x22);
    v.push(0x6c);
    v.push(0x6e);
    v.push(0x61);
    v.push(0x5f);
    v.push(0x67);
    v.push(0x61);
    v.push(0x69);
    v.push(0x6e);
    v.push(0x22);
    v.push(0x3a);
    proof {
        assert(v@ =~= lit_sep_lna_gain());
    }
    v
}

/// The bytes of `,"vga_gain":`.
pub open spec fn lit_sep_vga_gain() -> Seq<u8> {
    seq![0x2cu8, 0x22u8, 0x76u8, 0x67u8, 0x61u8, 0x5fu8, 0x67u8, 0x61u8, 0x69u8, 0x6eu8, 0x22u8, 0x3au8]
}

/// The bytes of `,"vga_gain":`, as a vector.
pub fn lit_sep_vga_gain_vec() -> (r: Vec<u8>)
    ensures
        r@ == lit_sep_vga_gain(),
{
    let mut v: Vec<u8> = Vec::new();
    v.push(0x2c);
    v.push(0x22);
    v.push(0x76);
    v.push(0x67);
    v.push(0x61);
    v.push(0x5f);
    v.push(0x67);
    v.push(0x61);
    v.push(0x69);
    v.push(0x6e);
    v.push(0x22);
    v.push(0x3a);
    proof {
        assert(v@ =~= lit_sep_vga_gain());
    }
    v
}

/// The bytes of `,"amp_enable":`.
pub open spec fn lit_sep_amp_enable() -> Seq<u8> {
    seq![0x2cu8, 0x22u8, 0x61u8, 0x6du8, 0x70u8, 0x5fu8, 0x65u8, 0x6eu8, 0x61u8, 0x62u8, 0x6cu8, 0x65u8, 0x22u8, 0x3au8]
}

/// The bytes of `,"amp_enable":`, as a vector.
pub fn lit_sep_amp_enable_vec() -> (r: Vec<u8>)
    ensures
        r@ == lit_sep_amp_enable(),
{
    let mut v: Vec<u8> = Vec::new();
    v.push(0x2c);
    v.push(0x22);
    v.push(0x61);
    v.push(0x6d);
    v.push(0x70);
    v.push(0x5f);
    v.push(0x65);
    v.push(0x6e);
    v.push(0x61);
    v.push(0x62);
    v.push(0x6c);
    v.push(0x65);
    v.push(0x22);
    v.push(0x3a);
    proof {
        assert(v@ =~= lit_sep_amp_enable());
    }
    v
}

/// The bytes of `,"antenna_enable":`.
pub open spec fn lit_sep_antenna_enable() -> Seq<u8> {
    seq![0x2cu8, 0x22u8, 0x61u8, 0x6eu8, 0x74u8, 0x65u8, 0x6eu8, 0x6eu8, 0x61u8, 0x5fu8, 0x65u8, 0x6eu8, 0x61u8, 0x62u8, 0x6cu8, 0x65u8, 0x22u8, 0x3au8]
}

/// The bytes of `,"antenna_enable":`, as a vector.
pub fn lit_sep_antenna_enable_vec() -> (r: Vec<u8>)
    ensures
        r@ == lit_sep_antenna_enable(),
{
    let mut v: Vec<u8> = Vec::new();
    v.push(0x2c);
    v.push(0x22);
    v.push(0x61);
    v.push(0x6e);
    v.push(0x74);
    v.push(0x65);
    v.push(0x6e);
    v.push(0x6e);
    v.push(0x61);
    v.push(0x5f);
    v.push(0x65);
    v.push(0x6e);
    v.push(0x61);
    v.push(0x62);
    v.push(0x6c);
    v.push(0x65);
    v.push(0x22);
    v.push(0x3a);
    proof {
        assert(v@ =~= lit_sep_antenna_enable());
    }
    v
}

/// The bytes of `,"baseband_filter":`.
pub open spec fn lit_sep_baseband_filter() -> Seq<u8> {
    seq![0x2cu8, 0x22u8, 0x62u8, 0x61u8, 0x73u8, 0x65u8, 0x62u8, 0x61u8, 0x6eu8, 0x64u8, 0x5fu8, 0x66u8, 0x69u8, 0x6cu8, 0x74u8, 0x65u8, 0x72u8, 0x22u8, 0x3au8]
}

/// The bytes of `,"baseband_filter":`, as a vector.
pub fn lit_sep_baseband_filter_vec() -> (r: Vec<u8>)
    ensures
        r@ == lit_sep_baseband_filter(),
{
    let mut v: Vec<u8> = Vec::new();
    v.push(0x2c);
    v.push(0x22);
    v.push(0x62);
    v.push(0x61);
    v.push(0x73);
    v.push(0x65);
    v.push(0x62);
    v.push(0x61);
    v.push(0x6e);
    v.push(0x64);
    v.push(0x5f);
    v.push(0x66);
    v.push(0x69);
    v.push(0x6c);
    v.push(0x74);
    v.push(0x65);
    v.push(0x72);
    v.push(0x22);
    v.push(0x3a);
    proof {
        assert(v@ =~= lit_sep_baseband_filter());
    }
    v
}

/// The bytes of `,"raw_log":`.
pub open spec fn lit_sep_raw_log() -> Seq<u8> {
    seq![0x2cu8, 0x22u8, 0x72u8, 0x61u8, 0x77u8, 0x5fu8, 0x6cu8, 0x6fu8, 0x67u8, 0x22u8, 0x3au8]
}

/// The bytes of `,"raw_log":`, as a vector.
pub fn lit_sep_raw_log_vec() -> (r: Vec<u8>)
    ensures
        r@ == lit_sep_raw_log(),
{
    let mut v: Vec<u8> = Vec::new();
    v.push(0x2c);
    v.push(0x22);
    v.push(0x72);
    v.push(0x61);
    v.push(0x77);
    v.push(0x5f);
    v.push(0x6c);
    v.push(0x6f);
    v.push(0x67);
    v.push(0x22);
    v.push(0x3a);
    proof {
        assert(v@ =~= lit_sep_raw_log());
    }
    v
}

/// The bytes of `,"auto_gain":`.
pub open spec fn lit_sep_auto_gain() -> Seq<u8> {
    seq![0x2cu8, 0x22u8, 0x61u8, 0x75u8, 0x74u8, 0x6fu8, 0x5fu8, 0x67u8, 0x61u8, 0x69u8, 0x6eu8, 0x22u8, 0x3au8]
}

/// The bytes of `,"auto_gain":`, as a vector.
pub fn lit_sep_auto_gain_vec() -> (r: Vec<u8>)
    ensures
        r@ == lit_sep_auto_gain(),
{
    let mut v: Vec<u8> = Vec::new();
    v.push(0x2c);
    v.push(0x22);
    v.push(0x61);
    v.push(0x75);
    v.push(0x74);
    v.push(0x6f);
    v.push(0x5f);
    v.push(0x67);
    v.push(0x61);
    v.push(0x69);
    v.push(0x6e);
    v.push(0x22);
    v.push(0x3a);
    proof {
        assert(v@ =~= lit_sep_auto_gain());
    }
    v
}

/// The bytes of `},"detector_config":{"threshold_milli":`.
pub open spec fn lit_det_open() -> Seq<u8> {
    seq![0x7du8, 0x2cu8, 0x22u8, 0x64u8, 0x65u8, 0x74u8, 0x65u8, 0x63u8, 0x74u8, 0x6fu8, 0x72u8, 0x5fu8, 0x63u8, 0x6fu8, 0x6eu8, 0x66u8, 0x69u8, 0x67u8, 0x22u8, 0x3au8, 0x7bu8, 0x22u8, 0x74u8, 0x68u8, 0x72u8, 0x65u8, 0x73u8, 0x68u8, 0x6fu8, 0x6cu8, 0x64u8, 0x5fu8, 0x6du8, 0x69u8, 0x6cu8, 0x6cu8, 0x69u8, 0x22u8, 0x3au8]
}

/// The bytes of `},"detector_config":{"threshold_milli":`, as a vector.
pub fn lit_det_open_vec() -> (r: Vec<u8>)
    ensures
        r@ == lit_det_open(),
{
    let mut v: Vec<u8> = Vec::new();
    v.push(0x7d);
    v.push(0x2c);
    v.push(0x22);
    v.push(0x64);
    v.push(0x65);
    v.push(0x74);
    v.push(0x65);
    v.push(0x63);
    v.push(0x74);
    v.push(0x6f);
    v.push(0x72);
    v.push(0x5f);
    v.push(0x63);
    v.push(0x6f);
    v.push(0x6e);
    v.push(0x66);
    v.push(0x69);
    v.push(0x67);
    v.push(0x22);
    v.push(0x3a);
    v.push(0x7b);
    v.push(0x22);
    v.push(0x74);
    v.push(0x68);
    v.push(0x72);
    v.push(0x65);
    v.push(0x73);
    v.push(0x68);
    v.push(0x6f);
    v.push(0x6c);
    v.push(0x64);
    v.push(0x5f);
    v.push(0x6d);
    v.push(0x69);
    v.push(0x6c);
    v.push(0x6c);
    v.push(0x69);
    v.push(0x22);
    v.push(0x3a);
    proof {
        assert(v@ =~= lit_det_open());
    }
    v
}

/// The bytes of `,"min_pulse_samples":`.
pub open spec fn lit_sep_min_pulse_samples() -> Seq<u8> {
    seq![0x2cu8, 0x22u8, 0x6du8, 0x69u8, 0x6eu8, 0x5fu8, 0x70u8, 0x75u8, 0x6cu8, 0x73u8, 0x65u8, 0x5fu8, 0x73u8, 0x61u8, 0x6du8, 0x70u8, 0x6cu8, 0x65u8, 0x73u8, 0x22u8, 0x3au8]
}

/// The bytes of `,"min_pulse_samples":`, as a vector.
pub fn lit_sep_min_pulse_samples_vec() -> (r: Vec<u8>)
    ensures
        r@ == lit_sep_min_pulse_samples(),
{
    let mut v: Vec<u8> = Vec::new();
    v.push(0x2c);
    v.push(0x22);
    v.push(0x6d);
    v.push(0x69);
    v.push(0x6e);
    v.push(0x5f);
    v.push(0x70);
    v.push(0x75);
    v.push(0x6c);
    v.push(0x73);
    v.push(0x65);
    v.push(0x5f);
    v.push(0x73);
    v.push(0x61);
    v.push(0x6d);
    v.push(0x70);
    v.push(0x6c);
    v.push(0x65);
    v.push(0x73);
    v.push(0x22);
    v.push(0x3a);
    proof {
        assert(v@ =~= lit_sep_min_pulse_samples());
    }
    v
}

/// The bytes of `}}`.
pub open spec fn lit_cfg_close() -> Seq<u8> {
    seq![0x7du8, 0x7du8]
}

/// The bytes of `}}`, as a vector.
pub fn lit_cfg_close_vec() -> (r: Vec<u8>)
    ensures
        r@ == lit_cfg_close(),
{
    let mut v: Vec<u8> = Vec::new();
    v.push(0x7d);
    v.push(0x7d);
    proof {
        assert(v@ =~= lit_cfg_close());
    }
    v
}

/// The bytes of `null`.
pub open spec fn lit_null() -> Seq<u8> {
    seq![0x6eu8, 0x75u8, 0x6cu8, 0x6cu8]
}

/// The bytes of `null`, as a vector.
pub fn lit_null_vec() -> (r: Vec<u8>)
    ensures
        r@ == lit_null(),
{
    let mut v: Vec<u8> = Vec::new();
    v.push(0x6e);
    v.push(0x75);
    v.push(0x6c);
    v.push(0x6c);
    proof {
        assert(v@ =~= lit_null());
    }
    v
}

/// The bytes of `"Stop"`.
pub open spec fn lit_cmd_stop() -> Seq<u8> {
    seq![0x22u8, 0x53u8, 0x74u8, 0x6fu8, 0x70u8, 0x22u8]
}

/// The bytes of `"Stop"`, as a vector.
pub fn lit_cmd_stop_vec() -> (r: Vec<u8>)
    ensures
        r@ == lit_cmd_stop(),
{
    let mut v: Vec<u8> = Vec::new();
    v.push(0x22);
    v.push(0x53);
    v.push(0x74);
    v.push(0x6f);
    v.push(0x70);
    v.push(0x22);
    proof {
        assert(v@ =~= lit_cmd_stop());
    }
    v
}

/// The bytes of `"Exit"`.
pub open spec fn lit_cmd_exit() -> Seq<u8> {
    seq![0x22u8, 0x45u8, 0x78u8, 0x69u8, 0x74u8, 0x22u8]
}

/// The bytes of `"Exit"`, as a vector.
pub fn lit_cmd_exit_vec() -> (r: Vec<u8>)
    ensures
        r@ == lit_cmd_exit(),
{
    let mut v: Vec<u8> = Vec::new();
    v.push(0x22);
    v.push(0x45);
    v.push(0x78);
    v.push(0x69);
    v.push(0x74);
    v.push(0x22);
    proof {
        assert(v@ =~= lit_cmd_exit());
    }
    v
}

/// The bytes of `{"Start":`.
pub open spec fn lit_start_open() -> Seq<u8> {
    seq![0x7bu8, 0x22u8, 0x53u8, 0x74u8, 0x61u8, 0x72u8, 0x74u8, 0x22u8, 0x3au8]
}

/// The bytes of `{"Start":`, as a vector.
pub fn lit_start_open_vec() -> (r: Vec<u8>)
    ensures
        r@ == lit_start_open(),
{
    let mut v: Vec<u8> = Vec::new();
    v.push(0x7b);
    v.push(0x22);
    v.push(0x53);
    v.push(0x74);
    v.push(0x61);
    v.push(0x72);
    v.push(0x74);
    v.push(0x22);
    v.push(0x3a);
    proof {
        assert(v@ =~= lit_start_open());
    }
    v
}

/// An optional number: `null` or its decimal digits.
pub open spec fn spec_opt_u64(o: Option<u64>) -> Seq<u8> {
    match o {
        None => lit_null(),
        Some(v) => dec_rep(v as nat),
    }
}

/// An optional byte string: `null` or its quoted, escaped form.
pub open spec fn spec_opt_bytes(o: Option<Seq<u8>>) -> Seq<u8> {
    match o {
        None => lit_null(),
        Some(s) => json_string(s),
    }
}

/// The payload of a detection from its frequency field on.
pub open spec fn pt_freq(p: Pulse) -> Seq<u8> {
    dec_rep(p.freq_hz as nat) + pt_strength(p)
}

/// ... from the signal-strength field on.
pub open spec fn pt_strength(p: Pulse) -> Seq<u8> {
    lit_sep_strength() + dec_rep(p.signal_strength_milli as nat) + pt_gain(p)
}

/// ... from the gain field on.
pub open spec fn pt_gain(p: Pulse) -> Seq<u8> {
    lit_sep_gain() + dec_rep(p.gain as nat) + pt_timestamp(p)
}

/// ... from the timestamp field on.
pub open spec fn pt_timestamp(p: Pulse) -> Seq<u8> {
    lit_sep_timestamp() + dec_rep(p.timestamp_ms as nat) + lit_close_brace()
}

/// The full payload of one detection.
pub open spec fn spec_pulse_payload(p: Pulse) -> Seq<u8> {
    lit_pulse_open() + pt_freq(p)
}

/// The payload of a configuration from its sample-rate field on.
pub open spec fn ct_samp(c: ConfigV) -> Seq<u8> {
    dec_rep(c.hackrf_config.samp_rate as nat) + ct_center(c)
}

/// ... from the center-frequency field on.
pub open spec fn ct_center(c: ConfigV) -> Seq<u8> {
    lit_sep_center_freq() + dec_rep(c.hackrf_config.center_freq as nat) + ct_lna(c)
}

/// ... from the LNA-gain field on.
pub open spec fn ct_lna(c: ConfigV) -> Seq<u8> {
    lit_sep_lna_gain() + dec_rep(c.hackrf_config.lna_gain as nat) + ct_vga(c)
}

/// ... from the VGA-gain field on.
pub open spec fn ct_vga(c: ConfigV) -> Seq<u8> {
    lit_sep_vga_gain() + dec_rep(c.hackrf_config.vga_gain as nat) + ct_amp(c)
}

/// ... from the amplifier-enable field on.
pub open spec fn ct_amp(c: ConfigV) -> Seq<u8> {
    lit_sep_amp_enable() + bool_lit(c.hackrf_config.amp_enable) + ct_antenna(c)
}

/// ... from the antenna-enable field on.
pub open spec fn ct_antenna(c: ConfigV) -> Seq<u8> {
    lit_sep_antenna_enable() + bool_lit(c.hackrf_config.antenna_enable) + ct_baseband(c)
}

/// ... from the baseband-filter field on.
pub open spec fn ct_baseband(c: ConfigV) -> Seq<u8> {
    lit_sep_baseband_filter() + spec_opt_u64(c.hackrf_config.baseband_filter) + ct_raw_log(c)
}

/// ... from the raw-log field on.
pub open spec fn ct_raw_log(c: ConfigV) -> Seq<u8> {
    lit_sep_raw_log() + spec_opt_bytes(c.hackrf_config.raw_log) + ct_auto(c)
}

/// ... from the auto-gain field on.
pub open spec fn ct_auto(c: ConfigV) -> Seq<u8> {
    lit_sep_auto_gain() + bool_lit(c.hackrf_config.auto_gain) + ct_threshold(c)
}

/// ... from the detector threshold field on.
pub open spec fn ct_threshold(c: ConfigV) -> Seq<u8> {
    lit_det_open() + dec_rep(c.detector_config.threshold_milli as nat) + ct_min_pulse(c)
}

/// ... from the detector minimum-pulse field on.
pub open spec fn ct_min_pulse(c: ConfigV) -> Seq<u8> {
    lit_sep_min_pulse_samples() + dec_rep(c.detector_config.min_pulse_samples as nat)
        + lit_cfg_close()
}

/// The full payload of one configuration.
pub open spec fn spec_config_payload(c: ConfigV) -> Seq<u8> {
    lit_cfg_open() + ct_samp(c)
}

/// The full payload of one command.
pub open spec fn spec_command_payload(c: CommandV) -> Seq<u8> {
    match c {
        CommandV::Stop => lit_cmd_stop(),
        CommandV::Exit => lit_cmd_exit(),
        CommandV::Start(None) => lit_start_open() + lit_null() + lit_close_brace(),
        CommandV::Start(Some(cfg)) => lit_start_open() + spec_config_payload(cfg)
            + lit_close_brace(),
    }
}

/// Encode one detection.
pub fn encode_pulse(p: &Pulse) -> (r: Vec<u8>)
    ensures
        r@ == spec_pulse_payload(*p),
{
    let mut out = lit_pulse_open_vec();
    emit_u64(&mut out, p.freq_hz);
    let sep1 = lit_sep_strength_vec();
    append_bytes(&mut out, &sep1);
    emit_u64(&mut out, p.signal_strength_milli as u64);
    let sep2 = lit_sep_gain_vec();
    append_bytes(&mut out, &sep2);
    emit_u64(&mut out, p.gain as u64);
    let sep3 = lit_sep_timestamp_vec();
    append_bytes(&mut out, &sep3);
    emit_u64(&mut out, p.timestamp_ms);
    out.push(0x7d);
    proof {
        assert(out@ =~= spec_pulse_payload(*p));
    }
    out
}

/// Rebracketing one encoding step: appending a separator, a value and
/// then the rest equals appending the whole right-nested tail.
proof fn lemma_emit_step(l: Seq<u8>, a: Seq<u8>, b: Seq<u8>, rest: Seq<u8>)
    ensures
        l + ((a + b) + rest) == ((l + a) + b) + rest,
{
    vstd::seq_lib::lemma_concat_associative(a, b, rest);
    vstd::seq_lib::lemma_concat_associative(l, a, b + rest);
    vstd::seq_lib::lemma_concat_associative(l + a, b, rest);
}

/// Append the payload of one configuration.
pub fn emit_config(out: &mut Vec<u8>, c: &Config)
    ensures
        final(out)@ == old(out)@ + spec_config_payload(c@),
{
    let ghost base = old(out)@;
    let lit0 = lit_cfg_open_vec();
    append_bytes(out, &lit0);
    emit_u64(out, c.hackrf_config.samp_rate);
    let l1 = lit_sep_center_freq_vec();
    append_bytes(out, &l1);
    emit_u64(out, c.hackrf_config.center_freq);
    let l2 = lit_sep_lna_gain_vec();
    append_bytes(out, &l2);
    emit_u64(out, c.hackrf_config.lna_gain as u64);
    let l3 = lit_sep_vga_gain_vec();
    append_bytes(out, &l3);
    emit_u64(out, c.hackrf_config.vga_gain as u64);
    let l4 = lit_sep_amp_enable_vec();
    append_bytes(out, &l4);
    emit_bool(out, c.hackrf_config.amp_enable);
    let l5 = lit_sep_antenna_enable_vec();
    append_bytes(out, &l5);
    emit_bool(out, c.hackrf_config.antenna_enable);
    let l6 = lit_sep_baseband_filter_vec();
    append_bytes(out, &l6);
    match c.hackrf_config.baseband_filter {
        Some(bw) => emit_u64(out, bw),
        None => {
            let n = lit_null_vec();
            append_bytes(out, &n);
        },
    }
    let l7 = lit_sep_raw_log_vec();
    append_bytes(out, &l7);
    match &c.hackrf_config.raw_log {
        Some(path) => emit_string(out, path),
        None => {
            let n = lit_null_vec();
            append_bytes(out, &n);
        },
    }
    let l8 = lit_sep_auto_gain_vec();
    append_bytes(out, &l8);
    emit_bool(out, c.hackrf_config.auto_gain);
    let l9 = lit_det_open_vec();
    append_bytes(out, &l9);
    emit_u64(out, c.detector_config.threshold_milli as u64);
    let l10 = lit_sep_min_pulse_samples_vec();
    append_bytes(out, &l10);
    emit_u64(out, c.detector_config.min_pulse_samples as u64);
    let closer = lit_cfg_close_vec();
    append_bytes(out, &closer);
    proof {
        let h = c@.hackrf_config;
        let d = c@.detector_config;
        let a0 = lit_cfg_open();
        let a1 = dec_rep(h.samp_rate as nat);
        let s1 = lit_sep_center_freq();
        let a2 = dec_rep(h.center_freq as nat);
        let s2 = lit_sep_lna_gain();
        let a3 = dec_rep(h.lna_gain as nat);
        let s3 = lit_sep_vga_gain();
        let a4 = dec_rep(h.vga_gain as nat);
        let s4 = lit_sep_amp_enable();
        let a5 = bool_lit(h.amp_enable);
        let s5 = lit_sep_antenna_enable();
        let a6 = bool_lit(h.antenna_enable);
        let s6 = lit_sep_baseband_filter();
        let a7 = spec_opt_u64(h.baseband_filter);
        let s7 = lit_sep_raw_log();
        let a8 = spec_opt_bytes(h.raw_log);
        let s8 = lit_sep_auto_gain();
        let a9 = bool_lit(h.auto_gain);
        let s9 = lit_det_open();
        let a10 = dec_rep(d.threshold_milli as nat);
        let s10 = lit_sep_min_pulse_samples();
        let a11 = dec_rep(d.min_pulse_samples as nat);
        let closing = lit_cfg_close();

        assert(out@ == base + a0 + a1 + s1 + a2 + s2 + a3 + s3 + a4 + s4 + a5 + s5 + a6 + s6 + a7
            + s7 + a8 + s8 + a9 + s9 + a10 + s10 + a11 + closing);

        vstd::seq_lib::lemma_concat_associative(base, a0, ct_samp(c@));
        vstd::seq_lib::lemma_concat_associative(base + a0, a1, ct_center(c@));
        lemma_emit_step(base + a0 + a1, s1, a2, ct_lna(c@));
        lemma_emit_step(base + a0 + a1 + s1 + a2, s2, a3, ct_vga(c@));
        lemma_emit_step(base + a0 + a1 + s1 + a2 + s2 + a3, s3, a4, ct_amp(c@));
        lemma_emit_step(base + a0 + a1 + s1 + a2 + s2 + a3 + s3 + a4, s4, a5, ct_antenna(c@));
        lemma_emit_step(
            base + a0 + a1 + s1 + a2 + s2 + a3 + s3 + a4 + s4 + a5,
            s5,
            a6,
            ct_baseband(c@),
        );
        lemma_emit_step(
            base + a0 + a1 + s1 + a2 + s2 + a3 + s3 + a4 + s4 + a5 + s5 + a6,
            s6,
            a7,
            ct_raw_log(c@),
        );
        lemma_emit_step(
            base + a0 + a1 + s1 + a2 + s2 + a3 + s3 + a4 + s4 + a5 + s5 + a6 + s6 + a7,
            s7,
            a8,
            ct_auto(c@),
        );
        lemma_emit_step(
            base + a0 + a1 + s1 + a2 + s2 + a3 + s3 + a4 + s4 + a5 + s5 + a6 + s6 + a7 + s7 + a8,
            s8,
            a9,
            ct_threshold(c@),
        );
        lemma_emit_step(
            base + a0 + a1 + s1 + a2 + s2 + a3 + s3 + a4 + s4 + a5 + s5 + a6 + s6 + a7 + s7 + a8
                + s8 + a9,
            s9,
            a10,
            ct_min_pulse(c@),
        );
        lemma_emit_step(
            base + a0 + a1 + s1 + a2 + s2 + a3 + s3 + a4 + s4 + a5 + s5 + a6 + s6 + a7 + s7 + a8
                + s8 + a9 + s9 + a10,
            s10,
            a11,
            closing,
        );
        assert(out@ == base + spec_config_payload(c@));
    }
}

/// Encode one configuration.
pub fn encode_config(c: &Config) -> (r: Vec<u8>)
    ensures
        r@ == spec_config_payload(c@),
{
    let mut out: Vec<u8> = Vec::new();
    emit_config(&mut out, c);
    proof {
        assert(Seq::<u8>::empty() + spec_config_payload(c@) =~= spec_config_payload(c@));
    }
    out
}

/// Encode one command.
pub fn encode_command(c: &Command) -> (r: Vec<u8>)
    ensures
        r@ == spec_command_payload(c@),
{
    match c {
        Command::Stop => {
            let r = lit_cmd_stop_vec();
            r
        },
        Command::Exit => {
            let r = lit_cmd_exit_vec();
            r
        },
        Command::Start(None) => {
            let mut out = lit_start_open_vec();
            let n = lit_null_vec();
            append_bytes(&mut out, &n);
            out.push(0x7d);
            proof {
                assert(out@ =~= spec_command_payload(c@));
            }
            out
        },
        Command::Start(Some(cfg)) => {
            let mut out = lit_start_open_vec();
            emit_config(&mut out, cfg);
            out.push(0x7d);
            proof {
                assert(out@ =~= spec_command_payload(c@));
            }
            out
        },
    }
}

/// The leading bytes of a detection payload up to and including the
/// signal-strength digits.
pub open spec fn pulse_prefix2(v1: u64, v2: u64) -> Seq<u8> {
    lit_pulse_open() + dec_rep(v1 as nat) + lit_sep_strength() + dec_rep(v2 as nat)
}

/// Parse the frequency and signal-strength fields of a detection
/// payload.
#[verifier::rlimit(100)]
fn parse_pulse_prefix(b: &Vec<u8>) -> (r: Option<(u64, u64, usize)>)
    ensures
        match r {
            Some(t) => {
                &&& t.1 <= u32::MAX
                &&& t.2 <= b@.len()
                &&& b@.subrange(0, t.2 as int) == pulse_prefix2(t.0, t.1)
                &&& forall|p: Pulse|
                    b@ == spec_pulse_payload(p) ==> p.freq_hz == t.0 && p.signal_strength_milli
                        == t.1 && b@.subrange(t.2 as int, b@.len() as int) == pt_gain(p)
            },
            None => forall|p: Pulse| b@ != spec_pulse_payload(p),
        },
{
    let lit0 = lit_pulse_open_vec();
    let a0 = match expect_bytes(b, 0, &lit0) {
        Some(a0) => a0,
        None => {
            proof {
                assert forall|p: Pulse| b@ != spec_pulse_payload(p) by {
                    if b@ == spec_pulse_payload(p) {
                        assert(b@.subrange(0, b@.len() as int) =~= b@);
                        lemma_tail_split(b@, 0, lit_pulse_open(), pt_freq(p));
                    }
                }
            }
            return None;
        },
    };
    proof {
        assert forall|p: Pulse|
            b@ == spec_pulse_payload(p) implies b@.subrange(a0 as int, b@.len() as int) == pt_freq(
            p,
        ) by {
            assert(b@.subrange(0, b@.len() as int) =~= b@);
            lemma_tail_split(b@, 0, lit_pulse_open(), pt_freq(p));
        }
    }

    let (v1, e1) = match parse_u64(b, a0) {
        Some(r1) => r1,
        None => {
            proof {
                assert forall|p: Pulse| b@ != spec_pulse_payload(p) by {
                    if b@ == spec_pulse_payload(p) {
                        lemma_tail_split(b@, a0 as int, dec_rep(p.freq_hz as nat), pt_strength(p));
                        assert(pt_strength(p)[0] == 0x2cu8);
                        assert(num_at(
                            b@,
                            a0 as int,
                            p.freq_hz,
                            a0 + dec_rep(p.freq_hz as nat).len(),
                        ));
                    }
                }
            }
            return None;
        },
    };
    proof {
        assert forall|p: Pulse|
            b@ == spec_pulse_payload(p) implies p.freq_hz == v1 && b@.subrange(
            e1 as int,
            b@.len() as int,
        ) == pt_strength(p) by {
            lemma_tail_split(b@, a0 as int, dec_rep(p.freq_hz as nat), pt_strength(p));
            assert(pt_strength(p)[0] == 0x2cu8);
            assert(num_at(b@, a0 as int, p.freq_hz, a0 + dec_rep(p.freq_hz as nat).len()));
            lemma_num_at_unique(
                b@,
                a0 as int,
                v1,
                e1 as int,
                p.freq_hz,
                a0 + dec_rep(p.freq_hz as nat).len(),
            );
        }
    }

    let lit1 = lit_sep_strength_vec();
    let a1 = match expect_bytes(b, e1, &lit1) {
        Some(a1) => a1,
        None => {
            proof {
                assert forall|p: Pulse| b@ != spec_pulse_payload(p) by {
                    if b@ == spec_pulse_payload(p) {
                        vstd::seq_lib::lemma_concat_associative(
                            lit_sep_strength(),
                            dec_rep(p.signal_strength_milli as nat),
                            pt_gain(p),
                        );
                        lemma_tail_split(
                            b@,
                            e1 as int,
                            lit_sep_strength(),
                            dec_rep(p.signal_strength_milli as nat) + pt_gain(p),
                        );
                    }
                }
            }
            return None;
        },
    };
    proof {
        assert forall|p: Pulse|
            b@ == spec_pulse_payload(p) implies b@.subrange(a1 as int, b@.len() as int) == dec_rep(
            p.signal_strength_milli as nat,
        ) + pt_gain(p) by {
            vstd::seq_lib::lemma_concat_associative(
                lit_sep_strength(),
                dec_rep(p.signal_strength_milli as nat),
                pt_gain(p),
            );
            lemma_tail_split(
                b@,
                e1 as int,
                lit_sep_strength(),
                dec_rep(p.signal_strength_milli as nat) + pt_gain(p),
            );
        }
    }

    let (v2, e2) = match parse_u64(b, a1) {
        Some(r2) => r2,
        None => {
            proof {
                assert forall|p: Pulse| b@ != spec_pulse_payload(p) by {
                    if b@ == spec_pulse_payload(p) {
                        lemma_tail_split(
                            b@,
                            a1 as int,
                            dec_rep(p.signal_strength_milli as nat),
                            pt_gain(p),
                        );
                        assert(pt_gain(p)[0] == 0x2cu8);
                        assert(num_at(
                            b@,
                            a1 as int,
                            p.signal_strength_milli as u64,
                            a1 + dec_rep(p.signal_strength_milli as nat).len(),
                        ));
                    }
                }
            }
            return None;
        },
    };
    proof {
        assert forall|p: Pulse|
            b@ == spec_pulse_payload(p) implies p.signal_strength_milli as u64 == v2 && b@.subrange(
            e2 as int,
            b@.len() as int,
        ) == pt_gain(p) by {
            lemma_tail_split(b@, a1 as int, dec_rep(p.signal_strength_milli as nat), pt_gain(p));
            assert(pt_gain(p)[0] == 0x2cu8);
            assert(num_at(
                b@,
                a1 as int,
                p.signal_strength_milli as u64,
                a1 + dec_rep(p.signal_strength_milli as nat).len(),
            ));
            lemma_num_at_unique(
                b@,
                a1 as int,
                v2,
                e2 as int,
                p.signal_strength_milli as u64,
                a1 + dec_rep(p.signal_strength_milli as nat).len(),
            );
        }
    }
    if v2 > 0xffff_ffff {
        return None;
    }

    proof {
        lemma_subrange_join(b@, 0, a0 as int, e1 as int);
        lemma_subrange_join(b@, 0, e1 as int, a1 as int);
        lemma_subrange_join(b@, 0, a1 as int, e2 as int);
    }
    Some((v1, v2, e2))
}

/// Decode one detection payload.
///
/// Exact: a `Some` result re-encodes to exactly the input, and every
/// detection whose encoding is the input is returned — so decoding the
/// bytes produced by `encode_pulse` always yields the encoded value.
#[verifier::rlimit(100)]
pub fn decode_pulse(b: &Vec<u8>) -> (r: Option<Pulse>)
    ensures
        r is Some ==> b@ == spec_pulse_payload(r->Some_0),
        forall|p: Pulse| b@ == spec_pulse_payload(p) ==> r == Some(p),
{
    let (v1, v2, e2) = match parse_pulse_prefix(b) {
        Some(t) => t,
        None => {
            return None;
        },
    };

    let lit2 = lit_sep_gain_vec();
    let a2 = match expect_bytes(b, e2, &lit2) {
        Some(a2) => a2,
        None => {
            proof {
                assert forall|p: Pulse| b@ != spec_pulse_payload(p) by {
                    if b@ == spec_pulse_payload(p) {
                        vstd::seq_lib::lemma_concat_associative(
                            lit_sep_gain(),
                            dec_rep(p.gain as nat),
                            pt_timestamp(p),
                        );
                        lemma_tail_split(
                            b@,
                            e2 as int,
                            lit_sep_gain(),
                            dec_rep(p.gain as nat) + pt_timestamp(p),
                        );
                    }
                }
            }
            return None;
        },
    };
    proof {
        assert forall|p: Pulse|
            b@ == spec_pulse_payload(p) implies b@.subrange(a2 as int, b@.len() as int) == dec_rep(
            p.gain as nat,
        ) + pt_timestamp(p) by {
            vstd::seq_lib::lemma_concat_associative(
                lit_sep_gain(),
                dec_rep(p.gain as nat),
                pt_timestamp(p),
            );
            lemma_tail_split(
                b@,
                e2 as int,
                lit_sep_gain(),
                dec_rep(p.gain as nat) + pt_timestamp(p),
            );
        }
    }

    let (v3, e3) = match parse_u64(b, a2) {
        Some(r3) => r3,
        None => {
            proof {
                assert forall|p: Pulse| b@ != spec_pulse_payload(p) by {
                    if b@ == spec_pulse_payload(p) {
                        lemma_tail_split(b@, a2 as int, dec_rep(p.gain as nat), pt_timestamp(p));
                        assert(pt_timestamp(p)[0] == 0x2cu8);
                        assert(num_at(
                            b@,
                            a2 as int,
                            p.gain as u64,
                            a2 + dec_rep(p.gain as nat).len(),
                        ));
                    }
                }
            }
            return None;
        },
    };
    proof {
        assert forall|p: Pulse|
            b@ == spec_pulse_payload(p) implies p.gain as u64 == v3 && b@.subrange(
            e3 as int,
            b@.len() as int,
        ) == pt_timestamp(p) by {
            lemma_tail_split(b@, a2 as int, dec_rep(p.gain as nat), pt_timestamp(p));
            assert(pt_timestamp(p)[0] == 0x2cu8);
            assert(num_at(b@, a2 as int, p.gain as u64, a2 + dec_rep(p.gain as nat).len()));
            lemma_num_at_unique(
                b@,
                a2 as int,
                v3,
                e3 as int,
                p.gain as u64,
                a2 + dec_rep(p.gain as nat).len(),
            );
        }
    }
    if v3 > 0xffff_ffff {
        return None;
    }

    let lit3 = lit_sep_timestamp_vec();
    let a3 = match expect_bytes(b, e3, &lit3) {
        Some(a3) => a3,
        None => {
            proof {
                assert forall|p: Pulse| b@ != spec_pulse_payload(p) by {
                    if b@ == spec_pulse_payload(p) {
                        vstd::seq_lib::lemma_concat_associative(
                            lit_sep_timestamp(),
                            dec_rep(p.timestamp_ms as nat),
                            lit_close_brace(),
                        );
                        lemma_tail_split(
                            b@,
                            e3 as int,
                            lit_sep_timestamp(),
                            dec_rep(p.timestamp_ms as nat) + lit_close_brace(),
                        );
                    }
                }
            }
            return None;
        },
    };
    proof {
        assert forall|p: Pulse|
            b@ == spec_pulse_payload(p) implies b@.subrange(a3 as int, b@.len() as int) == dec_rep(
            p.timestamp_ms as nat,
        ) + lit_close_brace() by {
            vstd::seq_lib::lemma_concat_associative(
                lit_sep_timestamp(),
                dec_rep(p.timestamp_ms as nat),
                lit_close_brace(),
            );
            lemma_tail_split(
                b@,
                e3 as int,
                lit_sep_timestamp(),
                dec_rep(p.timestamp_ms as nat) + lit_close_brace(),
            );
        }
    }

    let (v4, e4) = match parse_u64(b, a3) {
        Some(r4) => r4,
        None => {
            proof {
                assert forall|p: Pulse| b@ != spec_pulse_payload(p) by {
                    if b@ == spec_pulse_payload(p) {
                        lemma_tail_split(
                            b@,
                            a3 as int,
                            dec_rep(p.timestamp_ms as nat),
                            lit_close_brace(),
                        );
                        assert(lit_close_brace()[0] == 0x7du8);
                        assert(num_at(
                            b@,
                            a3 as int,
                            p.timestamp_ms,
                            a3 + dec_rep(p.timestamp_ms as nat).len(),
                        ));
                    }
                }
            }
            return None;
        },
    };
    proof {
        assert forall|p: Pulse|
            b@ == spec_pulse_payload(p) implies p.timestamp_ms == v4 && b@.subrange(
            e4 as int,
            b@.len() as int,
        ) == lit_close_brace() by {
            lemma_tail_split(b@, a3 as int, dec_rep(p.timestamp_ms as nat), lit_close_brace());
            assert(lit_close_brace()[0] == 0x7du8);
            assert(num_at(b@, a3 as int, p.timestamp_ms, a3 + dec_rep(p.timestamp_ms as nat).len()));
            lemma_num_at_unique(
                b@,
                a3 as int,
                v4,
                e4 as int,
                p.timestamp_ms,
                a3 + dec_rep(p.timestamp_ms as nat).len(),
            );
        }
    }

    if !(e4 < b.len() && b[e4] == 0x7d && e4 + 1 == b.len()) {
        proof {
            assert forall|p: Pulse| b@ != spec_pulse_payload(p) by {
                if b@ == spec_pulse_payload(p) {
                    assert(b@.subrange(e4 as int, b@.len() as int).len() == 1);
                    assert(b@.subrange(e4 as int, b@.len() as int)[0] == b@[e4 as int]);
                }
            }
        }
        return None;
    }

    let p0 = Pulse {
        freq_hz: v1,
        signal_strength_milli: v2 as u32,
        gain: v3 as u32,
        timestamp_ms: v4,
    };
    proof {
        lemma_subrange_join(b@, e3 as int, a3 as int, e4 as int);
        lemma_subrange_join(b@, e3 as int, e4 as int, b@.len() as int);
        assert(b@.subrange(e3 as int, b@.len() as int) == pt_timestamp(p0));
        lemma_subrange_join(b@, e2 as int, a2 as int, e3 as int);
        lemma_subrange_join(b@, e2 as int, e3 as int, b@.len() as int);
        assert(b@.subrange(e2 as int, b@.len() as int) == pt_gain(p0));
        lemma_subrange_join(b@, 0, e2 as int, b@.len() as int);
        assert(b@.subrange(0, b@.len() as int) =~= b@);
        assert(b@ == pulse_prefix2(v1, v2) + pt_gain(p0));
        vstd::seq_lib::lemma_concat_associative(
            lit_pulse_open() + dec_rep(v1 as nat) + lit_sep_strength(),
            dec_rep(v2 as nat),
            pt_gain(p0),
        );
        vstd::seq_lib::lemma_concat_associative(
            lit_pulse_open() + dec_rep(v1 as nat),
            lit_sep_strength(),
            dec_rep(v2 as nat) + pt_gain(p0),
        );
        vstd::seq_lib::lemma_concat_associative(
            lit_pulse_open(),
            dec_rep(v1 as nat),
            lit_sep_strength() + (dec_rep(v2 as nat) + pt_gain(p0)),
        );
        vstd::seq_lib::lemma_concat_associative(
            lit_sep_strength(),
            dec_rep(v2 as nat),
            pt_gain(p0),
        );
        assert(b@ == spec_pulse_payload(p0));
    }
    Some(p0)
}


/// A configuration payload stands between `pos` and `end`.
pub open spec fn cfg_at(b: Seq<u8>, pos: int, c: ConfigV, end: int) -> bool {
    &&& 0 <= pos <= end <= b.len()
    &&& b.subrange(pos, end) == spec_config_payload(c)
}

/// A separator literal immediately followed by a number stands at
/// `pos`, the number ending just before `end`.
pub open spec fn lit_num_at(b: Seq<u8>, pos: int, sep: Seq<u8>, v: u64, end: int) -> bool {
    &&& 0 <= pos
    &&& pos + sep.len() <= b.len()
    &&& b.subrange(pos, pos + sep.len() as int) == sep
    &&& num_at(b, pos + sep.len() as int, v, end)
}

/// At one position there is at most one separator-and-number pair.
pub proof fn lemma_lit_num_unique(
    b: Seq<u8>,
    pos: int,
    sep: Seq<u8>,
    v1: u64,
    e1: int,
    v2: u64,
    e2: int,
)
    requires
        lit_num_at(b, pos, sep, v1, e1),
        lit_num_at(b, pos, sep, v2, e2),
    ensures
        v1 == v2,
        e1 == e2,
{
    lemma_num_at_unique(b, pos + sep.len() as int, v1, e1, v2, e2);
}

/// Parse a separator literal followed by a number.
fn parse_lit_num(b: &Vec<u8>, pos: usize, sep: &Vec<u8>) -> (r: Option<(u64, usize)>)
    requires
        pos <= b@.len(),
    ensures
        match r {
            Some(t) => lit_num_at(b@, pos as int, sep@, t.0, t.1 as int) && pos <= t.1 <= b@.len(),
            None => forall|v: u64, end: int| !lit_num_at(b@, pos as int, sep@, v, end),
        },
{
    let m = match expect_bytes(b, pos, sep) {
        Some(m) => m,
        None => {
            return None;
        },
    };
    match parse_u64(b, m) {
        Some((v, end)) => Some((v, end)),
        None => None,
    }
}

/// A separator literal immediately followed by a boolean literal stands
/// at `pos`, the boolean ending just before `end`.
pub open spec fn lit_bool_at(b: Seq<u8>, pos: int, sep: Seq<u8>, v: bool, end: int) -> bool {
    &&& 0 <= pos
    &&& pos + sep.len() <= b.len()
    &&& b.subrange(pos, pos + sep.len() as int) == sep
    &&& bool_at(b, pos + sep.len() as int, v, end)
}

/// At one position there is at most one separator-and-boolean pair.
pub proof fn lemma_lit_bool_unique(
    b: Seq<u8>,
    pos: int,
    sep: Seq<u8>,
    v1: bool,
    e1: int,
    v2: bool,
    e2: int,
)
    requires
        lit_bool_at(b, pos, sep, v1, e1),
        lit_bool_at(b, pos, sep, v2, e2),
    ensures
        v1 == v2,
        e1 == e2,
{
    lemma_bool_at_unique(b, pos + sep.len() as int, v1, e1, v2, e2);
}

/// Parse a separator literal followed by a boolean literal.
fn parse_lit_bool(b: &Vec<u8>, pos: usize, sep: &Vec<u8>) -> (r: Option<(bool, usize)>)
    requires
        pos <= b@.len(),
    ensures
        match r {
            Some(t) => lit_bool_at(b@, pos as int, sep@, t.0, t.1 as int) && pos <= t.1 <= b@.len(),
            None => forall|v: bool, end: int| !lit_bool_at(b@, pos as int, sep@, v, end),
        },
{
    let m = match expect_bytes(b, pos, sep) {
        Some(m) => m,
        None => {
            return None;
        },
    };
    match parse_bool(b, m) {
        Some((v, end)) => Some((v, end)),
        None => None,
    }
}

/// Peeling the center-frequency field off its tail.
proof fn lemma_shape_center(b: Seq<u8>, cur: int, e: int, c: ConfigV)
    requires
        0 <= cur <= e <= b.len(),
        b.subrange(cur, e) == ct_center(c),
    ensures
        ({
            let m = cur + lit_sep_center_freq().len() + dec_rep(
                c.hackrf_config.center_freq as nat,
            ).len();
            &&& lit_num_at(
                b,
                cur,
                lit_sep_center_freq(),
                c.hackrf_config.center_freq,
                m,
            )
            &&& cur <= m <= e
            &&& b.subrange(m, e) == ct_lna(c)
        }),
{
    let sep = lit_sep_center_freq();
    let d = dec_rep(c.hackrf_config.center_freq as nat);
    vstd::seq_lib::lemma_concat_associative(sep, d, ct_lna(c));
    lemma_split_at(b, cur, e, sep, d + ct_lna(c));
    lemma_split_at(b, cur + sep.len() as int, e, d, ct_lna(c));
    assert(ct_lna(c)[0] == 0x2cu8);
    assert(b[cur + sep.len() + d.len()] == b.subrange(cur + sep.len() + d.len(), e)[0]);
}

/// Peeling the LNA-gain field off its tail.
proof fn lemma_shape_lna(b: Seq<u8>, cur: int, e: int, c: ConfigV)
    requires
        0 <= cur <= e <= b.len(),
        b.subrange(cur, e) == ct_lna(c),
    ensures
        ({
            let m = cur + lit_sep_lna_gain().len() + dec_rep(c.hackrf_config.lna_gain as nat).len();
            &&& lit_num_at(b, cur, lit_sep_lna_gain(), c.hackrf_config.lna_gain as u64, m)
            &&& cur <= m <= e
            &&& b.subrange(m, e) == ct_vga(c)
        }),
{
    let sep = lit_sep_lna_gain();
    let d = dec_rep(c.hackrf_config.lna_gain as nat);
    vstd::seq_lib::lemma_concat_associative(sep, d, ct_vga(c));
    lemma_split_at(b, cur, e, sep, d + ct_vga(c));
    lemma_split_at(b, cur + sep.len() as int, e, d, ct_vga(c));
    assert(ct_vga(c)[0] == 0x2cu8);
    assert(b[cur + sep.len() + d.len()] == b.subrange(cur + sep.len() + d.len(), e)[0]);
}

/// Peeling the VGA-gain field off its tail.
proof fn lemma_shape_vga(b: Seq<u8>, cur: int, e: int, c: ConfigV)
    requires
        0 <= cur <= e <= b.len(),
        b.subrange(cur, e) == ct_vga(c),
    ensures
        ({
            let m = cur + lit_sep_vga_gain().len() + dec_rep(c.hackrf_config.vga_gain as nat).len();
            &&& lit_num_at(b, cur, lit_sep_vga_gain(), c.hackrf_config.vga_gain as u64, m)
            &&& cur <= m <= e
            &&& b.subrange(m, e) == ct_amp(c)
        }),
{
    let sep = lit_sep_vga_gain();
    let d = dec_rep(c.hackrf_config.vga_gain as nat);
    vstd::seq_lib::lemma_concat_associative(sep, d, ct_amp(c));
    lemma_split_at(b, cur, e, sep, d + ct_amp(c));
    lemma_split_at(b, cur + sep.len() as int, e, d, ct_amp(c));
    assert(ct_amp(c)[0] == 0x2cu8);
    assert(b[cur + sep.len() + d.len()] == b.subrange(cur + sep.len() + d.len(), e)[0]);
}

/// Parse the head of a configuration payload: the opening literal and
/// the four numeric device fields.
#[verifier::rlimit(100)]
fn parse_cfg_head(b: &Vec<u8>, pos: usize) -> (r: Option<(u64, u64, u64, u64, usize)>)
    requires
        pos <= b@.len(),
    ensures
        match r {
            Some(t) => {
                &&& t.2 <= u32::MAX && t.3 <= u32::MAX
                &&& pos <= t.4 <= b@.len()
                &&& forall|c: ConfigV, x: int|
                    (c.hackrf_config.samp_rate == t.0 && c.hackrf_config.center_freq == t.1
                        && c.hackrf_config.lna_gain == t.2 && c.hackrf_config.vga_gain == t.3
                        && t.4 <= x <= b@.len() && b@.subrange(t.4 as int, x) == ct_amp(c)) ==> #[trigger] cfg_at(
                        b@,
                        pos as int,
                        c,
                        x,
                    )
                &&& forall|c: ConfigV, e: int|
                    #[trigger] cfg_at(b@, pos as int, c, e) ==> c.hackrf_config.samp_rate == t.0
                        && c.hackrf_config.center_freq == t.1 && c.hackrf_config.lna_gain == t.2
                        && c.hackrf_config.vga_gain == t.3 && t.4 <= e && b@.subrange(t.4 as int, e)
                        == ct_amp(c)
            },
            None => forall|c: ConfigV, e: int| !cfg_at(b@, pos as int, c, e),
        },
{
    let lit0 = lit_cfg_open_vec();
    let a0 = match expect_bytes(b, pos, &lit0) {
        Some(a0) => a0,
        None => {
            proof {
                assert forall|c: ConfigV, e: int| !cfg_at(b@, pos as int, c, e) by {
                    if cfg_at(b@, pos as int, c, e) {
                        lemma_split_at(b@, pos as int, e, lit_cfg_open(), ct_samp(c));
                    }
                }
            }
            return None;
        },
    };
    proof {
        assert forall|c: ConfigV, e: int|
            cfg_at(b@, pos as int, c, e) implies a0 <= e <= b@.len() && b@.subrange(a0 as int, e)
            == ct_samp(c) by {
            lemma_split_at(b@, pos as int, e, lit_cfg_open(), ct_samp(c));
        }
    }

    let (v0, e0) = match parse_u64(b, a0) {
        Some(t) => t,
        None => {
            proof {
                assert forall|c: ConfigV, e: int| !cfg_at(b@, pos as int, c, e) by {
                    if cfg_at(b@, pos as int, c, e) {
                        lemma_split_at(
                            b@,
                            a0 as int,
                            e,
                            dec_rep(c.hackrf_config.samp_rate as nat),
                            ct_center(c),
                        );
                        assert(ct_center(c)[0] == 0x2cu8);
                        assert(b@[a0 + dec_rep(c.hackrf_config.samp_rate as nat).len()]
                            == b@.subrange(a0 + dec_rep(c.hackrf_config.samp_rate as nat).len(), e)[0]);
                        assert(num_at(
                            b@,
                            a0 as int,
                            c.hackrf_config.samp_rate,
                            a0 + dec_rep(c.hackrf_config.samp_rate as nat).len(),
                        ));
                    }
                }
            }
            return None;
        },
    };
    proof {
        assert forall|c: ConfigV, e: int|
            cfg_at(b@, pos as int, c, e) implies c.hackrf_config.samp_rate == v0 && e0 <= e
            && b@.subrange(e0 as int, e) == ct_center(c) by {
            lemma_split_at(b@, a0 as int, e, dec_rep(c.hackrf_config.samp_rate as nat), ct_center(c));
            assert(ct_center(c)[0] == 0x2cu8);
            assert(b@[a0 + dec_rep(c.hackrf_config.samp_rate as nat).len()] == b@.subrange(
                a0 + dec_rep(c.hackrf_config.samp_rate as nat).len(),
                e,
            )[0]);
            assert(num_at(
                b@,
                a0 as int,
                c.hackrf_config.samp_rate,
                a0 + dec_rep(c.hackrf_config.samp_rate as nat).len(),
            ));
            lemma_num_at_unique(
                b@,
                a0 as int,
                v0,
                e0 as int,
                c.hackrf_config.samp_rate,
                a0 + dec_rep(c.hackrf_config.samp_rate as nat).len(),
            );
        }
    }

    let sep1 = lit_sep_center_freq_vec();
    let (v1, e1) = match parse_lit_num(b, e0, &sep1) {
        Some(t) => t,
        None => {
            proof {
                assert forall|c: ConfigV, e: int| !cfg_at(b@, pos as int, c, e) by {
                    if cfg_at(b@, pos as int, c, e) {
                        lemma_shape_center(b@, e0 as int, e, c);
                    }
                }
            }
            return None;
        },
    };
    proof {
        assert forall|c: ConfigV, e: int|
            cfg_at(b@, pos as int, c, e) implies c.hackrf_config.center_freq == v1 && e1 <= e
            && b@.subrange(e1 as int, e) == ct_lna(c) by {
            lemma_shape_center(b@, e0 as int, e, c);
            lemma_lit_num_unique(
                b@,
                e0 as int,
                lit_sep_center_freq(),
                v1,
                e1 as int,
                c.hackrf_config.center_freq,
                e0 + lit_sep_center_freq().len() + dec_rep(c.hackrf_config.center_freq as nat).len(),
            );
        }
    }

    let sep2 = lit_sep_lna_gain_vec();
    let (v2, e2) = match parse_lit_num(b, e1, &sep2) {
        Some(t) => t,
        None => {
            proof {
                assert forall|c: ConfigV, e: int| !cfg_at(b@, pos as int, c, e) by {
                    if cfg_at(b@, pos as int, c, e) {
                        lemma_shape_lna(b@, e1 as int, e, c);
                    }
                }
            }
            return None;
        },
    };
    proof {
        assert forall|c: ConfigV, e: int|
            cfg_at(b@, pos as int, c, e) implies c.hackrf_config.lna_gain as u64 == v2 && e2 <= e
            && b@.subrange(e2 as int, e) == ct_vga(c) by {
            lemma_shape_lna(b@, e1 as int, e, c);
            lemma_lit_num_unique(
                b@,
                e1 as int,
                lit_sep_lna_gain(),
                v2,
                e2 as int,
                c.hackrf_config.lna_gain as u64,
                e1 + lit_sep_lna_gain().len() + dec_rep(c.hackrf_config.lna_gain as nat).len(),
            );
        }
    }
    if v2 > 0xffff_ffff {
        return None;
    }

    let sep3 = lit_sep_vga_gain_vec();
    let (v3, e3) = match parse_lit_num(b, e2, &sep3) {
        Some(t) => t,
        None => {
            proof {
                assert forall|c: ConfigV, e: int| !cfg_at(b@, pos as int, c, e) by {
                    if cfg_at(b@, pos as int, c, e) {
                        lemma_shape_vga(b@, e2 as int, e, c);
                    }
                }
            }
            return None;
        },
    };
    proof {
        assert forall|c: ConfigV, e: int|
            cfg_at(b@, pos as int, c, e) implies c.hackrf_config.vga_gain as u64 == v3 && e3 <= e
            && b@.subrange(e3 as int, e) == ct_amp(c) by {
            lemma_shape_vga(b@, e2 as int, e, c);
            lemma_lit_num_unique(
                b@,
                e2 as int,
                lit_sep_vga_gain(),
                v3,
                e3 as int,
                c.hackrf_config.vga_gain as u64,
                e2 + lit_sep_vga_gain().len() + dec_rep(c.hackrf_config.vga_gain as nat).len(),
            );
        }
    }
    if v3 > 0xffff_ffff {
        return None;
    }

    proof {
        let m1 = e0 + lit_sep_center_freq().len();
        let m2 = e1 + lit_sep_lna_gain().len();
        let m3 = e2 + lit_sep_vga_gain().len();
        assert forall|c: ConfigV, x: int|
            (c.hackrf_config.samp_rate == v0 && c.hackrf_config.center_freq == v1
                && c.hackrf_config.lna_gain == v2 && c.hackrf_config.vga_gain == v3 && e3 <= x
                <= b@.len() && b@.subrange(e3 as int, x) == ct_amp(c)) implies #[trigger] cfg_at(
            b@,
            pos as int,
            c,
            x,
        ) by {
            lemma_subrange_join(b@, e2 as int, m3, e3 as int);
            lemma_subrange_join(b@, e2 as int, e3 as int, x);
            assert(b@.subrange(e2 as int, x) == ct_vga(c));
            lemma_subrange_join(b@, e1 as int, m2, e2 as int);
            lemma_subrange_join(b@, e1 as int, e2 as int, x);
            assert(b@.subrange(e1 as int, x) == ct_lna(c));
            lemma_subrange_join(b@, e0 as int, m1, e1 as int);
            lemma_subrange_join(b@, e0 as int, e1 as int, x);
            assert(b@.subrange(e0 as int, x) == ct_center(c));
            lemma_subrange_join(b@, a0 as int, e0 as int, x);
            assert(b@.subrange(a0 as int, x) == ct_samp(c));
            lemma_subrange_join(b@, pos as int, a0 as int, x);
            assert(b@.subrange(pos as int, x) == spec_config_payload(c));
        }
    }
    Some((v0, v1, v2, v3, e3))
}

/// The tail of a configuration payload from the amplifier field on
/// stands between `pos` and `end`.
pub open spec fn at_ct_amp(b: Seq<u8>, pos: int, c: ConfigV, end: int) -> bool {
    &&& 0 <= pos <= end <= b.len()
    &&& b.subrange(pos, end) == ct_amp(c)
}

/// The tail of a configuration payload from the auto-gain field on
/// stands between `pos` and `end`.
pub open spec fn at_ct_auto(b: Seq<u8>, pos: int, c: ConfigV, end: int) -> bool {
    &&& 0 <= pos <= end <= b.len()
    &&& b.subrange(pos, end) == ct_auto(c)
}

/// The byte-sequence view of an optional byte vector.
pub open spec fn opt_bytes_view(o: Option<Vec<u8>>) -> Option<Seq<u8>> {
    match o {
        Some(v) => Some(v@),
        None => None,
    }
}

/// Peeling the amplifier-enable field off its tail.
proof fn lemma_shape_amp(b: Seq<u8>, cur: int, e: int, c: ConfigV)
    requires
        0 <= cur <= e <= b.len(),
        b.subrange(cur, e) == ct_amp(c),
    ensures
        ({
            let m = cur + lit_sep_amp_enable().len() + bool_lit(c.hackrf_config.amp_enable).len();
            &&& lit_bool_at(b, cur, lit_sep_amp_enable(), c.hackrf_config.amp_enable, m)
            &&& cur <= m <= e
            &&& b.subrange(m, e) == ct_antenna(c)
        }),
{
    let sep = lit_sep_amp_enable();
    let d = bool_lit(c.hackrf_config.amp_enable);
    vstd::seq_lib::lemma_concat_associative(sep, d, ct_antenna(c));
    lemma_split_at(b, cur, e, sep, d + ct_antenna(c));
    lemma_split_at(b, cur + sep.len() as int, e, d, ct_antenna(c));
}

/// Peeling the antenna-enable field off its tail.
proof fn lemma_shape_antenna(b: Seq<u8>, cur: int, e: int, c: ConfigV)
    requires
        0 <= cur <= e <= b.len(),
        b.subrange(cur, e) == ct_antenna(c),
    ensures
        ({
            let m = cur + lit_sep_antenna_enable().len() + bool_lit(
                c.hackrf_config.antenna_enable,
            ).len();
            &&& lit_bool_at(b, cur, lit_sep_antenna_enable(), c.hackrf_config.antenna_enable, m)
            &&& cur <= m <= e
            &&& b.subrange(m, e) == ct_baseband(c)
        }),
{
    let sep = lit_sep_antenna_enable();
    let d = bool_lit(c.hackrf_config.antenna_enable);
    vstd::seq_lib::lemma_concat_associative(sep, d, ct_baseband(c));
    lemma_split_at(b, cur, e, sep, d + ct_baseband(c));
    lemma_split_at(b, cur + sep.len() as int, e, d, ct_baseband(c));
}

/// Peeling the baseband-filter field off its tail.
proof fn lemma_shape_baseband(b: Seq<u8>, cur: int, e: int, c: ConfigV)
    requires
        0 <= cur <= e <= b.len(),
        b.subrange(cur, e) == ct_baseband(c),
    ensures
        ({
            let m = cur + lit_sep_baseband_filter().len();
            &&& b.subrange(cur, m) == lit_sep_baseband_filter()
            &&& cur <= m <= e
            &&& m < b.len()
            &&& match c.hackrf_config.baseband_filter {
                Some(v) => {
                    &&& is_digit(b[m])
                    &&& num_at(b, m, v, m + dec_rep(v as nat).len())
                    &&& m + dec_rep(v as nat).len() <= e
                    &&& b.subrange(m + dec_rep(v as nat).len(), e) == ct_raw_log(c)
                },
                None => {
                    &&& b[m] == 0x6eu8
                    &&& b.subrange(m, m + 4) == lit_null()
                    &&& m + 4 <= e
                    &&& b.subrange(m + 4, e) == ct_raw_log(c)
                },
            }
        }),
{
    let sep = lit_sep_baseband_filter();
    let d = spec_opt_u64(c.hackrf_config.baseband_filter);
    vstd::seq_lib::lemma_concat_associative(sep, d, ct_raw_log(c));
    lemma_split_at(b, cur, e, sep, d + ct_raw_log(c));
    let m = cur + sep.len() as int;
    lemma_split_at(b, m, e, d, ct_raw_log(c));
    assert(b[m] == b.subrange(m, e)[0]);
    match c.hackrf_config.baseband_filter {
        Some(v) => {
            crate::codec::lemma_dec_rep_canonical(v as nat);
            assert(ct_raw_log(c)[0] == 0x2cu8);
            assert(b[m + dec_rep(v as nat).len()] == b.subrange(m + dec_rep(v as nat).len(), e)[0]);
        },
        None => {},
    }
}

/// Peeling the raw-log field off its tail.
proof fn lemma_shape_raw(b: Seq<u8>, cur: int, e: int, c: ConfigV)
    requires
        0 <= cur <= e <= b.len(),
        b.subrange(cur, e) == ct_raw_log(c),
    ensures
        ({
            let m = cur + lit_sep_raw_log().len();
            &&& b.subrange(cur, m) == lit_sep_raw_log()
            &&& cur <= m <= e
            &&& m < b.len()
            &&& match c.hackrf_config.raw_log {
                Some(s) => {
                    &&& b[m] == QUOTE
                    &&& parse_str_content(b, m + 1) == Some(
                        (s, m + json_string(s).len() as int),
                    )
                    &&& m + json_string(s).len() <= e
                    &&& b.subrange(m + json_string(s).len(), e) == ct_auto(c)
                },
                None => {
                    &&& b[m] == 0x6eu8
                    &&& b.subrange(m, m + 4) == lit_null()
                    &&& m + 4 <= e
                    &&& b.subrange(m + 4, e) == ct_auto(c)
                },
            }
        }),
{
    let sep = lit_sep_raw_log();
    let d = spec_opt_bytes(c.hackrf_config.raw_log);
    vstd::seq_lib::lemma_concat_associative(sep, d, ct_auto(c));
    lemma_split_at(b, cur, e, sep, d + ct_auto(c));
    let m = cur + sep.len() as int;
    lemma_split_at(b, m, e, d, ct_auto(c));
    assert(b[m] == b.subrange(m, e)[0]);
    match c.hackrf_config.raw_log {
        Some(s) => {
            let q = seq![QUOTE];
            let esc = esc_bytes(s);
            vstd::seq_lib::lemma_concat_associative(q, esc, q);
            lemma_split_at(b, m, m + json_string(s).len() as int, q, esc + q);
            lemma_parse_content_complete(b, m + 1, s);
            assert(json_string(s)[0] == QUOTE);
        },
        None => {},
    }
}

/// Parse the middle of a configuration payload: the two enable flags,
/// the optional baseband filter, and the optional raw-log path.
#[verifier::rlimit(100)]
fn parse_cfg_mid(b: &Vec<u8>, pos: usize) -> (r: Option<
    (bool, bool, Option<u64>, Option<Vec<u8>>, usize),
>)
    requires
        pos <= b@.len(),
    ensures
        match r {
            Some(t) => {
                &&& pos <= t.4 <= b@.len()
                &&& forall|c: ConfigV, x: int|
                    (c.hackrf_config.amp_enable == t.0 && c.hackrf_config.antenna_enable == t.1
                        && c.hackrf_config.baseband_filter == t.2 && c.hackrf_config.raw_log
                        == opt_bytes_view(t.3) && t.4 <= x <= b@.len() && b@.subrange(
                        t.4 as int,
                        x,
                    ) == ct_auto(c)) ==> #[trigger] at_ct_amp(b@, pos as int, c, x)
                &&& forall|c: ConfigV, e: int|
                    #[trigger] at_ct_amp(b@, pos as int, c, e) ==> c.hackrf_config.amp_enable
                        == t.0 && c.hackrf_config.antenna_enable == t.1
                        && c.hackrf_config.baseband_filter == t.2 && c.hackrf_config.raw_log
                        == opt_bytes_view(t.3) && t.4 <= e && b@.subrange(t.4 as int, e) == ct_auto(
                        c,
                    )
            },
            None => forall|c: ConfigV, e: int| !at_ct_amp(b@, pos as int, c, e),
        },
{
    let sep_a = lit_sep_amp_enable_vec();
    let (amp, e_a) = match parse_lit_bool(b, pos, &sep_a) {
        Some(t) => t,
        None => {
            proof {
                assert forall|c: ConfigV, e: int| !at_ct_amp(b@, pos as int, c, e) by {
                    if at_ct_amp(b@, pos as int, c, e) {
                        lemma_shape_amp(b@, pos as int, e, c);
                    }
                }
            }
            return None;
        },
    };
    proof {
        assert forall|c: ConfigV, e: int|
            at_ct_amp(b@, pos as int, c, e) implies c.hackrf_config.amp_enable == amp && e_a <= e
            && b@.subrange(e_a as int, e) == ct_antenna(c) by {
            lemma_shape_amp(b@, pos as int, e, c);
            lemma_lit_bool_unique(
                b@,
                pos as int,
                lit_sep_amp_enable(),
                amp,
                e_a as int,
                c.hackrf_config.amp_enable,
                pos + lit_sep_amp_enable().len() + bool_lit(c.hackrf_config.amp_enable).len(),
            );
        }
    }

    let sep_n = lit_sep_antenna_enable_vec();
    let (ant, e_n) = match parse_lit_bool(b, e_a, &sep_n) {
        Some(t) => t,
        None => {
            proof {
                assert forall|c: ConfigV, e: int| !at_ct_amp(b@, pos as int, c, e) by {
                    if at_ct_amp(b@, pos as int, c, e) {
                        lemma_shape_antenna(b@, e_a as int, e, c);
                    }
                }
            }
            return None;
        },
    };
    proof {
        assert forall|c: ConfigV, e: int|
            at_ct_amp(b@, pos as int, c, e) implies c.hackrf_config.antenna_enable == ant && e_n
            <= e && b@.subrange(e_n as int, e) == ct_baseband(c) by {
            lemma_shape_antenna(b@, e_a as int, e, c);
            lemma_lit_bool_unique(
                b@,
                e_a as int,
                lit_sep_antenna_enable(),
                ant,
                e_n as int,
                c.hackrf_config.antenna_enable,
                e_a + lit_sep_antenna_enable().len() + bool_lit(
                    c.hackrf_config.antenna_enable,
                ).len(),
            );
        }
    }

    let sep_b = lit_sep_baseband_filter_vec();
    let m_b = match expect_bytes(b, e_n, &sep_b) {
        Some(m) => m,
        None => {
            proof {
                assert forall|c: ConfigV, e: int| !at_ct_amp(b@, pos as int, c, e) by {
                    if at_ct_amp(b@, pos as int, c, e) {
                        lemma_shape_baseband(b@, e_n as int, e, c);
                    }
                }
            }
            return None;
        },
    };
    let baseband: Option<u64>;
    let e_b: usize;
    if m_b < b.len() && b[m_b] == 0x6e {
        let nul = lit_null_vec();
        match expect_bytes(b, m_b, &nul) {
            Some(m) => {
                baseband = None;
                e_b = m;
            },
            None => {
                proof {
                    assert forall|c: ConfigV, e: int| !at_ct_amp(b@, pos as int, c, e) by {
                        if at_ct_amp(b@, pos as int, c, e) {
                            lemma_shape_baseband(b@, e_n as int, e, c);
                        }
                    }
                }
                return None;
            },
        }
    } else {
        match parse_u64(b, m_b) {
            Some((v, m)) => {
                baseband = Some(v);
                e_b = m;
            },
            None => {
                proof {
                    assert forall|c: ConfigV, e: int| !at_ct_amp(b@, pos as int, c, e) by {
                        if at_ct_amp(b@, pos as int, c, e) {
                            lemma_shape_baseband(b@, e_n as int, e, c);
                        }
                    }
                }
                return None;
            },
        }
    }
    proof {
        assert forall|c: ConfigV, e: int|
            at_ct_amp(b@, pos as int, c, e) implies c.hackrf_config.baseband_filter == baseband
            && e_b <= e && b@.subrange(e_b as int, e) == ct_raw_log(c) by {
            lemma_shape_baseband(b@, e_n as int, e, c);
            match c.hackrf_config.baseband_filter {
                Some(v) => {
                    let m = e_n + lit_sep_baseband_filter().len();
                    lemma_num_at_unique(
                        b@,
                        m,
                        baseband->Some_0,
                        e_b as int,
                        v,
                        m + dec_rep(v as nat).len(),
                    );
                },
                None => {},
            }
        }
    }

    let sep_r = lit_sep_raw_log_vec();
    let m_r = match expect_bytes(b, e_b, &sep_r) {
        Some(m) => m,
        None => {
            proof {
                assert forall|c: ConfigV, e: int| !at_ct_amp(b@, pos as int, c, e) by {
                    if at_ct_amp(b@, pos as int, c, e) {
                        lemma_shape_raw(b@, e_b as int, e, c);
                    }
                }
            }
            return None;
        },
    };
    let raw_log: Option<Vec<u8>>;
    let e_r: usize;
    if m_r < b.len() && b[m_r] == 0x6e {
        let nul = lit_null_vec();
        match expect_bytes(b, m_r, &nul) {
            Some(m) => {
                raw_log = None;
                e_r = m;
            },
            None => {
                proof {
                    assert forall|c: ConfigV, e: int| !at_ct_amp(b@, pos as int, c, e) by {
                        if at_ct_amp(b@, pos as int, c, e) {
                            lemma_shape_raw(b@, e_b as int, e, c);
                        }
                    }
                }
                return None;
            },
        }
    } else {
        match parse_string(b, m_r) {
            Some((content, m)) => {
                raw_log = Some(content);
                e_r = m;
            },
            None => {
                proof {
                    assert forall|c: ConfigV, e: int| !at_ct_amp(b@, pos as int, c, e) by {
                        if at_ct_amp(b@, pos as int, c, e) {
                            lemma_shape_raw(b@, e_b as int, e, c);
                        }
                    }
                }
                return None;
            },
        }
    }
    proof {
        assert forall|c: ConfigV, e: int|
            at_ct_amp(b@, pos as int, c, e) implies c.hackrf_config.raw_log == opt_bytes_view(
            raw_log,
        ) && e_r <= e && b@.subrange(e_r as int, e) == ct_auto(c) by {
            lemma_shape_raw(b@, e_b as int, e, c);
        }
    }

    proof {
        let m_a = pos + lit_sep_amp_enable().len();
        let m_n = e_a + lit_sep_antenna_enable().len();
        if raw_log is Some {
            lemma_parse_content_sound(b@, m_r + 1);
            lemma_subrange_join(b@, m_r as int, m_r + 1, e_r as int);
            assert(b@.subrange(m_r as int, m_r + 1) =~= seq![b@[m_r as int]]);
            vstd::seq_lib::lemma_concat_associative(
                seq![QUOTE],
                esc_bytes(raw_log->Some_0@),
                seq![QUOTE],
            );
            assert(b@.subrange(m_r as int, e_r as int) == json_string(raw_log->Some_0@));
        }
        assert(b@.subrange(m_r as int, e_r as int) == spec_opt_bytes(opt_bytes_view(raw_log)));
        assert(b@.subrange(m_b as int, e_b as int) == spec_opt_u64(baseband));
        assert forall|c: ConfigV, x: int|
            (c.hackrf_config.amp_enable == amp && c.hackrf_config.antenna_enable == ant
                && c.hackrf_config.baseband_filter == baseband && c.hackrf_config.raw_log
                == opt_bytes_view(raw_log) && e_r <= x <= b@.len() && b@.subrange(e_r as int, x)
                == ct_auto(c)) implies #[trigger] at_ct_amp(b@, pos as int, c, x) by {
            lemma_subrange_join(b@, e_b as int, m_r as int, e_r as int);
            lemma_subrange_join(b@, e_b as int, e_r as int, x);
            assert(b@.subrange(e_b as int, x) == ct_raw_log(c));
            lemma_subrange_join(b@, e_n as int, m_b as int, e_b as int);
            lemma_subrange_join(b@, e_n as int, e_b as int, x);
            assert(b@.subrange(e_n as int, x) == ct_baseband(c));
            lemma_subrange_join(b@, e_a as int, m_n as int, e_n as int);
            lemma_subrange_join(b@, e_a as int, e_n as int, x);
            assert(b@.subrange(e_a as int, x) == ct_antenna(c));
            lemma_subrange_join(b@, pos as int, m_a as int, e_a as int);
            lemma_subrange_join(b@, pos as int, e_a as int, x);
            assert(b@.subrange(pos as int, x) == ct_amp(c));
        }
    }
    Some((amp, ant, baseband, raw_log, e_r))
}

/// Peeling the auto-gain field off its tail.
proof fn lemma_shape_auto(b: Seq<u8>, cur: int, e: int, c: ConfigV)
    requires
        0 <= cur <= e <= b.len(),
        b.subrange(cur, e) == ct_auto(c),
    ensures
        ({
            let m = cur + lit_sep_auto_gain().len() + bool_lit(c.hackrf_config.auto_gain).len();
            &&& lit_bool_at(b, cur, lit_sep_auto_gain(), c.hackrf_config.auto_gain, m)
            &&& cur <= m <= e
            &&& b.subrange(m, e) == ct_threshold(c)
        }),
{
    let sep = lit_sep_auto_gain();
    let d = bool_lit(c.hackrf_config.auto_gain);
    vstd::seq_lib::lemma_concat_associative(sep, d, ct_threshold(c));
    lemma_split_at(b, cur, e, sep, d + ct_threshold(c));
    lemma_split_at(b, cur + sep.len() as int, e, d, ct_threshold(c));
}

/// Peeling the detector-threshold field off its tail.
proof fn lemma_shape_threshold(b: Seq<u8>, cur: int, e: int, c: ConfigV)
    requires
        0 <= cur <= e <= b.len(),
        b.subrange(cur, e) == ct_threshold(c),
    ensures
        ({
            let m = cur + lit_det_open().len() + dec_rep(c.detector_config.threshold_milli as nat).len();
            &&& lit_num_at(b, cur, lit_det_open(), c.detector_config.threshold_milli as u64, m)
            &&& cur <= m <= e
            &&& b.subrange(m, e) == ct_min_pulse(c)
        }),
{
    let sep = lit_det_open();
    let d = dec_rep(c.detector_config.threshold_milli as nat);
    vstd::seq_lib::lemma_concat_associative(sep, d, ct_min_pulse(c));
    lemma_split_at(b, cur, e, sep, d + ct_min_pulse(c));
    lemma_split_at(b, cur + sep.len() as int, e, d, ct_min_pulse(c));
    assert(ct_min_pulse(c)[0] == 0x2cu8);
    assert(b[cur + sep.len() + d.len()] == b.subrange(cur + sep.len() + d.len(), e)[0]);
}

/// Peeling the detector minimum-pulse field off its tail.
proof fn lemma_shape_min_pulse(b: Seq<u8>, cur: int, e: int, c: ConfigV)
    requires
        0 <= cur <= e <= b.len(),
        b.subrange(cur, e) == ct_min_pulse(c),
    ensures
        ({
            let m = cur + lit_sep_min_pulse_samples().len() + dec_rep(
                c.detector_config.min_pulse_samples as nat,
            ).len();
            &&& lit_num_at(
                b,
                cur,
                lit_sep_min_pulse_samples(),
                c.detector_config.min_pulse_samples as u64,
                m,
            )
            &&& cur <= m <= e
            &&& b.subrange(m, e) == lit_cfg_close()
            &&& e == m + 2
        }),
{
    let sep = lit_sep_min_pulse_samples();
    let d = dec_rep(c.detector_config.min_pulse_samples as nat);
    vstd::seq_lib::lemma_concat_associative(sep, d, lit_cfg_close());
    lemma_split_at(b, cur, e, sep, d + lit_cfg_close());
    lemma_split_at(b, cur + sep.len() as int, e, d, lit_cfg_close());
    assert(lit_cfg_close()[0] == 0x7du8);
    assert(b[cur + sep.len() + d.len()] == b.subrange(cur + sep.len() + d.len(), e)[0]);
}

/// Parse the tail of a configuration payload: the auto-gain flag, the
/// detector fields, and the closing braces.
#[verifier::rlimit(100)]
fn parse_cfg_tail(b: &Vec<u8>, pos: usize) -> (r: Option<(bool, u64, u64, usize)>)
    requires
        pos <= b@.len(),
    ensures
        match r {
            Some(t) => {
                &&& t.1 <= u32::MAX && t.2 <= u32::MAX
                &&& pos <= t.3 <= b@.len()
                &&& forall|c: ConfigV|
                    (c.hackrf_config.auto_gain == t.0 && c.detector_config.threshold_milli == t.1
                        && c.detector_config.min_pulse_samples == t.2) ==> b@.subrange(
                        pos as int,
                        t.3 as int,
                    ) == #[trigger] ct_auto(c)
                &&& forall|c: ConfigV, e: int|
                    #[trigger] at_ct_auto(b@, pos as int, c, e) ==> c.hackrf_config.auto_gain
                        == t.0 && c.detector_config.threshold_milli == t.1
                        && c.detector_config.min_pulse_samples == t.2 && e == t.3
            },
            None => forall|c: ConfigV, e: int| !at_ct_auto(b@, pos as int, c, e),
        },
{
    let sep_g = lit_sep_auto_gain_vec();
    let (auto, e_g) = match parse_lit_bool(b, pos, &sep_g) {
        Some(t) => t,
        None => {
            proof {
                assert forall|c: ConfigV, e: int| !at_ct_auto(b@, pos as int, c, e) by {
                    if at_ct_auto(b@, pos as int, c, e) {
                        lemma_shape_auto(b@, pos as int, e, c);
                    }
                }
            }
            return None;
        },
    };
    proof {
        assert forall|c: ConfigV, e: int|
            at_ct_auto(b@, pos as int, c, e) implies c.hackrf_config.auto_gain == auto && e_g <= e
            && b@.subrange(e_g as int, e) == ct_threshold(c) by {
            lemma_shape_auto(b@, pos as int, e, c);
            lemma_lit_bool_unique(
                b@,
                pos as int,
                lit_sep_auto_gain(),
                auto,
                e_g as int,
                c.hackrf_config.auto_gain,
                pos + lit_sep_auto_gain().len() + bool_lit(c.hackrf_config.auto_gain).len(),
            );
        }
    }

    let sep_t = lit_det_open_vec();
    let (th, e_t) = match parse_lit_num(b, e_g, &sep_t) {
        Some(t) => t,
        None => {
            proof {
                assert forall|c: ConfigV, e: int| !at_ct_auto(b@, pos as int, c, e) by {
                    if at_ct_auto(b@, pos as int, c, e) {
                        lemma_shape_threshold(b@, e_g as int, e, c);
                    }
                }
            }
            return None;
        },
    };
    proof {
        assert forall|c: ConfigV, e: int|
            at_ct_auto(b@, pos as int, c, e) implies c.detector_config.threshold_milli as u64 == th
            && e_t <= e && b@.subrange(e_t as int, e) == ct_min_pulse(c) by {
            lemma_shape_threshold(b@, e_g as int, e, c);
            lemma_lit_num_unique(
                b@,
                e_g as int,
                lit_det_open(),
                th,
                e_t as int,
                c.detector_config.threshold_milli as u64,
                e_g + lit_det_open().len() + dec_rep(c.detector_config.threshold_milli as nat).len(),
            );
        }
    }
    if th > 0xffff_ffff {
        return None;
    }

    let sep_m = lit_sep_min_pulse_samples_vec();
    let (mp, e_m) = match parse_lit_num(b, e_t, &sep_m) {
        Some(t) => t,
        None => {
            proof {
                assert forall|c: ConfigV, e: int| !at_ct_auto(b@, pos as int, c, e) by {
                    if at_ct_auto(b@, pos as int, c, e) {
                        lemma_shape_min_pulse(b@, e_t as int, e, c);
                    }
                }
            }
            return None;
        },
    };
    proof {
        assert forall|c: ConfigV, e: int|
            at_ct_auto(b@, pos as int, c, e) implies c.detector_config.min_pulse_samples as u64
            == mp && e_m <= e && b@.subrange(e_m as int, e) == lit_cfg_close() && e == e_m + 2 by {
            lemma_shape_min_pulse(b@, e_t as int, e, c);
            lemma_lit_num_unique(
                b@,
                e_t as int,
                lit_sep_min_pulse_samples(),
                mp,
                e_m as int,
                c.detector_config.min_pulse_samples as u64,
                e_t + lit_sep_min_pulse_samples().len() + dec_rep(
                    c.detector_config.min_pulse_samples as nat,
                ).len(),
            );
        }
    }
    if mp > 0xffff_ffff {
        return None;
    }

    let closer = lit_cfg_close_vec();
    let e_c = match expect_bytes(b, e_m, &closer) {
        Some(m) => m,
        None => {
            return None;
        },
    };

    proof {
        let m_g = pos + lit_sep_auto_gain().len();
        let m_t = e_g + lit_det_open().len();
        let m_m = e_t + lit_sep_min_pulse_samples().len();
        assert forall|c: ConfigV|
            (c.hackrf_config.auto_gain == auto && c.detector_config.threshold_milli == th
                && c.detector_config.min_pulse_samples == mp) implies b@.subrange(
            pos as int,
            e_c as int,
        ) == #[trigger] ct_auto(c) by {
            lemma_subrange_join(b@, e_t as int, m_m, e_m as int);
            lemma_subrange_join(b@, e_t as int, e_m as int, e_c as int);
            assert(b@.subrange(e_t as int, e_c as int) == ct_min_pulse(c));
            lemma_subrange_join(b@, e_g as int, m_t, e_t as int);
            lemma_subrange_join(b@, e_g as int, e_t as int, e_c as int);
            assert(b@.subrange(e_g as int, e_c as int) == ct_threshold(c));
            lemma_subrange_join(b@, pos as int, m_g as int, e_g as int);
            lemma_subrange_join(b@, pos as int, e_g as int, e_c as int);
        }
    }
    Some((auto, th, mp, e_c))
}

/// Parse one configuration payload starting at `pos`.
///
/// Exact: a `Some` result is the one configuration whose payload stands
/// there, with its one end position; `None` means none does.
#[verifier::rlimit(100)]
pub fn parse_config(b: &Vec<u8>, pos: usize) -> (r: Option<(Config, usize)>)
    requires
        pos <= b@.len(),
    ensures
        match r {
            Some(t) => {
                &&& cfg_at(b@, pos as int, t.0@, t.1 as int)
                &&& pos <= t.1 <= b@.len()
                &&& forall|c: ConfigV, e: int|
                    #[trigger] cfg_at(b@, pos as int, c, e) ==> c == t.0@ && e == t.1
            },
            None => forall|c: ConfigV, e: int| !cfg_at(b@, pos as int, c, e),
        },
{
    let (samp, center, lna, vga, p_a) = match parse_cfg_head(b, pos) {
        Some(t) => t,
        None => {
            return None;
        },
    };
    let (amp, antenna, baseband, raw_log, p_b) = match parse_cfg_mid(b, p_a) {
        Some(t) => t,
        None => {
            proof {
                assert forall|c: ConfigV, e: int| !cfg_at(b@, pos as int, c, e) by {
                    if cfg_at(b@, pos as int, c, e) {
                        assert(at_ct_amp(b@, p_a as int, c, e));
                    }
                }
            }
            return None;
        },
    };
    let ghost raw_view = opt_bytes_view(raw_log);
    let (auto, th, mp, p_c) = match parse_cfg_tail(b, p_b) {
        Some(t) => t,
        None => {
            proof {
                assert forall|c: ConfigV, e: int| !cfg_at(b@, pos as int, c, e) by {
                    if cfg_at(b@, pos as int, c, e) {
                        assert(at_ct_amp(b@, p_a as int, c, e));
                        assert(at_ct_auto(b@, p_b as int, c, e));
                    }
                }
            }
            return None;
        },
    };

    let cfg = Config {
        hackrf_config: HackRFConfig {
            samp_rate: samp,
            center_freq: center,
            lna_gain: lna as u32,
            vga_gain: vga as u32,
            amp_enable: amp,
            antenna_enable: antenna,
            baseband_filter: baseband,
            raw_log,
            auto_gain: auto,
        },
        detector_config: DetectorConfig { threshold_milli: th as u32, min_pulse_samples: mp as u32 },
    };

    proof {
        assert(cfg@.hackrf_config.raw_log == raw_view);
        assert(b@.subrange(p_b as int, p_c as int) == ct_auto(cfg@));
        assert(at_ct_amp(b@, p_a as int, cfg@, p_c as int));
        assert(cfg_at(b@, pos as int, cfg@, p_c as int));
        assert forall|c: ConfigV, e: int|
            cfg_at(b@, pos as int, c, e) implies c == cfg@ && e == p_c by {
            assert(at_ct_amp(b@, p_a as int, c, e));
            assert(at_ct_auto(b@, p_b as int, c, e));
            assert(c =~= cfg@);
        }
    }
    Some((cfg, p_c))
}

/// Decode one whole configuration payload.
///
/// Exact: a `Some` result re-encodes to exactly the input, and the one
/// configuration whose encoding is the input is always returned.
pub fn decode_config(b: &Vec<u8>) -> (r: Option<Config>)
    ensures
        r is Some ==> b@ == spec_config_payload(r->Some_0@),
        forall|c: ConfigV| b@ == spec_config_payload(c) ==> r is Some && r->Some_0@ == c,
{
    proof {
        assert(b@.subrange(0, b@.len() as int) =~= b@);
    }
    match parse_config(b, 0) {
        Some((cfg, end)) => {
            if end == b.len() {
                proof {
                    assert(b@ == spec_config_payload(cfg@));
                    assert forall|c: ConfigV|
                        b@ == spec_config_payload(c) implies cfg@ == c by {
                        assert(cfg_at(b@, 0, c, b@.len() as int));
                    }
                }
                Some(cfg)
            } else {
                proof {
                    assert forall|c: ConfigV| b@ != spec_config_payload(c) by {
                        if b@ == spec_config_payload(c) {
                            assert(cfg_at(b@, 0, c, b@.len() as int));
                        }
                    }
                }
                None
            }
        },
        None => {
            proof {
                assert forall|c: ConfigV| b@ != spec_config_payload(c) by {
                    if b@ == spec_config_payload(c) {
                        assert(cfg_at(b@, 0, c, b@.len() as int));
                    }
                }
            }
            None
        },
    }
}

/// No two command payloads share a first byte across kinds: plain
/// commands start with a quote, `Start` with an opening brace.
proof fn lemma_command_payload_head(c: CommandV, b: Seq<u8>)
    requires
        b == spec_command_payload(c),
    ensures
        b.len() > 0,
        c is Start <==> b[0] == 0x7bu8,
        c == CommandV::Stop ==> b.len() == 6 && b[1] == 0x53u8,
        c == CommandV::Exit ==> b.len() == 6 && b[1] == 0x45u8,
{
    match c {
        CommandV::Stop => {},
        CommandV::Exit => {},
        CommandV::Start(None) => {
            assert(b[0] == lit_start_open()[0]);
        },
        CommandV::Start(Some(cfg)) => {
            assert(b[0] == lit_start_open()[0]);
        },
    }
}

/// Decode one command payload.
///
/// Exact: a `Some` result re-encodes to exactly the input, and the one
/// command whose encoding is the input is always returned — so decoding
/// the bytes produced by `encode_command` always yields the encoded
/// command.
#[verifier::rlimit(100)]
pub fn decode_command(b: &Vec<u8>) -> (r: Option<Command>)
    ensures
        r is Some ==> b@ == spec_command_payload(r->Some_0@),
        forall|c: CommandV| b@ == spec_command_payload(c) ==> r is Some && r->Some_0@ == c,
{
    proof {
        assert(b@.subrange(0, b@.len() as int) =~= b@);
    }
    let stop = lit_cmd_stop_vec();
    if let Some(end) = expect_bytes(b, 0, &stop) {
        if end == b.len() {
            proof {
                assert(b@ =~= lit_cmd_stop());
                assert forall|c: CommandV|
                    b@ == spec_command_payload(c) implies CommandV::Stop == c by {
                    lemma_command_payload_head(c, b@);
                }
            }
            return Some(Command::Stop);
        }
        proof {
            assert forall|c: CommandV| b@ != spec_command_payload(c) by {
                if b@ == spec_command_payload(c) {
                    lemma_command_payload_head(c, b@);
                    assert(b@[0] == lit_cmd_stop()[0]);
                    if c is Start {
                    } else {
                        assert(b@.len() == 6);
                    }
                }
            }
        }
        return None;
    }
    let exit = lit_cmd_exit_vec();
    if let Some(end) = expect_bytes(b, 0, &exit) {
        if end == b.len() {
            proof {
                assert(b@ =~= lit_cmd_exit());
                assert forall|c: CommandV|
                    b@ == spec_command_payload(c) implies CommandV::Exit == c by {
                    lemma_command_payload_head(c, b@);
                    if c == CommandV::Stop {
                        assert(b@[1] == lit_cmd_exit()[1]);
                    }
                }
            }
            return Some(Command::Exit);
        }
        proof {
            assert forall|c: CommandV| b@ != spec_command_payload(c) by {
                if b@ == spec_command_payload(c) {
                    lemma_command_payload_head(c, b@);
                    assert(b@[0] == lit_cmd_exit()[0]);
                    if c is Start {
                    } else {
                        assert(b@.len() == 6);
                    }
                }
            }
        }
        return None;
    }
    let opener = lit_start_open_vec();
    let lo = match expect_bytes(b, 0, &opener) {
        Some(lo) => lo,
        None => {
            proof {
                assert forall|c: CommandV| b@ != spec_command_payload(c) by {
                    if b@ == spec_command_payload(c) {
                        lemma_command_payload_head(c, b@);
                        match c {
                            CommandV::Stop => {
                                assert(b@.subrange(0, 6) =~= b@);
                            },
                            CommandV::Exit => {
                                assert(b@.subrange(0, 6) =~= b@);
                            },
                            CommandV::Start(None) => {
                                vstd::seq_lib::lemma_concat_associative(
                                    lit_start_open(),
                                    lit_null(),
                                    lit_close_brace(),
                                );
                                lemma_tail_split(
                                    b@,
                                    0,
                                    lit_start_open(),
                                    lit_null() + lit_close_brace(),
                                );
                            },
                            CommandV::Start(Some(cfg)) => {
                                vstd::seq_lib::lemma_concat_associative(
                                    lit_start_open(),
                                    spec_config_payload(cfg),
                                    lit_close_brace(),
                                );
                                lemma_tail_split(
                                    b@,
                                    0,
                                    lit_start_open(),
                                    spec_config_payload(cfg) + lit_close_brace(),
                                );
                            },
                        }
                    }
                }
            }
            return None;
        },
    };
    proof {
        assert forall|c: CommandV|
            b@ == spec_command_payload(c) implies (c is Start && b@.subrange(
            lo as int,
            b@.len() as int,
        ) == (match c->Start_0 {
            Some(cfg) => spec_config_payload(cfg) + lit_close_brace(),
            None => lit_null() + lit_close_brace(),
        })) by {
            lemma_command_payload_head(c, b@);
            match c {
                CommandV::Stop => {
                    assert(b@[0] == lit_cmd_stop()[0]);
                },
                CommandV::Exit => {
                    assert(b@[0] == lit_cmd_exit()[0]);
                },
                CommandV::Start(None) => {
                    vstd::seq_lib::lemma_concat_associative(
                        lit_start_open(),
                        lit_null(),
                        lit_close_brace(),
                    );
                    lemma_tail_split(b@, 0, lit_start_open(), lit_null() + lit_close_brace());
                },
                CommandV::Start(Some(cfg)) => {
                    vstd::seq_lib::lemma_concat_associative(
                        lit_start_open(),
                        spec_config_payload(cfg),
                        lit_close_brace(),
                    );
                    lemma_tail_split(
                        b@,
                        0,
                        lit_start_open(),
                        spec_config_payload(cfg) + lit_close_brace(),
                    );
                },
            }
        }
    }

    if lo < b.len() && b[lo] == 0x6e {
        let nul = lit_null_vec();
        let m = match expect_bytes(b, lo, &nul) {
            Some(m) => m,
            None => {
                proof {
                    assert forall|c: CommandV| b@ != spec_command_payload(c) by {
                        if b@ == spec_command_payload(c) {
                            match c->Start_0 {
                                Some(cfg) => {
                                    lemma_split_at(
                                        b@,
                                        lo as int,
                                        b@.len() as int,
                                        spec_config_payload(cfg),
                                        lit_close_brace(),
                                    );
                                    assert(b@[lo as int] == lit_cfg_open()[0]);
                                },
                                None => {
                                    lemma_split_at(
                                        b@,
                                        lo as int,
                                        b@.len() as int,
                                        lit_null(),
                                        lit_close_brace(),
                                    );
                                },
                            }
                        }
                    }
                }
                return None;
            },
        };
        let closer = lit_close_brace_vec();
        let m2 = match expect_bytes(b, m, &closer) {
            Some(m2) => m2,
            None => {
                proof {
                    assert forall|c: CommandV| b@ != spec_command_payload(c) by {
                        if b@ == spec_command_payload(c) {
                            match c->Start_0 {
                                Some(cfg) => {
                                    lemma_split_at(
                                        b@,
                                        lo as int,
                                        b@.len() as int,
                                        spec_config_payload(cfg),
                                        lit_close_brace(),
                                    );
                                    assert(b@[lo as int] == lit_cfg_open()[0]);
                                },
                                None => {
                                    lemma_split_at(
                                        b@,
                                        lo as int,
                                        b@.len() as int,
                                        lit_null(),
                                        lit_close_brace(),
                                    );
                                },
                            }
                        }
                    }
                }
                return None;
            },
        };
        if m2 == b.len() {
            proof {
                lemma_subrange_join(b@, 0, lo as int, m as int);
                lemma_subrange_join(b@, 0, m as int, m2 as int);
                assert(b@ == lit_start_open() + lit_null() + lit_close_brace());
                let r0 = Command::Start(None);
                assert(b@ == spec_command_payload(r0@));
                assert forall|c: CommandV|
                    b@ == spec_command_payload(c) implies r0@ == c by {
                    match c->Start_0 {
                        Some(cfg) => {
                            lemma_split_at(
                                b@,
                                lo as int,
                                b@.len() as int,
                                spec_config_payload(cfg),
                                lit_close_brace(),
                            );
                            assert(b@[lo as int] == lit_cfg_open()[0]);
                        },
                        None => {
                            assert(c =~= CommandV::Start(None::<ConfigV>));
                        },
                    }
                }
            }
            return Some(Command::Start(None));
        }
        proof {
            assert forall|c: CommandV| b@ != spec_command_payload(c) by {
                if b@ == spec_command_payload(c) {
                    match c->Start_0 {
                        Some(cfg) => {
                            lemma_split_at(
                                b@,
                                lo as int,
                                b@.len() as int,
                                spec_config_payload(cfg),
                                lit_close_brace(),
                            );
                            assert(b@[lo as int] == lit_cfg_open()[0]);
                        },
                        None => {
                            lemma_split_at(
                                b@,
                                lo as int,
                                b@.len() as int,
                                lit_null(),
                                lit_close_brace(),
                            );
                        },
                    }
                }
            }
        }
        return None;
    }

    let (cfg, ce) = match parse_config(b, lo) {
        Some(t) => t,
        None => {
            proof {
                assert forall|c: CommandV| b@ != spec_command_payload(c) by {
                    if b@ == spec_command_payload(c) {
                        match c->Start_0 {
                            Some(cfg2) => {
                                lemma_split_at(
                                    b@,
                                    lo as int,
                                    b@.len() as int,
                                    spec_config_payload(cfg2),
                                    lit_close_brace(),
                                );
                                assert(cfg_at(
                                    b@,
                                    lo as int,
                                    cfg2,
                                    lo + spec_config_payload(cfg2).len(),
                                ));
                            },
                            None => {
                                lemma_split_at(
                                    b@,
                                    lo as int,
                                    b@.len() as int,
                                    lit_null(),
                                    lit_close_brace(),
                                );
                                assert(b@[lo as int] == lit_null()[0]);
                            },
                        }
                    }
                }
            }
            return None;
        },
    };
    proof {
        assert forall|c: CommandV|
            b@ == spec_command_payload(c) implies (c == CommandV::Start(Some(cfg@)) && ce
            + lit_close_brace().len() == b@.len() && b@.subrange(ce as int, b@.len() as int)
            == lit_close_brace()) by {
            match c->Start_0 {
                Some(cfg2) => {
                    lemma_split_at(
                        b@,
                        lo as int,
                        b@.len() as int,
                        spec_config_payload(cfg2),
                        lit_close_brace(),
                    );
                    assert(cfg_at(b@, lo as int, cfg2, lo + spec_config_payload(cfg2).len()));
                    assert(cfg2 == cfg@);
                    assert(c =~= CommandV::Start(Some(cfg@)));
                },
                None => {
                    lemma_split_at(b@, lo as int, b@.len() as int, lit_null(), lit_close_brace());
                    assert(b@[lo as int] == lit_null()[0]);
                },
            }
        }
    }
    let closer = lit_close_brace_vec();
    let m2 = match expect_bytes(b, ce, &closer) {
        Some(m2) => m2,
        None => {
            proof {
                assert forall|c: CommandV| b@ != spec_command_payload(c) by {
                    if b@ == spec_command_payload(c) {
                        assert(b@.subrange(ce as int, b@.len() as int) == lit_close_brace());
                    }
                }
            }
            return None;
        },
    };
    if m2 == b.len() {
        proof {
            lemma_subrange_join(b@, 0, lo as int, ce as int);
            lemma_subrange_join(b@, 0, ce as int, m2 as int);
            assert(b@ == lit_start_open() + spec_config_payload(cfg@) + lit_close_brace());
            let r0v = CommandV::Start(Some(cfg@));
            assert(b@ == spec_command_payload(r0v));
        }
        return Some(Command::Start(Some(cfg)));
    }
    None
}

} // verus!