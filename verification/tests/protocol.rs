//! Wire-protocol tests: framing, payload codecs, partial reads.

use pulse_server::config::{Command, Config, DetectorConfig, HackRFConfig};
use pulse_server::frame_reader::{FrameReader, ProtocolError};
use pulse_server::payload::{
    decode_command, decode_config, decode_pulse, encode_command, encode_config, encode_pulse,
};
use pulse_server::pulse::Pulse;
use pulse_server::util::{default_config, resolve_config_bytes, ConfigError};
use pulse_server::wire::{decode_u64_le, encode_frame, encode_u64_le};

fn sample_pulse() -> Pulse {
    Pulse { freq_hz: 150_125_000, signal_strength_milli: 950, gain: 20, timestamp_ms: 1_700_000_000_123 }
}

fn sample_config() -> Config {
    Config {
        hackrf_config: HackRFConfig {
            samp_rate: 8_000_000,
            center_freq: 150_000_000,
            lna_gain: 24,
            vga_gain: 20,
            amp_enable: true,
            antenna_enable: false,
            baseband_filter: Some(1_750_000),
            raw_log: Some(b"/tmp/raw \"log\" \\one.bin".to_vec()),
            auto_gain: true,
        },
        detector_config: DetectorConfig { threshold_milli: 400, min_pulse_samples: 64 },
    }
}

#[test]
fn pulse_payload_exact_bytes() {
    let p = Pulse { freq_hz: 7, signal_strength_milli: 950, gain: 20, timestamp_ms: 0 };
    let bytes = encode_pulse(&p);
    assert_eq!(
        bytes,
        b"{\"freq_hz\":7,\"signal_strength_milli\":950,\"gain\":20,\"timestamp_ms\":0}".to_vec()
    );
}

#[test]
fn pulse_round_trip() {
    let p = sample_pulse();
    let bytes = encode_pulse(&p);
    assert_eq!(decode_pulse(&bytes), Some(p));
}

#[test]
fn pulse_round_trip_extremes() {
    let p = Pulse {
        freq_hz: u64::MAX,
        signal_strength_milli: 0,
        gain: u32::MAX,
        timestamp_ms: u64::MAX,
    };
    let bytes = encode_pulse(&p);
    assert_eq!(decode_pulse(&bytes), Some(p));
}

#[test]
fn pulse_rejects_leading_zero() {
    let bytes = b"{\"freq_hz\":07,\"signal_strength_milli\":9,\"gain\":2,\"timestamp_ms\":0}";
    assert_eq!(decode_pulse(&bytes.to_vec()), None);
}

#[test]
fn pulse_rejects_trailing_bytes() {
    let p = sample_pulse();
    let mut bytes = encode_pulse(&p);
    bytes.push(b' ');
    assert_eq!(decode_pulse(&bytes), None);
}

#[test]
fn command_stop_exact_bytes() {
    assert_eq!(encode_command(&Command::Stop), b"\"Stop\"".to_vec());
    assert_eq!(encode_command(&Command::Exit), b"\"Exit\"".to_vec());
    assert_eq!(encode_command(&Command::Start(None)), b"{\"Start\":null}".to_vec());
}

#[test]
fn command_round_trip_plain() {
    for cmd in [Command::Stop, Command::Exit, Command::Start(None)] {
        let bytes = encode_command(&cmd);
        assert_eq!(decode_command(&bytes), Some(cmd));
    }
}

#[test]
fn command_round_trip_with_config() {
    let cmd = Command::Start(Some(sample_config()));
    let bytes = encode_command(&cmd);
    assert_eq!(decode_command(&bytes), Some(cmd));
}

#[test]
fn command_rejects_malformed() {
    assert_eq!(decode_command(&b"\"Stap\"".to_vec()), None);
    assert_eq!(decode_command(&b"\"Stop".to_vec()), None);
    assert_eq!(decode_command(&b"{\"Start\":nul}".to_vec()), None);
    assert_eq!(decode_command(&b"".to_vec()), None);
}

#[test]
fn config_round_trip() {
    let cfg = sample_config();
    let bytes = encode_config(&cfg);
    assert_eq!(decode_config(&bytes), Some(cfg));
}

#[test]
fn config_round_trip_no_options() {
    let mut cfg = sample_config();
    cfg.hackrf_config.baseband_filter = None;
    cfg.hackrf_config.raw_log = None;
    let bytes = encode_config(&cfg);
    assert_eq!(decode_config(&bytes), Some(cfg));
}

#[test]
fn resolve_config_missing_file_uses_defaults() {
    let resolved = resolve_config_bytes(None);
    assert_eq!(resolved, Ok((default_config(), true)));
}

#[test]
fn resolve_config_present_file() {
    let cfg = sample_config();
    let bytes = encode_config(&cfg);
    assert_eq!(resolve_config_bytes(Some(&bytes)), Ok((cfg, false)));
}

#[test]
fn resolve_config_malformed_is_fatal() {
    let bytes = b"{\"hackrf_config\":oops".to_vec();
    assert_eq!(resolve_config_bytes(Some(&bytes)), Err(ConfigError::Malformed));
}

#[test]
fn length_prefix_little_endian() {
    let payload = b"hello".to_vec();
    let frame = encode_frame(&payload);
    assert_eq!(&frame[..8], &[5, 0, 0, 0, 0, 0, 0, 0]);
    assert_eq!(&frame[8..], b"hello");
}

#[test]
fn u64_le_round_trip() {
    let v = 0x0123_4567_89ab_cdef_u64;
    let bytes = encode_u64_le(v);
    assert_eq!(bytes, vec![0xef, 0xcd, 0xab, 0x89, 0x67, 0x45, 0x23, 0x01]);
    assert_eq!(decode_u64_le(&bytes), v);
}

#[test]
fn frame_reader_single_shot() {
    let mut reader = FrameReader::new();
    let prefix = encode_u64_le(3);
    assert_eq!(reader.start_frame(&prefix), Ok(()));
    let consumed = reader.accept_payload(b"abcXYZ");
    assert_eq!(consumed, 3);
    assert!(reader.frame_complete());
    assert_eq!(reader.take_payload(), b"abc".to_vec());
    assert!(reader.awaiting_length());
}

#[test]
fn frame_reader_byte_by_byte() {
    let mut reader = FrameReader::new();
    let prefix = encode_u64_le(4);
    assert_eq!(reader.start_frame(&prefix), Ok(()));
    for (i, byte) in b"data".iter().enumerate() {
        assert!(!reader.frame_complete(), "complete after only {} bytes", i);
        assert_eq!(reader.accept_payload(&[*byte]), 1);
    }
    assert!(reader.frame_complete());
    assert_eq!(reader.take_payload(), b"data".to_vec());
}

#[test]
fn frame_reader_chunked() {
    let mut reader = FrameReader::new();
    let prefix = encode_u64_le(10);
    assert_eq!(reader.start_frame(&prefix), Ok(()));
    assert_eq!(reader.accept_payload(b"0123"), 4);
    assert!(!reader.frame_complete());
    assert_eq!(reader.accept_payload(b"4567"), 4);
    assert!(!reader.frame_complete());
    assert_eq!(reader.accept_payload(b"89"), 2);
    assert!(reader.frame_complete());
    assert_eq!(reader.take_payload(), b"0123456789".to_vec());
}

#[test]
fn frame_reader_rejects_oversized_length() {
    let mut reader = FrameReader::new();
    let prefix = encode_u64_le(2001);
    assert_eq!(reader.start_frame(&prefix), Err(ProtocolError::FrameTooLong));
    assert!(reader.awaiting_length());
}

#[test]
fn frame_reader_accepts_cap_length() {
    let mut reader = FrameReader::new();
    let prefix = encode_u64_le(2000);
    assert_eq!(reader.start_frame(&prefix), Ok(()));
}

#[test]
fn frame_reader_zero_length_frame() {
    let mut reader = FrameReader::new();
    let prefix = encode_u64_le(0);
    assert_eq!(reader.start_frame(&prefix), Ok(()));
    assert!(reader.frame_complete());
    assert_eq!(reader.take_payload(), Vec::<u8>::new());
}
