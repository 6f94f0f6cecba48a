//! Gain controller, acquisition state machine and supervisor tests.

use pulse_server::acquisition::{
    device_setup_plan, dispatch_command, handle_chunk, AcquisitionState, ChunkOutcome, DeviceOp,
    RunState, Supervisor, SupervisorDecision, RETRY_COOLDOWN_SECS,
};
use pulse_server::config::{Command, Config, DetectorConfig, HackRFConfig};
use pulse_server::gain_control::{decrease_gain, increase_gain, GainConfig, GainControl};
use pulse_server::pulse::Pulse;
use pulse_server::pulse_store::{get_pulses_since, PulseHandle, PulseWithTelemetry, Telemetry};
use pulse_server::task::init_task;

fn config(auto_gain: bool) -> Config {
    Config {
        hackrf_config: HackRFConfig {
            samp_rate: 1_000_000,
            center_freq: 150_000_000,
            lna_gain: 16,
            vga_gain: 4,
            amp_enable: false,
            antenna_enable: true,
            baseband_filter: None,
            raw_log: None,
            auto_gain,
        },
        detector_config: DetectorConfig { threshold_milli: 500, min_pulse_samples: 10 },
    }
}

fn pulse_with_strength(milli: u32) -> Pulse {
    Pulse { freq_hz: 150_000_000, signal_strength_milli: milli, gain: 20, timestamp_ms: 0 }
}

#[test]
fn strong_signal_cuts_gain_by_one_step() {
    // Total gain 20, one detection at 0.95: the new total is 16.
    let mut control = GainControl {
        current_gain: GainConfig { lna_gain: 20, vga_gain: 0 },
        wait_time: 2_000_000,
        samples_since_pulse: 123,
    };
    let update = control.check_gain(&[pulse_with_strength(950)]);
    let setting = update.expect("a strong signal must produce a new setting");
    assert_eq!(setting.lna_gain + setting.vga_gain, 16);
    assert_eq!(control.samples_since_pulse, 0);
}

#[test]
fn weak_signal_only_resets_counter() {
    let mut control = GainControl {
        current_gain: GainConfig { lna_gain: 20, vga_gain: 0 },
        wait_time: 2_000_000,
        samples_since_pulse: 5_000_000,
    };
    assert_eq!(control.check_gain(&[pulse_with_strength(400)]), None);
    assert_eq!(control.samples_since_pulse, 0);
    assert_eq!(control.current_gain, GainConfig { lna_gain: 20, vga_gain: 0 });
}

#[test]
fn prolonged_silence_raises_gain_and_keeps_excess() {
    // Elapsed samples exceed twice the sample rate: the gain rises by 4
    // and the threshold is subtracted, not reset.
    let mut control = GainControl::new(&config(true).hackrf_config);
    control.update_sample_count(2_000_001);
    let update = control.check_gain(&[]);
    let setting = update.expect("silence past the threshold must raise the gain");
    assert_eq!(setting.lna_gain + setting.vga_gain, 16 + 4 + 4);
    assert_eq!(control.samples_since_pulse, 1);
}

#[test]
fn silence_below_threshold_changes_nothing() {
    let mut control = GainControl::new(&config(true).hackrf_config);
    control.update_sample_count(2_000_000);
    assert_eq!(control.check_gain(&[]), None);
    assert_eq!(control.samples_since_pulse, 2_000_000);
}

#[test]
fn gain_floors_at_zero() {
    let mut control = GainControl {
        current_gain: GainConfig { lna_gain: 2, vga_gain: 0 },
        wait_time: 2_000_000,
        samples_since_pulse: 0,
    };
    let setting = control.check_gain(&[pulse_with_strength(950)]).unwrap();
    assert_eq!(setting, GainConfig { lna_gain: 0, vga_gain: 0 });
}

#[test]
fn gain_split_fills_lna_first() {
    assert_eq!(GainConfig::new(24), GainConfig { lna_gain: 24, vga_gain: 0 });
    assert_eq!(GainConfig::new(50), GainConfig { lna_gain: 40, vga_gain: 10 });
    assert_eq!(GainConfig::new(200), GainConfig { lna_gain: 40, vga_gain: 62 });
    assert_eq!(increase_gain(20), GainConfig { lna_gain: 24, vga_gain: 0 });
    assert_eq!(decrease_gain(3), GainConfig { lna_gain: 0, vga_gain: 0 });
}

#[test]
fn stop_while_idle_changes_nothing() {
    let mut cfg = config(true);
    let before = cfg.clone();
    let next = dispatch_command(RunState::Idle, &Command::Stop, &mut cfg);
    assert_eq!(next, RunState::Idle);
    assert_eq!(cfg, before);
}

#[test]
fn start_none_keeps_active_parameters() {
    let mut cfg = config(true);
    let before = cfg.clone();
    let next = dispatch_command(RunState::Streaming, &Command::Start(None), &mut cfg);
    assert_eq!(next, RunState::Streaming);
    assert_eq!(cfg, before);
}

#[test]
fn start_some_replaces_configuration() {
    let mut cfg = config(true);
    let replacement = config(false);
    let next =
        dispatch_command(RunState::Idle, &Command::Start(Some(replacement.clone())), &mut cfg);
    assert_eq!(next, RunState::Streaming);
    assert_eq!(cfg, replacement);
}

#[test]
fn exit_terminates_the_run() {
    let mut cfg = config(true);
    assert_eq!(dispatch_command(RunState::Streaming, &Command::Exit, &mut cfg), RunState::Terminated);
}

#[test]
fn supervisor_retries_once_after_cooldown() {
    // A single simulated device-open failure: exactly one retry, after
    // the fixed cooldown, and the process keeps going.
    let mut supervisor = Supervisor::new(Some(1));
    assert_eq!(
        supervisor.on_run_end(),
        SupervisorDecision::RetryAfterCooldown(RETRY_COOLDOWN_SECS)
    );
    assert_eq!(supervisor.retries, 1);
    assert_eq!(supervisor.on_run_end(), SupervisorDecision::Halt);
    assert_eq!(supervisor.retries, 1);
}

#[test]
fn unbounded_supervisor_always_retries() {
    let mut supervisor = Supervisor::new(None);
    for expected in 1..4u64 {
        assert_eq!(
            supervisor.on_run_end(),
            SupervisorDecision::RetryAfterCooldown(RETRY_COOLDOWN_SECS)
        );
        assert_eq!(supervisor.retries, expected);
    }
}

#[test]
fn chunk_with_gain_update_reconfigures() {
    let cfg = config(true);
    let mut acq = AcquisitionState {
        gain_control: GainControl::new(&cfg.hackrf_config),
        config: cfg,
        last_overflow: 0,
    };
    let (dropped, outcome) = handle_chunk(&mut acq, 4096, 3, &[pulse_with_strength(950)]);
    assert!(dropped);
    assert_eq!(acq.last_overflow, 3);
    assert_eq!(outcome, ChunkOutcome::Reconfigure);
    // 16 + 4 = 20 total, cut by 4: the pending configuration now carries 16.
    assert_eq!(acq.config.hackrf_config.lna_gain, 16);
    assert_eq!(acq.config.hackrf_config.vga_gain, 0);
}

#[test]
fn chunk_without_auto_gain_only_resyncs_overflow() {
    let cfg = config(false);
    let mut acq = AcquisitionState {
        gain_control: GainControl::new(&cfg.hackrf_config),
        config: cfg.clone(),
        last_overflow: 5,
    };
    let (dropped, outcome) = handle_chunk(&mut acq, 4096, 5, &[pulse_with_strength(999)]);
    assert!(!dropped);
    assert_eq!(outcome, ChunkOutcome::Continue);
    assert_eq!(acq.config, cfg);
}

#[test]
fn setup_plan_orders_device_settings() {
    let mut h = config(true).hackrf_config;
    assert_eq!(
        device_setup_plan(&h),
        vec![
            DeviceOp::SetSampRate(1_000_000),
            DeviceOp::SetFreq(150_000_000),
            DeviceOp::SetLnaGain(16),
            DeviceOp::SetVgaGain(4),
            DeviceOp::SetAmpEnable(false),
            DeviceOp::SetAntennaEnable(true),
        ]
    );
    h.baseband_filter = Some(1_750_000);
    assert_eq!(device_setup_plan(&h).last(), Some(&DeviceOp::SetBasebandFilter(1_750_000)));
}

#[test]
fn task_channels_carry_values_both_ways() {
    let (task, handle) = init_task::<Pulse, Command>();
    let p = pulse_with_strength(700);
    task.data_sender.send(p).unwrap();
    assert_eq!(handle.data_receiver.recv().unwrap(), p);
    handle.command_sender.send(Command::Stop).unwrap();
    assert_eq!(task.command_receiver.recv().unwrap(), Command::Stop);
}

#[test]
fn pulse_store_returns_suffix_since_index() {
    let mut handle = PulseHandle::new();
    let telemetry = Telemetry {
        x_mm: 1000,
        y_mm: -2000,
        z_mm: 30_000,
        vx_mm_s: 10,
        vy_mm_s: 0,
        vz_mm_s: -5,
        heading_cdeg: 9000,
    };
    for freq in [1u64, 2, 3] {
        handle.push_pulse(PulseWithTelemetry {
            telemetry,
            pulse: Pulse { freq_hz: freq, signal_strength_milli: 1, gain: 0, timestamp_ms: 0 },
        });
    }
    let since_one = get_pulses_since(&handle, 1);
    assert_eq!(since_one.len(), 2);
    assert_eq!(since_one[0].pulse.freq_hz, 2);
    assert_eq!(since_one[1].pulse.freq_hz, 3);
    assert_eq!(get_pulses_since(&handle, 3), Vec::new());
    assert_eq!(get_pulses_since(&handle, 0).len(), 3);
}
