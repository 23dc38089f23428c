use mpu6050_validation::bringup::{
    average_raw, reset_wake_configure, validate_int_status, validate_scale_registers, DelayMs,
    RawAverage, ScaleRangeWrite,
};
use mpu6050_validation::bus::I2cBus;
use mpu6050_validation::config::{Address, Dlpf};
use mpu6050_validation::device::Mpu6050;
use mpu6050_validation::raw::RawReadOutcome;
use mpu6050_validation::registers;
use mpu6050_validation::startup::{SampleTimingError, VerifiedSampleTiming};
use mpu6050_validation::telemetry::{read_motion_sample_retry_once, RawIntegrityStats};
use std::cell::RefCell;
use std::collections::VecDeque;

#[derive(Clone, Copy, Debug, Eq, PartialEq)]
enum FakeError {
    Nack,
}

enum Step {
    Read(u8, Result<Vec<u8>, FakeError>),
    Write(u8, u8, Result<(), FakeError>),
}

struct ScriptedBus {
    steps: VecDeque<Step>,
}

impl ScriptedBus {
    fn new(steps: Vec<Step>) -> Self {
        Self { steps: steps.into() }
    }
}

impl I2cBus for ScriptedBus {
    type Error = FakeError;

    fn write(&mut self, address: u8, bytes: &[u8]) -> Result<(), FakeError> {
        assert_eq!(address, 0x68);
        match self.steps.pop_front().expect("unexpected write") {
            Step::Write(register, value, result) => {
                assert_eq!(bytes, &[register, value]);
                result
            }
            Step::Read(register, _) => panic!("expected a read of 0x{register:02x}"),
        }
    }

    fn write_read(&mut self, address: u8, bytes: &[u8], buffer: &mut [u8]) -> Result<(), FakeError> {
        assert_eq!(address, 0x68);
        match self.steps.pop_front().expect("unexpected read") {
            Step::Read(register, result) => {
                assert_eq!(bytes, &[register]);
                let data = result?;
                assert_eq!(buffer.len(), data.len());
                buffer.copy_from_slice(&data);
                Ok(())
            }
            Step::Write(register, ..) => panic!("expected a write of 0x{register:02x}"),
        }
    }
}

struct RecordingDelay {
    waits: RefCell<Vec<u32>>,
}

impl RecordingDelay {
    fn new() -> Self {
        Self {
            waits: RefCell::new(Vec::new()),
        }
    }
}

impl DelayMs for RecordingDelay {
    fn delay_millis(&self, ms: u32) {
        self.waits.borrow_mut().push(ms);
    }
}

fn read1(register: u8, value: u8) -> Step {
    Step::Read(register, Ok(vec![value]))
}

fn write(register: u8, value: u8) -> Step {
    Step::Write(register, value, Ok(()))
}

fn prefix(int_enable: u8) -> Vec<Step> {
    vec![
        write(registers::PWR_MGMT_1, 0x80),
        write(registers::PWR_MGMT_1, 0x00),
        write(registers::INT_ENABLE, 0x00),
        read1(registers::INT_ENABLE, int_enable),
    ]
}

fn block(accel: [i16; 3], temp: i16, gyro: [i16; 3]) -> Vec<u8> {
    let mut bytes = Vec::new();
    for v in accel.iter().chain([temp].iter()).chain(gyro.iter()) {
        bytes.extend_from_slice(&v.to_be_bytes());
    }
    bytes
}

#[test]
fn reset_wake_configure_sets_timing_and_default_ranges() {
    let mut steps = prefix(0x00);
    steps.extend([
        read1(registers::CONFIG, 0x40),
        write(registers::CONFIG, 0x42),
        read1(registers::CONFIG, 0x42),
        write(registers::SMPLRT_DIV, 4),
        read1(registers::SMPLRT_DIV, 4),
        read1(registers::ACCEL_CONFIG, 0x18),
        write(registers::ACCEL_CONFIG, 0x00),
        read1(registers::GYRO_CONFIG, 0x1f),
        write(registers::GYRO_CONFIG, 0x07),
    ]);
    let delay = RecordingDelay::new();
    let mut mpu = Mpu6050::new(ScriptedBus::new(steps), Address::Ad0Low);
    let report = reset_wake_configure(&mut mpu, &delay);
    assert!(mpu.release().steps.is_empty());
    assert_eq!(*delay.waits.borrow(), vec![100, 20]);
    assert!(report.check.configuration_prerequisites_confirmed());
    assert_eq!(
        report.timing,
        Some(Ok(VerifiedSampleTiming {
            dlpf: Dlpf::Cfg2,
            divider: 4,
            rate_hz: 200
        }))
    );
    assert!(report.timing_registers_confirmed());
    assert!(report.accel_cfg_ok && report.gyro_cfg_ok);
    let stages = report.timing_stages();
    assert!(stages.dlpf_write_attempted && stages.dlpf_match && stages.divider_match);
    assert_eq!(report.failure_stage(), "none");
    assert_eq!(report.dlpf(), Some(Dlpf::Cfg2));
    assert_eq!(report.divider(), Some(4));
}

#[test]
fn reset_wake_configure_stops_when_a_source_is_still_enabled() {
    let mut mpu = Mpu6050::new(ScriptedBus::new(prefix(0x01)), Address::Ad0Low);
    let report = reset_wake_configure(&mut mpu, &RecordingDelay::new());
    assert!(mpu.release().steps.is_empty());
    assert!(report.check.int_readback_ok());
    assert!(report.check.int_data_ready());
    assert!(!report.check.int_fifo_overflow());
    assert!(!report.check.interrupt_enable_confirmed_zero());
    assert_eq!(report.timing, None);
    assert!(!report.accel_cfg_ok && !report.gyro_cfg_ok);
    assert!(!report.timing_stages().dlpf_write_attempted);
    assert_eq!(report.failure_stage(), "dlpf_write_not_attempted");
}

#[test]
fn reset_wake_configure_keeps_going_after_a_failed_reset_but_configures_nothing() {
    let steps = vec![
        Step::Write(registers::PWR_MGMT_1, 0x80, Err(FakeError::Nack)),
        write(registers::PWR_MGMT_1, 0x00),
        write(registers::INT_ENABLE, 0x00),
        read1(registers::INT_ENABLE, 0x00),
    ];
    let mut mpu = Mpu6050::new(ScriptedBus::new(steps), Address::Ad0Low);
    let report = reset_wake_configure(&mut mpu, &RecordingDelay::new());
    assert!(mpu.release().steps.is_empty());
    assert!(!report.check.reset_ok && report.check.wake_ok);
    assert!(report.check.interrupt_enable_confirmed_zero());
    assert!(!report.check.configuration_prerequisites_confirmed());
    assert_eq!(report.timing, None);
}

#[test]
fn reset_wake_configure_reports_the_divider_mismatch_stage() {
    let mut steps = prefix(0x00);
    steps.extend([
        read1(registers::CONFIG, 0x00),
        write(registers::CONFIG, 0x02),
        read1(registers::CONFIG, 0x02),
        write(registers::SMPLRT_DIV, 4),
        read1(registers::SMPLRT_DIV, 9),
    ]);
    let mut mpu = Mpu6050::new(ScriptedBus::new(steps), Address::Ad0Low);
    let report = reset_wake_configure(&mut mpu, &RecordingDelay::new());
    assert!(mpu.release().steps.is_empty());
    match report.timing {
        Some(Err(failure)) => {
            assert_eq!(failure.error, SampleTimingError::DividerMismatch);
            assert_eq!(failure.dlpf, Some(Dlpf::Cfg2));
            assert_eq!(failure.divider, Some(9));
        }
        other => panic!("unexpected timing {other:?}"),
    }
    let stages = report.timing_stages();
    assert!(stages.divider_read_ok);
    assert!(!stages.divider_match);
    assert_eq!(report.failure_stage(), "divider_readback_mismatch");
    assert!(!report.accel_cfg_ok && !report.gyro_cfg_ok);
    assert_eq!(report.divider(), Some(9));
}

#[test]
fn int_status_check_enables_reads_status_and_disables_again() {
    let steps = vec![
        write(registers::INT_ENABLE, 0x00),
        read1(registers::INT_ENABLE, 0x00),
        read1(registers::INT_ENABLE, 0x00),
        write(registers::INT_ENABLE, 0x01),
        read1(registers::INT_STATUS, 0x11),
        write(registers::INT_ENABLE, 0x00),
        read1(registers::INT_ENABLE, 0x00),
    ];
    let delay = RecordingDelay::new();
    let mut mpu = Mpu6050::new(ScriptedBus::new(steps), Address::Ad0Low);
    let check = validate_int_status(&mut mpu, &delay);
    assert!(mpu.release().steps.is_empty());
    assert_eq!(*delay.waits.borrow(), vec![10]);
    assert!(check.pre_confirmed_zero());
    assert!(check.enable_ok);
    let status = check.status.expect("status read");
    assert!(status.data_ready() && status.fifo_overflow());
    assert!(check.final_confirmed_zero());
}

#[test]
fn int_status_check_does_not_enable_when_a_source_survived() {
    let steps = vec![
        write(registers::INT_ENABLE, 0x00),
        read1(registers::INT_ENABLE, 0x10),
        write(registers::INT_ENABLE, 0x00),
        read1(registers::INT_ENABLE, 0x10),
    ];
    let mut mpu = Mpu6050::new(ScriptedBus::new(steps), Address::Ad0Low);
    let check = validate_int_status(&mut mpu, &RecordingDelay::new());
    assert!(mpu.release().steps.is_empty());
    assert!(!check.pre_confirmed_zero());
    assert!(!check.enable_ok);
    assert_eq!(check.status, None);
    assert!(!check.final_confirmed_zero());
}

#[test]
fn int_status_check_skips_the_status_read_when_enabling_fails() {
    let steps = vec![
        write(registers::INT_ENABLE, 0x00),
        read1(registers::INT_ENABLE, 0x00),
        Step::Read(registers::INT_ENABLE, Err(FakeError::Nack)),
        write(registers::INT_ENABLE, 0x00),
        Step::Read(registers::INT_ENABLE, Err(FakeError::Nack)),
    ];
    let mut mpu = Mpu6050::new(ScriptedBus::new(steps), Address::Ad0Low);
    let check = validate_int_status(&mut mpu, &RecordingDelay::new());
    assert!(mpu.release().steps.is_empty());
    assert!(check.pre_confirmed_zero());
    assert!(!check.enable_ok);
    assert_eq!(check.status, None);
    assert_eq!(check.final_enable, None);
    assert!(!check.final_confirmed_zero());
}

#[test]
fn average_raw_rounds_each_axis_toward_zero() {
    let steps = vec![
        Step::Read(
            registers::ACCEL_XOUT_H,
            Ok(block([-3, 5, 16384], 100, [7, -8, 0])),
        ),
        Step::Read(
            registers::ACCEL_XOUT_H,
            Ok(block([0, 0, 16385], 100, [0, 1, -1])),
        ),
    ];
    let delay = RecordingDelay::new();
    let mut mpu = Mpu6050::new(ScriptedBus::new(steps), Address::Ad0Low);
    let average = average_raw(&mut mpu, &delay, 2);
    assert!(mpu.release().steps.is_empty());
    assert_eq!(*delay.waits.borrow(), vec![10, 10]);
    assert_eq!(
        average,
        Some(RawAverage {
            ax: -1,
            ay: 2,
            az: 16384,
            gx: 3,
            gy: -3,
            gz: 0
        })
    );
}

#[test]
fn average_raw_stops_at_the_first_failed_read() {
    let steps = vec![
        Step::Read(registers::ACCEL_XOUT_H, Ok(block([1, 2, 3], 4, [5, 6, 7]))),
        Step::Read(registers::ACCEL_XOUT_H, Err(FakeError::Nack)),
    ];
    let mut mpu = Mpu6050::new(ScriptedBus::new(steps), Address::Ad0Low);
    assert_eq!(average_raw(&mut mpu, &RecordingDelay::new(), 8), None);
    assert!(mpu.release().steps.is_empty());
}

#[test]
fn motion_read_rejects_a_sample_that_stays_suspicious_and_counts_it() {
    let suspicious = block([-1, -1, -1], 200, [1, 2, 3]);
    let steps = vec![
        Step::Read(registers::ACCEL_XOUT_H, Ok(suspicious.clone())),
        Step::Read(registers::ACCEL_XOUT_H, Ok(suspicious)),
    ];
    let mut mpu = Mpu6050::new(ScriptedBus::new(steps), Address::Ad0Low);
    let mut stats = RawIntegrityStats::default();
    let mut sequence = 7u64;
    let read = read_motion_sample_retry_once(&mut mpu, 0x68, &mut sequence, &mut stats);
    assert!(mpu.release().steps.is_empty());
    assert!(matches!(
        read.outcome,
        Ok(RawReadOutcome::RejectedSuspicious { retries: 1, .. })
    ));
    assert_eq!(sequence, 7);
    assert_eq!(read.sequence, 7);
    assert_eq!(
        read.event_line.as_deref(),
        Some("raw_integrity_event seq=7 outcome=rejected reason=AccelAllMinusOne retries=1")
    );
    assert_eq!(
        read.notice.as_deref(),
        Some(
            "RAW 0x68: suspicious sample retry_suspicious_skipped: accel=(-1, -1, -1) temp_raw=200 gyro=(1, 2, 3) sequence=7"
        )
    );
    assert_eq!(
        stats,
        RawIntegrityStats {
            total_reads: 1,
            clean: 0,
            suspicious_first: 1,
            recovered_by_retry: 0,
            rejected_suspicious: 1,
            accepted_suspicious: 0,
            retry_error: 0
        }
    );
}

#[test]
fn motion_read_reports_a_sample_recovered_by_the_retry() {
    let steps = vec![
        Step::Read(registers::ACCEL_XOUT_H, Ok(block([-1, -1, -1], 200, [1, 2, 3]))),
        Step::Read(registers::ACCEL_XOUT_H, Ok(block([10, 20, 30], 200, [1, 2, 3]))),
    ];
    let mut mpu = Mpu6050::new(ScriptedBus::new(steps), Address::Ad0Low);
    let mut stats = RawIntegrityStats::default();
    let mut sequence = 7u64;
    let read = read_motion_sample_retry_once(&mut mpu, 0x68, &mut sequence, &mut stats);
    assert!(mpu.release().steps.is_empty());
    assert!(matches!(read.outcome, Ok(RawReadOutcome::Recovered { retries: 1, .. })));
    assert_eq!(sequence, 8);
    assert_eq!(
        read.notice.as_deref(),
        Some("RAW 0x68: suspicious sample recovered by retry sequence=7")
    );
    assert_eq!(stats.recovered_by_retry, 1);
}

#[test]
fn motion_read_passes_a_clean_sample_on_first_read() {
    let steps = vec![Step::Read(
        registers::ACCEL_XOUT_H,
        Ok(block([10, -20, 16384], 300, [1, -2, 3])),
    )];
    let mut mpu = Mpu6050::new(ScriptedBus::new(steps), Address::Ad0Low);
    let mut stats = RawIntegrityStats::default();
    let mut sequence = u64::MAX;
    let read = read_motion_sample_retry_once(&mut mpu, 0x68, &mut sequence, &mut stats);
    assert!(mpu.release().steps.is_empty());
    assert_eq!(sequence, 0);
    assert_eq!(read.sequence, u64::MAX);
    assert_eq!(read.event_line, None);
    assert_eq!(read.notice, None);
    match read.outcome {
        Ok(RawReadOutcome::Clean { raw }) => {
            assert_eq!(raw.accel, [10, -20, 16384]);
            assert_eq!(raw.gyro, [1, -2, 3]);
        }
        other => panic!("unexpected outcome {other:?}"),
    }
    assert_eq!(stats.total_reads, 1);
    assert_eq!(stats.clean, 1);
    assert_eq!(stats.suspicious_first, 0);
}

#[test]
fn scale_check_writes_every_setting_then_restores_the_defaults() {
    let mut steps = Vec::new();
    for setting in 0..4u8 {
        if setting == 2 {
            steps.push(Step::Read(registers::ACCEL_CONFIG, Err(FakeError::Nack)));
        } else {
            steps.push(read1(registers::ACCEL_CONFIG, 0xe0));
            steps.push(write(registers::ACCEL_CONFIG, 0xe0 | (setting << 3)));
        }
        steps.push(read1(registers::GYRO_CONFIG, 0x00));
        steps.push(Step::Write(
            registers::GYRO_CONFIG,
            setting << 3,
            if setting == 3 { Err(FakeError::Nack) } else { Ok(()) },
        ));
    }
    steps.push(read1(registers::ACCEL_CONFIG, 0xf8));
    steps.push(write(registers::ACCEL_CONFIG, 0xe0));
    steps.push(read1(registers::GYRO_CONFIG, 0x18));
    steps.push(write(registers::GYRO_CONFIG, 0x00));
    let mut mpu = Mpu6050::new(ScriptedBus::new(steps), Address::Ad0Low);
    let writes = validate_scale_registers(&mut mpu);
    assert!(mpu.release().steps.is_empty());
    assert_eq!(
        writes,
        vec![
            ScaleRangeWrite { setting: 0, accel_write: true, gyro_write: true },
            ScaleRangeWrite { setting: 1, accel_write: true, gyro_write: true },
            ScaleRangeWrite { setting: 2, accel_write: false, gyro_write: true },
            ScaleRangeWrite { setting: 3, accel_write: true, gyro_write: false },
        ]
    );
}
