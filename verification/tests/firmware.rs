use mpu6050_validation::bus::I2cBus;
use mpu6050_validation::config::{Address, Identity};
use mpu6050_validation::device::Mpu6050;
use mpu6050_validation::probe::{probe_imu_driver, probe_level, ProbeResult, VerificationLevel};
use mpu6050_validation::raw::{RawAccelGyroTemp, RawReadOutcome, RawSampleSuspicion};
use mpu6050_validation::registers;
use mpu6050_validation::startup::{configure_data_ready_startup, configure_sample_timing};
use mpu6050_validation::telemetry::{
    account_read, emitted_sample, IntegrityNote, IntegrityOutcome, RawIntegrityStats,
};
use mpu6050_validation::text::decimal_string;
use std::collections::VecDeque;

#[derive(Clone, Copy, Debug, PartialEq, Eq)]
struct BusFault;

/// A register file behind a fake bus; reads of listed registers fail.
struct Registers {
    values: [u8; 128],
    failing: Vec<u8>,
    log: VecDeque<(bool, u8)>,
}

impl Registers {
    fn new() -> Self {
        Self {
            values: [0; 128],
            failing: Vec::new(),
            log: VecDeque::new(),
        }
    }
}

impl I2cBus for Registers {
    type Error = BusFault;

    fn write(&mut self, _address: u8, bytes: &[u8]) -> Result<(), BusFault> {
        self.log.push_back((true, bytes[0]));
        if self.failing.contains(&bytes[0]) {
            return Err(BusFault);
        }
        self.values[bytes[0] as usize] = bytes[1];
        Ok(())
    }

    fn write_read(&mut self, _address: u8, bytes: &[u8], buffer: &mut [u8]) -> Result<(), BusFault> {
        self.log.push_back((false, bytes[0]));
        if self.failing.contains(&bytes[0]) {
            return Err(BusFault);
        }
        for (i, b) in buffer.iter_mut().enumerate() {
            *b = self.values[bytes[0] as usize + i];
        }
        Ok(())
    }
}

#[test]
fn device_runs_the_data_ready_bring_up_through_its_registers() {
    let mut regs = Registers::new();
    regs.values[registers::INT_ENABLE as usize] = 0x10;
    let mut mpu = Mpu6050::new(regs, Address::Ad0Low);
    let conditions = configure_data_ready_startup(&mut mpu);
    assert!(conditions.stale_status_cleared);
    assert!(conditions.enable_success);
    // The FIFO-overflow bit survives the read-modify-write, so the readback
    // is not exactly data-ready.
    assert!(!conditions.exact_data_ready_readback);
    let regs = mpu.release();
    assert_eq!(regs.values[registers::INT_ENABLE as usize], 0x11);
}

#[test]
fn device_confirms_target_timing() {
    let mut mpu = Mpu6050::new(Registers::new(), Address::Ad0Low);
    let timing = configure_sample_timing(&mut mpu).unwrap();
    assert_eq!(timing.rate_hz, 200);
    let regs = mpu.release();
    assert_eq!(regs.values[registers::CONFIG as usize], 2);
    assert_eq!(regs.values[registers::SMPLRT_DIV as usize], 4);
}

#[test]
fn probe_reports_identity_and_raw_block() {
    let mut regs = Registers::new();
    regs.values[registers::WHO_AM_I as usize] = 0x68;
    let mut mpu = Mpu6050::new(regs, Address::Ad0High);
    let probe = probe_imu_driver(&mut mpu, 0x69);
    assert_eq!(
        probe,
        ProbeResult {
            address: 0x69,
            who_am_i: Some(0x68),
            identity: Some(Identity::Mpu6050),
            pwr_mgmt_1: None,
            raw_block_readable: true,
        }
    );
    assert!(probe.has_communication_evidence());
    let evidence = probe.evidence();
    assert_eq!(evidence.score(), 1 + 2 + 4 + 3);
    assert_eq!(probe_level(evidence), VerificationLevel::RegisterCompatible);
    assert_eq!(mpu.release().log.len(), 3);

    let mut silent = Registers::new();
    silent.failing = vec![registers::WHO_AM_I, registers::ACCEL_XOUT_H];
    let mut mpu = Mpu6050::new(silent, Address::Ad0Low);
    let probe = probe_imu_driver(&mut mpu, 0x68);
    assert!(!probe.has_communication_evidence());
    assert_eq!(probe_level(probe.evidence()), VerificationLevel::MarkingOnly);
    assert_eq!(VerificationLevel::from_score(3).as_str(), "I2cResponsiveCompatibleDevice");
    assert_eq!(mpu.release().log.len(), 2);
}

#[test]
fn integrity_counters_follow_read_outcomes() {
    let raw = RawAccelGyroTemp::new([1, 2, 3], 4, [5, 6, 7]);
    let mut stats = RawIntegrityStats::default();
    let outcomes: Vec<Result<RawReadOutcome<BusFault>, BusFault>> = vec![
        Ok(RawReadOutcome::Clean { raw }),
        Ok(RawReadOutcome::Recovered {
            raw,
            first_suspicion: RawSampleSuspicion::AccelSentinel,
            retries: 1,
        }),
        Ok(RawReadOutcome::RejectedSuspicious {
            raw,
            suspicion: RawSampleSuspicion::GyroAllMinusOne,
            retries: 1,
        }),
        Err(BusFault),
    ];
    for outcome in &outcomes {
        stats.record(outcome);
    }
    assert_eq!(stats.total_reads, 4);
    assert_eq!(stats.clean, 1);
    assert_eq!(stats.suspicious_first, 2);
    assert_eq!(stats.recovered_by_retry, 1);
    assert_eq!(stats.rejected_suspicious, 1);
    assert_eq!(emitted_sample(&outcomes[1]), Some(raw));
    assert_eq!(emitted_sample(&outcomes[2]), None);
    let mut wrapping = RawIntegrityStats {
        total_reads: u64::MAX,
        ..RawIntegrityStats::default()
    };
    wrapping.record(&outcomes[3]);
    assert_eq!(wrapping.total_reads, 0);
}

#[test]
fn decimal_strings_have_no_leading_zeros() {
    assert_eq!(decimal_string(0), "0");
    assert_eq!(decimal_string(10), "10");
    assert_eq!(decimal_string(u64::MAX), "18446744073709551615");
}

#[test]
fn each_read_outcome_moves_the_sample_number_and_names_its_event() {
    let raw = RawAccelGyroTemp::new([1, 2, 3], 4, [5, 6, 7]);
    let s = RawSampleSuspicion::GyroAllMinusOne;
    let cases: Vec<(Result<RawReadOutcome<BusFault>, BusFault>, u64, Option<IntegrityOutcome>)> = vec![
        (Ok(RawReadOutcome::Clean { raw }), 11, None),
        (Ok(RawReadOutcome::Recovered { raw, first_suspicion: s, retries: 1 }), 11, Some(IntegrityOutcome::Recovered)),
        (Ok(RawReadOutcome::RejectedSuspicious { raw, suspicion: s, retries: 1 }), 10, Some(IntegrityOutcome::Rejected)),
        (
            Ok(RawReadOutcome::RetryError { first_raw: raw, first_suspicion: s, retries: 1, error: BusFault }),
            10,
            Some(IntegrityOutcome::RetryError),
        ),
        (Ok(RawReadOutcome::AcceptedSuspicious { raw, suspicion: s, retries: 2 }), 11, Some(IntegrityOutcome::Accepted)),
        (Err(BusFault), 10, None),
    ];
    for (outcome, next, event) in &cases {
        let mut stats = RawIntegrityStats::default();
        let mut sequence = 10u64;
        let note = account_read(&mut stats, &mut sequence, outcome);
        assert_eq!(sequence, *next);
        assert_eq!(note.map(|n| n.outcome), *event);
        assert_eq!(stats.total_reads, 1);
    }
    let note: Option<IntegrityNote> = account_read(
        &mut RawIntegrityStats::default(),
        &mut 0,
        &cases[4].0,
    );
    assert_eq!(note, Some(IntegrityNote { outcome: IntegrityOutcome::Accepted, retries: 2, suspicion: s }));
    assert_eq!(IntegrityOutcome::RetryError.as_str(), "retry_error");
    assert_eq!(IntegrityOutcome::Recovered.as_str(), "recovered");
    let mut wrap = u64::MAX;
    account_read(&mut RawIntegrityStats::default(), &mut wrap, &cases[0].0);
    assert_eq!(wrap, 0);
}
