use mpu6050_validation::bus::I2cBus;
use mpu6050_validation::config::Address;
use mpu6050_validation::device::Mpu6050;
use mpu6050_validation::raw::{RawAccelGyroTemp, RawReadOutcome, RawRetryPolicy, RawSampleSuspicion};
use mpu6050_validation::registers;
use std::collections::VecDeque;

const CLEAN_RAW: RawAccelGyroTemp = RawAccelGyroTemp { accel: [1, 2, 3], temp: 4, gyro: [5, 6, 7] };
const SUSPICIOUS_RAW: RawAccelGyroTemp =
    RawAccelGyroTemp { accel: [i16::MAX, 2, 3], temp: 4, gyro: [5, 6, 7] };
const SUSPICIOUS_RETRY_RAW: RawAccelGyroTemp =
    RawAccelGyroTemp { accel: [1, 2, 3], temp: 4, gyro: [-1, -1, -1] };
const OBSERVED_POWER_OF_TWO_MINUS_ONE_RAW: RawAccelGyroTemp =
    RawAccelGyroTemp { accel: [1, 2, 3], temp: 4, gyro: [16_383, -1, -1] };
const OBSERVED_PARTIAL_MINUS_ONE_RAW: RawAccelGyroTemp =
    RawAccelGyroTemp { accel: [1, 2, 3], temp: 4, gyro: [704, 8_191, -1] };

#[derive(Clone, Copy, Debug, Eq, PartialEq)]
enum FakeError {
    Bus,
}

enum FakeResponse {
    Raw(RawAccelGyroTemp),
    Error(FakeError),
}

struct FakeI2c {
    responses: VecDeque<FakeResponse>,
    write_read_count: usize,
}

impl FakeI2c {
    fn new(responses: Vec<FakeResponse>) -> Self {
        Self {
            responses: responses.into(),
            write_read_count: 0,
        }
    }
}

impl I2cBus for FakeI2c {
    type Error = FakeError;

    fn write(&mut self, _address: u8, _bytes: &[u8]) -> Result<(), FakeError> {
        Ok(())
    }

    fn write_read(&mut self, _address: u8, bytes: &[u8], buffer: &mut [u8]) -> Result<(), FakeError> {
        assert_eq!(bytes, &[registers::ACCEL_XOUT_H]);
        assert_eq!(buffer.len(), 14);
        self.write_read_count += 1;
        match self.responses.pop_front().expect("missing fake response") {
            FakeResponse::Raw(raw) => {
                let values = [
                    raw.accel[0],
                    raw.accel[1],
                    raw.accel[2],
                    raw.temp,
                    raw.gyro[0],
                    raw.gyro[1],
                    raw.gyro[2],
                ];
                for (chunk, value) in buffer.chunks_exact_mut(2).zip(values) {
                    chunk.copy_from_slice(&value.to_be_bytes());
                }
                Ok(())
            }
            FakeResponse::Error(error) => Err(error),
        }
    }
}

#[test]
fn regression_raw_sample_flags_gyro_all_minus_one_as_suspicious() {
    let raw = RawAccelGyroTemp::new([1, 2, 3], 25, [-1, -1, -1]);
    assert!(raw.is_suspicious());
}

#[test]
fn regression_raw_sample_flags_observed_gyro_power_of_two_minus_one_as_suspicious() {
    let raw = RawAccelGyroTemp::new([-6428, -10508, -9212], 4096, [16_383, -1, -1]);
    assert!(raw.is_suspicious());
    assert_eq!(
        RawSampleSuspicion::classify(raw),
        Some(RawSampleSuspicion::GyroPowerOfTwoMinusOne)
    );
}

#[test]
fn regression_raw_sample_flags_observed_partial_minus_one_gyro_as_suspicious() {
    let raw = RawAccelGyroTemp::new([-6368, -10576, -9228], 4144, [704, 8191, -1]);
    assert!(raw.is_suspicious());
    assert_eq!(
        RawSampleSuspicion::classify(raw),
        Some(RawSampleSuspicion::GyroPowerOfTwoMinusOne)
    );
}

#[test]
fn regression_raw_sample_flags_partial_minus_one_gyro_without_power_sentinel() {
    let raw = RawAccelGyroTemp::new([1, 2, 3], 4, [700, -1, -320]);
    assert!(raw.is_suspicious());
    assert_eq!(
        RawSampleSuspicion::classify(raw),
        Some(RawSampleSuspicion::GyroPartialMinusOne)
    );
}

#[test]
fn regression_raw_sample_flags_i16_sentinels_as_suspicious() {
    let raw = RawAccelGyroTemp::new([i16::MAX, 2, 3], 25, [4, i16::MIN, 6]);
    assert!(raw.is_suspicious());
}

#[test]
fn regression_raw_sample_accepts_nominal_values() {
    let raw = RawAccelGyroTemp::new([-6500, -9900, -9600], 3700, [720, 190, -320]);
    assert!(!raw.is_suspicious());
}

#[test]
fn primitive_read_performs_one_transaction() {
    let fake = FakeI2c::new(vec![FakeResponse::Raw(CLEAN_RAW)]);
    let mut mpu = Mpu6050::new(fake, Address::Ad0Low);
    assert_eq!(mpu.read_raw_accel_gyro_temp(), Ok(CLEAN_RAW));
    assert_eq!(mpu.release().write_read_count, 1);
}

#[test]
fn clean_checked_read_performs_one_transaction_and_returns_clean() {
    let fake = FakeI2c::new(vec![FakeResponse::Raw(CLEAN_RAW)]);
    let mut mpu = Mpu6050::new(fake, Address::Ad0Low);
    assert_eq!(
        mpu.read_raw_checked(),
        Ok(RawReadOutcome::Clean { raw: CLEAN_RAW })
    );
    assert_eq!(mpu.release().write_read_count, 1);
}

#[test]
fn suspicious_checked_read_with_zero_retries_rejects_after_one_transaction() {
    let fake = FakeI2c::new(vec![FakeResponse::Raw(SUSPICIOUS_RAW)]);
    let mut mpu = Mpu6050::new(fake, Address::Ad0Low);
    assert_eq!(
        mpu.read_raw_checked(),
        Ok(RawReadOutcome::RejectedSuspicious {
            raw: SUSPICIOUS_RAW,
            suspicion: RawSampleSuspicion::AccelSentinel,
            retries: 0,
        })
    );
    assert_eq!(mpu.release().write_read_count, 1);
}

#[test]
fn suspicious_then_clean_returns_recovered_after_two_transactions() {
    let fake = FakeI2c::new(vec![
        FakeResponse::Raw(SUSPICIOUS_RAW),
        FakeResponse::Raw(CLEAN_RAW),
    ]);
    let mut mpu = Mpu6050::new(fake, Address::Ad0Low);
    assert_eq!(
        mpu.read_raw_with_retry(RawRetryPolicy::reject_after_retries(1)),
        Ok(RawReadOutcome::Recovered {
            raw: CLEAN_RAW,
            first_suspicion: RawSampleSuspicion::AccelSentinel,
            retries: 1,
        })
    );
    assert_eq!(mpu.release().write_read_count, 2);
}

#[test]
fn observed_power_sentinel_then_clean_returns_recovered_after_two_transactions() {
    let fake = FakeI2c::new(vec![
        FakeResponse::Raw(OBSERVED_POWER_OF_TWO_MINUS_ONE_RAW),
        FakeResponse::Raw(CLEAN_RAW),
    ]);
    let mut mpu = Mpu6050::new(fake, Address::Ad0Low);
    assert_eq!(
        mpu.read_raw_with_retry(RawRetryPolicy::reject_after_retries(1)),
        Ok(RawReadOutcome::Recovered {
            raw: CLEAN_RAW,
            first_suspicion: RawSampleSuspicion::GyroPowerOfTwoMinusOne,
            retries: 1,
        })
    );
    assert_eq!(mpu.release().write_read_count, 2);
}

#[test]
fn suspicious_then_suspicious_returns_rejected_suspicious() {
    let fake = FakeI2c::new(vec![
        FakeResponse::Raw(SUSPICIOUS_RAW),
        FakeResponse::Raw(SUSPICIOUS_RETRY_RAW),
    ]);
    let mut mpu = Mpu6050::new(fake, Address::Ad0Low);
    assert_eq!(
        mpu.read_raw_with_retry(RawRetryPolicy::reject_after_retries(1)),
        Ok(RawReadOutcome::RejectedSuspicious {
            raw: SUSPICIOUS_RETRY_RAW,
            suspicion: RawSampleSuspicion::GyroAllMinusOne,
            retries: 1,
        })
    );
}

#[test]
fn observed_outlier_then_outlier_returns_rejected_suspicious() {
    let fake = FakeI2c::new(vec![
        FakeResponse::Raw(OBSERVED_POWER_OF_TWO_MINUS_ONE_RAW),
        FakeResponse::Raw(OBSERVED_PARTIAL_MINUS_ONE_RAW),
    ]);
    let mut mpu = Mpu6050::new(fake, Address::Ad0Low);
    assert_eq!(
        mpu.read_raw_with_retry(RawRetryPolicy::reject_after_retries(1)),
        Ok(RawReadOutcome::RejectedSuspicious {
            raw: OBSERVED_PARTIAL_MINUS_ONE_RAW,
            suspicion: RawSampleSuspicion::GyroPowerOfTwoMinusOne,
            retries: 1,
        })
    );
}

#[test]
fn suspicious_then_bus_error_returns_retry_error_preserving_first_raw_and_suspicion() {
    let fake = FakeI2c::new(vec![
        FakeResponse::Raw(SUSPICIOUS_RAW),
        FakeResponse::Error(FakeError::Bus),
    ]);
    let mut mpu = Mpu6050::new(fake, Address::Ad0Low);
    assert_eq!(
        mpu.read_raw_with_retry(RawRetryPolicy::reject_after_retries(1)),
        Ok(RawReadOutcome::RetryError {
            first_raw: SUSPICIOUS_RAW,
            first_suspicion: RawSampleSuspicion::AccelSentinel,
            retries: 1,
            error: FakeError::Bus,
        })
    );
}

#[test]
fn accept_policy_returns_accepted_suspicious_after_retries_exhausted() {
    let fake = FakeI2c::new(vec![
        FakeResponse::Raw(SUSPICIOUS_RAW),
        FakeResponse::Raw(SUSPICIOUS_RETRY_RAW),
    ]);
    let mut mpu = Mpu6050::new(fake, Address::Ad0Low);
    assert_eq!(
        mpu.read_raw_with_retry(RawRetryPolicy::accept_after_retries(1)),
        Ok(RawReadOutcome::AcceptedSuspicious {
            raw: SUSPICIOUS_RETRY_RAW,
            suspicion: RawSampleSuspicion::GyroAllMinusOne,
            retries: 1,
        })
    );
}

#[test]
fn first_read_error_is_returned_after_one_transaction() {
    let fake = FakeI2c::new(vec![FakeResponse::Error(FakeError::Bus)]);
    let mut mpu = Mpu6050::new(fake, Address::Ad0Low);
    assert_eq!(
        mpu.read_raw_with_retry(RawRetryPolicy::reject_after_retries(3)),
        Err(FakeError::Bus)
    );
    assert_eq!(mpu.release().write_read_count, 1);
}

#[test]
fn big_endian_block_bytes_decode_to_signed_counts() {
    assert_eq!(mpu6050_validation::raw::be_i16(0xff, 0xff), -1);
    assert_eq!(mpu6050_validation::raw::be_i16(0x80, 0x00), i16::MIN);
    assert_eq!(mpu6050_validation::raw::be_i16(0x01, 0x02), 0x0102);
}
