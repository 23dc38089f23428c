use mpu6050_validation::bus::I2cBus;
use mpu6050_validation::config::{AccelRange, Address, Dlpf, DlpfReadError, GyroRange};
use mpu6050_validation::device::Mpu6050;
use mpu6050_validation::registers;
use std::collections::VecDeque;

#[derive(Clone, Copy, Debug, Eq, PartialEq)]
enum FakeError {
    Bus,
}

enum Expected {
    Read(u8, Result<u8, FakeError>),
    Write(u8, u8, Result<(), FakeError>),
}

struct FakeI2c {
    expected: VecDeque<Expected>,
}

impl FakeI2c {
    fn new(expected: Vec<Expected>) -> Self {
        Self {
            expected: expected.into(),
        }
    }
}

impl I2cBus for FakeI2c {
    type Error = FakeError;

    fn write(&mut self, address: u8, bytes: &[u8]) -> Result<(), FakeError> {
        assert_eq!(address, Address::Ad0Low.as_u8());
        match self.expected.pop_front().expect("unexpected write") {
            Expected::Write(register, value, result) => {
                assert_eq!(bytes, &[register, value]);
                result
            }
            Expected::Read(..) => panic!("expected read"),
        }
    }

    fn write_read(&mut self, address: u8, bytes: &[u8], buffer: &mut [u8]) -> Result<(), FakeError> {
        assert_eq!(address, Address::Ad0Low.as_u8());
        assert_eq!(buffer.len(), 1);
        match self.expected.pop_front().expect("unexpected read") {
            Expected::Read(register, result) => {
                assert_eq!(bytes, &[register]);
                buffer[0] = result?;
                Ok(())
            }
            Expected::Write(..) => panic!("expected write"),
        }
    }
}

#[test]
fn address_values_match_ad0_pin_state() {
    assert_eq!(Address::Ad0Low.as_u8(), 0x68);
    assert_eq!(Address::Ad0High.as_u8(), 0x69);
}

#[test]
fn dlpf_reads_mask_reserved_and_i2c_errors() {
    for (raw, expected) in [
        (2, Ok(Dlpf::Cfg2)),
        (0x3a, Ok(Dlpf::Cfg2)),
        (7, Err(DlpfReadError::ReservedConfig)),
        (0x3f, Err(DlpfReadError::ReservedConfig)),
    ] {
        let mut mpu = Mpu6050::new(
            FakeI2c::new(vec![Expected::Read(registers::CONFIG, Ok(raw))]),
            Address::Ad0Low,
        );
        assert_eq!(mpu.dlpf(), expected);
        assert!(mpu.release().expected.is_empty());
    }
    let mut mpu = Mpu6050::new(
        FakeI2c::new(vec![Expected::Read(registers::CONFIG, Err(FakeError::Bus))]),
        Address::Ad0Low,
    );
    assert_eq!(mpu.dlpf(), Err(DlpfReadError::I2c(FakeError::Bus)));
}

#[test]
fn dlpf_encodings_and_decodes_are_complete() {
    let all = [
        Dlpf::Cfg0,
        Dlpf::Cfg1,
        Dlpf::Cfg2,
        Dlpf::Cfg3,
        Dlpf::Cfg4,
        Dlpf::Cfg5,
        Dlpf::Cfg6,
    ];
    for (bits, dlpf) in all.into_iter().enumerate() {
        assert_eq!(dlpf.bits(), bits as u8);
        assert_eq!(Dlpf::from_bits(bits as u8), Some(dlpf));
    }
    assert_eq!(Dlpf::from_bits(7), None);
    assert_eq!(Dlpf::Cfg0.base_rate_hz(), 8000);
    assert_eq!(Dlpf::Cfg1.base_rate_hz(), 1000);
    assert_eq!(Dlpf::Cfg2.base_rate_hz() / (1 + 4), 200);
}

#[test]
fn dlpf_setter_preserves_config_upper_bits_and_propagates_failures() {
    let mut mpu = Mpu6050::new(
        FakeI2c::new(vec![
            Expected::Read(registers::CONFIG, Ok(0xf8)),
            Expected::Write(registers::CONFIG, 0xfa, Ok(())),
        ]),
        Address::Ad0Low,
    );
    assert_eq!(mpu.set_dlpf(Dlpf::Cfg2), Ok(()));
    assert!(mpu.release().expected.is_empty());
    let mut read_error = Mpu6050::new(
        FakeI2c::new(vec![Expected::Read(registers::CONFIG, Err(FakeError::Bus))]),
        Address::Ad0Low,
    );
    assert_eq!(read_error.set_dlpf(Dlpf::Cfg2), Err(FakeError::Bus));
    let mut write_error = Mpu6050::new(
        FakeI2c::new(vec![
            Expected::Read(registers::CONFIG, Ok(0)),
            Expected::Write(registers::CONFIG, 2, Err(FakeError::Bus)),
        ]),
        Address::Ad0Low,
    );
    assert_eq!(write_error.set_dlpf(Dlpf::Cfg2), Err(FakeError::Bus));
}

#[test]
fn divider_reads_writes_and_propagates_errors_unchanged() {
    let mut mpu = Mpu6050::new(
        FakeI2c::new(vec![
            Expected::Write(registers::SMPLRT_DIV, 37, Ok(())),
            Expected::Read(registers::SMPLRT_DIV, Ok(37)),
        ]),
        Address::Ad0Low,
    );
    assert_eq!(mpu.set_sample_rate_divider(37), Ok(()));
    assert_eq!(mpu.sample_rate_divider(), Ok(37));
    assert!(mpu.release().expected.is_empty());
    let mut set_error = Mpu6050::new(
        FakeI2c::new(vec![Expected::Write(registers::SMPLRT_DIV, 1, Err(FakeError::Bus))]),
        Address::Ad0Low,
    );
    assert_eq!(set_error.set_sample_rate_divider(1), Err(FakeError::Bus));
    let mut get_error = Mpu6050::new(
        FakeI2c::new(vec![Expected::Read(registers::SMPLRT_DIV, Err(FakeError::Bus))]),
        Address::Ad0Low,
    );
    assert_eq!(get_error.sample_rate_divider(), Err(FakeError::Bus));
}

#[test]
fn accel_and_gyro_range_masked_writes_remain_unchanged() {
    let mut mpu = Mpu6050::new(
        FakeI2c::new(vec![
            Expected::Read(registers::ACCEL_CONFIG, Ok(0xe7)),
            Expected::Write(registers::ACCEL_CONFIG, 0xf7, Ok(())),
            Expected::Read(registers::GYRO_CONFIG, Ok(0xe7)),
            Expected::Write(registers::GYRO_CONFIG, 0xff, Ok(())),
        ]),
        Address::Ad0Low,
    );
    assert_eq!(mpu.set_accel_range(AccelRange::G8), Ok(()));
    assert_eq!(mpu.set_gyro_range(GyroRange::Dps2000), Ok(()));
    assert!(mpu.release().expected.is_empty());
}

#[test]
fn wake_and_reset_write_power_management() {
    let mut mpu = Mpu6050::new(
        FakeI2c::new(vec![
            Expected::Write(registers::PWR_MGMT_1, 0x80, Ok(())),
            Expected::Write(registers::PWR_MGMT_1, 0x00, Ok(())),
            Expected::Read(registers::WHO_AM_I, Ok(0x70)),
        ]),
        Address::Ad0Low,
    );
    assert_eq!(mpu.reset(), Ok(()));
    assert_eq!(mpu.wake(), Ok(()));
    assert_eq!(
        mpu.identity(),
        Ok(mpu6050_validation::config::Identity::Mpu6500Compatible)
    );
    assert!(mpu.release().expected.is_empty());
}

#[test]
fn disable_all_interrupts_writes_zero_without_reading() {
    let mut mpu = Mpu6050::new(
        FakeI2c::new(vec![Expected::Write(registers::INT_ENABLE, 0, Ok(()))]),
        Address::Ad0Low,
    );
    assert_eq!(mpu.disable_all_interrupts(), Ok(()));
    assert!(mpu.release().expected.is_empty());
}

#[test]
fn interrupt_enable_reads_and_decodes_complete_register_byte() {
    let mut mpu = Mpu6050::new(
        FakeI2c::new(vec![Expected::Read(
            registers::INT_ENABLE,
            Ok(registers::INT_ENABLE_DATA_RDY | registers::INT_ENABLE_FIFO_OFLOW | 0x80),
        )]),
        Address::Ad0Low,
    );
    let enable = mpu.interrupt_enable().unwrap();
    assert!(enable.data_ready());
    assert!(enable.fifo_overflow());
    assert!(!enable.only_data_ready());
    assert!(!enable.none_enabled());
    assert!(mpu.release().expected.is_empty());
}

#[test]
fn interrupt_enable_decodes_individual_and_no_enabled_bits() {
    let mut mpu = Mpu6050::new(
        FakeI2c::new(vec![
            Expected::Read(registers::INT_ENABLE, Ok(registers::INT_ENABLE_DATA_RDY)),
            Expected::Read(registers::INT_ENABLE, Ok(registers::INT_ENABLE_FIFO_OFLOW)),
            Expected::Read(registers::INT_ENABLE, Ok(0)),
            Expected::Read(registers::INT_ENABLE, Ok(0x80)),
        ]),
        Address::Ad0Low,
    );
    let data_ready = mpu.interrupt_enable().unwrap();
    assert!(data_ready.data_ready());
    assert!(data_ready.only_data_ready());
    assert!(!data_ready.fifo_overflow());
    let fifo_overflow = mpu.interrupt_enable().unwrap();
    assert!(!fifo_overflow.data_ready());
    assert!(fifo_overflow.fifo_overflow());
    assert!(mpu.interrupt_enable().unwrap().none_enabled());
    let unsupported = mpu.interrupt_enable().unwrap();
    assert!(!unsupported.none_enabled());
    assert!(!unsupported.only_data_ready());
    assert!(mpu.release().expected.is_empty());
}

#[test]
fn interrupt_operations_propagate_read_and_write_errors() {
    let mut mpu = Mpu6050::new(
        FakeI2c::new(vec![
            Expected::Read(registers::INT_ENABLE, Err(FakeError::Bus)),
            Expected::Write(registers::INT_ENABLE, 0, Err(FakeError::Bus)),
        ]),
        Address::Ad0Low,
    );
    assert_eq!(mpu.interrupt_enable(), Err(FakeError::Bus));
    assert_eq!(mpu.disable_all_interrupts(), Err(FakeError::Bus));
    assert!(mpu.release().expected.is_empty());
}

#[test]
fn masked_enable_methods_preserve_unrelated_bits() {
    let unrelated = 0x82;
    let mut mpu = Mpu6050::new(
        FakeI2c::new(vec![
            Expected::Read(registers::INT_ENABLE, Ok(unrelated)),
            Expected::Write(
                registers::INT_ENABLE,
                unrelated | registers::INT_ENABLE_DATA_RDY,
                Ok(()),
            ),
            Expected::Read(registers::INT_ENABLE, Ok(unrelated)),
            Expected::Write(
                registers::INT_ENABLE,
                unrelated | registers::INT_ENABLE_FIFO_OFLOW,
                Ok(()),
            ),
        ]),
        Address::Ad0Low,
    );
    assert_eq!(mpu.enable_data_ready_interrupt(), Ok(()));
    assert_eq!(mpu.enable_fifo_overflow_interrupt(), Ok(()));
    assert!(mpu.release().expected.is_empty());
}

#[test]
fn int_status_decoding_is_unchanged() {
    let mut mpu = Mpu6050::new(
        FakeI2c::new(vec![Expected::Read(
            registers::INT_STATUS,
            Ok(registers::INT_STATUS_DATA_RDY | registers::INT_STATUS_FIFO_OFLOW),
        )]),
        Address::Ad0Low,
    );
    let status = mpu.int_status().unwrap();
    assert!(status.data_ready());
    assert!(status.fifo_overflow());
    assert!(mpu.release().expected.is_empty());
}
