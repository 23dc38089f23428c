//! Register map of the MPU-6050 and the bit fields the driver touches.
use vstd::prelude::*;

verus! {

pub const SMPLRT_DIV: u8 = 0x19;
pub const CONFIG: u8 = 0x1A;
pub const GYRO_CONFIG: u8 = 0x1B;
pub const ACCEL_CONFIG: u8 = 0x1C;
pub const FIFO_EN: u8 = 0x23;
pub const INT_ENABLE: u8 = 0x38;
pub const INT_STATUS: u8 = 0x3A;
pub const ACCEL_XOUT_H: u8 = 0x3B;
pub const USER_CTRL: u8 = 0x6A;
pub const PWR_MGMT_1: u8 = 0x6B;
pub const FIFO_COUNTH: u8 = 0x72;
pub const FIFO_R_W: u8 = 0x74;
pub const WHO_AM_I: u8 = 0x75;

pub const ACCEL_RANGE_MASK: u8 = 0x18;
pub const GYRO_RANGE_MASK: u8 = 0x18;
pub const SELF_TEST_MASK: u8 = 0xE0;
pub const DLPF_CFG_MASK: u8 = 0x07;
pub const USER_CTRL_FIFO_EN: u8 = 0x40;
pub const USER_CTRL_FIFO_RESET: u8 = 0x04;
pub const INT_ENABLE_DATA_RDY: u8 = 0x01;
pub const INT_ENABLE_FIFO_OFLOW: u8 = 0x10;
pub const INT_STATUS_DATA_RDY: u8 = 0x01;
pub const INT_STATUS_FIFO_OFLOW: u8 = 0x10;

/// `FIFO_EN` bits for the gyro X/Y/Z (bits 6..4) and accelerometer (bit 3)
/// sources; the temperature bit 7 is left out so that one FIFO motion frame is
/// six axes of two bytes.
pub const FIFO_SOURCES_ACCEL_XYZ_GYRO_XYZ: u8 = 0x78;

/// Length in bytes of the accel/temp/gyro block that starts at `ACCEL_XOUT_H`.
pub const RAW_BLOCK_LEN: usize = 14;

} // verus!
