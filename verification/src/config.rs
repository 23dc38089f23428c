//! Address, identity and configuration-field encodings.
use vstd::prelude::*;

verus! {

/// I2C address selected by the AD0 pin.
#[derive(Clone, Copy, Debug, PartialEq, Eq, Structural)]
pub enum Address {
    Ad0Low,
    Ad0High,
}

/// The 7-bit bus address for an AD0 level.
pub open spec fn address_value(address: Address) -> u8 {
    match address {
        Address::Ad0Low => 0x68,
        Address::Ad0High => 0x69,
    }
}

impl Address {
    /// The 7-bit bus address: `0x68` with AD0 low, `0x69` with AD0 high.
    pub fn as_u8(self) -> (a: u8)
        ensures
            a == address_value(self),
    {
        match self {
            Address::Ad0Low => 0x68,
            Address::Ad0High => 0x69,
        }
    }
}

/// Device family reported by the `WHO_AM_I` register.
#[derive(Clone, Copy, Debug, PartialEq, Eq, Structural)]
pub enum Identity {
    Mpu6050,
    Mpu6500Compatible,
    Unknown(u8),
}

/// The identity that a `WHO_AM_I` value denotes.
pub open spec fn identity_of(id: u8) -> Identity {
    if id == 0x68 {
        Identity::Mpu6050
    } else if id == 0x70 {
        Identity::Mpu6500Compatible
    } else {
        Identity::Unknown(id)
    }
}

/// Decodes a `WHO_AM_I` value: `0x68` is the classic part, `0x70` an
/// MPU-6500-compatible part, anything else is kept as unknown.
pub fn decode_identity(id: u8) -> (r: Identity)
    ensures
        r == identity_of(id),
{
    match id {
        0x68 => Identity::Mpu6050,
        0x70 => Identity::Mpu6500Compatible,
        other => Identity::Unknown(other),
    }
}

impl Identity {
    /// Same as [`decode_identity`].
    pub fn from_who_am_i(id: u8) -> (r: Identity)
        ensures
            r == identity_of(id),
    {
        decode_identity(id)
    }

    /// What the start-up banner calls the device family.
    pub fn description(self) -> (s: &'static str)
        ensures
            s@ == match self {
                Identity::Mpu6050 => "MPU-6050-class IMU"@,
                Identity::Mpu6500Compatible => "MPU-6500-compatible / clone / relabeled variant"@,
                Identity::Unknown(_) => "unknown IMU identity"@,
            },
    {
        match self {
            Identity::Mpu6050 => "MPU-6050-class IMU",
            Identity::Mpu6500Compatible => "MPU-6500-compatible / clone / relabeled variant",
            Identity::Unknown(_) => "unknown IMU identity",
        }
    }
}

/// Accelerometer full-scale range.
#[derive(Clone, Copy, Debug, PartialEq, Eq, Structural)]
pub enum AccelRange {
    G2,
    G4,
    G8,
    G16,
}

/// Index of an accelerometer range in the `AFS_SEL` field.
pub open spec fn accel_range_index(range: AccelRange) -> u8 {
    match range {
        AccelRange::G2 => 0,
        AccelRange::G4 => 1,
        AccelRange::G8 => 2,
        AccelRange::G16 => 3,
    }
}

impl AccelRange {
    /// The `ACCEL_CONFIG` bits for this range: its index in bits 4..3.
    pub fn bits(self) -> (b: u8)
        ensures
            b == accel_range_index(self) * 8,
    {
        match self {
            AccelRange::G2 => 0x00,
            AccelRange::G4 => 0x08,
            AccelRange::G8 => 0x10,
            AccelRange::G16 => 0x18,
        }
    }
}

/// Gyroscope full-scale range.
#[derive(Clone, Copy, Debug, PartialEq, Eq, Structural)]
pub enum GyroRange {
    Dps250,
    Dps500,
    Dps1000,
    Dps2000,
}

/// Index of a gyroscope range in the `FS_SEL` field.
pub open spec fn gyro_range_index(range: GyroRange) -> u8 {
    match range {
        GyroRange::Dps250 => 0,
        GyroRange::Dps500 => 1,
        GyroRange::Dps1000 => 2,
        GyroRange::Dps2000 => 3,
    }
}

impl GyroRange {
    /// The `GYRO_CONFIG` bits for this range: its index in bits 4..3.
    pub fn bits(self) -> (b: u8)
        ensures
            b == gyro_range_index(self) * 8,
    {
        match self {
            GyroRange::Dps250 => 0x00,
            GyroRange::Dps500 => 0x08,
            GyroRange::Dps1000 => 0x10,
            GyroRange::Dps2000 => 0x18,
        }
    }
}

/// Digital low-pass filter setting of the `CONFIG` register.
///
/// `Cfg2` selects about 94 Hz accelerometer and 98 Hz gyroscope bandwidth; the
/// settings are numbered because the two sensors' bandwidths differ.
#[derive(Clone, Copy, Debug, PartialEq, Eq, Structural)]
pub enum Dlpf {
    Cfg0,
    Cfg1,
    Cfg2,
    Cfg3,
    Cfg4,
    Cfg5,
    Cfg6,
}

/// The `DLPF_CFG` field value of a setting.
pub open spec fn dlpf_index(dlpf: Dlpf) -> u8 {
    match dlpf {
        Dlpf::Cfg0 => 0,
        Dlpf::Cfg1 => 1,
        Dlpf::Cfg2 => 2,
        Dlpf::Cfg3 => 3,
        Dlpf::Cfg4 => 4,
        Dlpf::Cfg5 => 5,
        Dlpf::Cfg6 => 6,
    }
}

/// The setting whose field value is `bits`, if any (7 is reserved).
pub open spec fn dlpf_of(bits: u8) -> Option<Dlpf> {
    if bits == 0 {
        Some(Dlpf::Cfg0)
    } else if bits == 1 {
        Some(Dlpf::Cfg1)
    } else if bits == 2 {
        Some(Dlpf::Cfg2)
    } else if bits == 3 {
        Some(Dlpf::Cfg3)
    } else if bits == 4 {
        Some(Dlpf::Cfg4)
    } else if bits == 5 {
        Some(Dlpf::Cfg5)
    } else if bits == 6 {
        Some(Dlpf::Cfg6)
    } else {
        None
    }
}

/// Base output rate of the sample-rate divider for a filter setting, in Hz.
pub open spec fn dlpf_base_rate(dlpf: Dlpf) -> u32 {
    match dlpf {
        Dlpf::Cfg0 => 8000,
        _ => 1000,
    }
}

impl Dlpf {
    /// The `DLPF_CFG` field value (0 to 6).
    pub fn bits(self) -> (b: u8)
        ensures
            b == dlpf_index(self),
            b <= 6,
    {
        match self {
            Dlpf::Cfg0 => 0,
            Dlpf::Cfg1 => 1,
            Dlpf::Cfg2 => 2,
            Dlpf::Cfg3 => 3,
            Dlpf::Cfg4 => 4,
            Dlpf::Cfg5 => 5,
            Dlpf::Cfg6 => 6,
        }
    }

    /// The setting for a `DLPF_CFG` field value; `None` for the reserved value 7
    /// and for anything wider than the field.
    pub fn from_bits(bits: u8) -> (r: Option<Dlpf>)
        ensures
            r == dlpf_of(bits),
            r is Some <==> bits <= 6,
            r matches Some(d) ==> dlpf_index(d) == bits,
    {
        match bits {
            0 => Some(Dlpf::Cfg0),
            1 => Some(Dlpf::Cfg1),
            2 => Some(Dlpf::Cfg2),
            3 => Some(Dlpf::Cfg3),
            4 => Some(Dlpf::Cfg4),
            5 => Some(Dlpf::Cfg5),
            6 => Some(Dlpf::Cfg6),
            _ => None,
        }
    }

    /// The rate, in Hz, that the sample-rate divider divides: 8000 for `Cfg0`,
    /// 1000 for the others. The configured sample rate is this rate divided by
    /// `divider + 1`.
    pub fn base_rate_hz(self) -> (r: u32)
        ensures
            r == dlpf_base_rate(self),
    {
        match self {
            Dlpf::Cfg0 => 8000,
            _ => 1000,
        }
    }
}

/// Error of a read of the filter setting.
#[derive(Clone, Copy, Debug, PartialEq, Eq)]
pub enum DlpfReadError<E> {
    I2c(E),
    /// The masked `CONFIG` bits are the reserved value 7.
    ReservedConfig,
}

/// Every setting survives a trip through its field value, and every field
/// value that decodes comes back unchanged.
pub proof fn lemma_dlpf_bits_round_trip(dlpf: Dlpf, bits: u8)
    ensures
        dlpf_of(dlpf_index(dlpf)) == Some(dlpf),
        dlpf_of(bits) matches Some(d) ==> dlpf_index(d) == bits,
{
}

} // verus!
