//! Bring-up probing of a device on the bit-banged bus: what it answered, the
//! evidence that gives, and the coarser verification levels used there.
use crate::bus::{appended, extends, is_register_read, I2cBus};
use crate::config::{identity_of, Identity};
use crate::device::{byte_result, Mpu6050};
use crate::bus::read_result;
use crate::raw::raw_result;
use crate::registers::{ACCEL_XOUT_H, WHO_AM_I};
use crate::startup::{evidence_score, VerificationEvidence};
use vstd::prelude::*;

verus! {

/// How far the bring-up evidence verifies the device.
#[derive(Debug, Clone, Copy, PartialEq, Eq, Structural)]
pub enum VerificationLevel {
    MarkingOnly,
    I2cResponsive,
    RegisterCompatible,
}

/// The level an evidence score reaches at bring-up: 0-1, 2-3, then above.
pub open spec fn probe_level_of_score(score: u8) -> VerificationLevel {
    if score <= 1 {
        VerificationLevel::MarkingOnly
    } else if score <= 3 {
        VerificationLevel::I2cResponsive
    } else {
        VerificationLevel::RegisterCompatible
    }
}

impl VerificationLevel {
    /// The level an evidence score reaches.
    pub fn from_score(score: u8) -> (l: VerificationLevel)
        ensures
            l == probe_level_of_score(score),
    {
        if score <= 1 {
            VerificationLevel::MarkingOnly
        } else if score <= 3 {
            VerificationLevel::I2cResponsive
        } else {
            VerificationLevel::RegisterCompatible
        }
    }

    /// The level's name in the bring-up log.
    pub fn as_str(self) -> (s: &'static str)
        ensures
            s@ == match self {
                VerificationLevel::MarkingOnly => "MarkingOnly"@,
                VerificationLevel::I2cResponsive => "I2cResponsiveCompatibleDevice"@,
                VerificationLevel::RegisterCompatible => "FunctionalRegisterCompatibleImu"@,
            },
    {
        match self {
            VerificationLevel::MarkingOnly => "MarkingOnly",
            VerificationLevel::I2cResponsive => "I2cResponsiveCompatibleDevice",
            VerificationLevel::RegisterCompatible => "FunctionalRegisterCompatibleImu",
        }
    }
}

/// What probing one address found.
#[derive(Debug, Clone, Copy, PartialEq, Eq)]
pub struct ProbeResult {
    pub address: u8,
    pub who_am_i: Option<u8>,
    pub identity: Option<Identity>,
    pub pwr_mgmt_1: Option<u8>,
    pub raw_block_readable: bool,
}

impl ProbeResult {
    /// The device answered something: its identity or a raw block.
    pub fn has_communication_evidence(self) -> (r: bool)
        ensures
            r == (self.who_am_i is Some || self.raw_block_readable),
    {
        self.who_am_i.is_some() || self.raw_block_readable
    }

    /// The evidence a probe gives: the package marking is taken as matching,
    /// any answer counts as an acknowledge.
    pub fn evidence(self) -> (e: VerificationEvidence)
        ensures
            e == (VerificationEvidence {
                package_marking_matches: true,
                i2c_ack: self.who_am_i is Some || self.pwr_mgmt_1 is Some || self.raw_block_readable,
                identity: self.identity,
                pwr_mgmt_1_readable: self.pwr_mgmt_1 is Some,
                raw_block_readable: self.raw_block_readable,
            }),
    {
        VerificationEvidence {
            package_marking_matches: true,
            i2c_ack: self.who_am_i.is_some() || self.pwr_mgmt_1.is_some() || self.raw_block_readable,
            identity: self.identity,
            pwr_mgmt_1_readable: self.pwr_mgmt_1.is_some(),
            raw_block_readable: self.raw_block_readable,
        }
    }
}

/// The bring-up level the evidence reaches.
pub fn probe_level(e: VerificationEvidence) -> (l: VerificationLevel)
    ensures
        l == probe_level_of_score(evidence_score(e) as u8),
{
    VerificationLevel::from_score(e.score())
}

/// Probes the device without waking it: reads `WHO_AM_I`, and if that works
/// reads it again to decode the identity, then tries one raw block read.
/// `PWR_MGMT_1` is not read.
pub fn probe_imu_driver<I2C: I2cBus>(mpu: &mut Mpu6050<I2C>, address: u8) -> (p: ProbeResult)
    ensures
        final(mpu).addr() == old(mpu).addr(),
        extends(old(mpu).transcript(), final(mpu).transcript()),
        ({
            let added = appended(old(mpu).transcript(), final(mpu).transcript());
            let n = added.len();
            &&& n >= 2
            &&& is_register_read(added[0], old(mpu).bus_address(), WHO_AM_I, 1)
            &&& p.who_am_i == match byte_result(read_result(added[0])) {
                Ok(b) => Some(b),
                Err(_) => None::<u8>,
            }
            &&& (p.who_am_i is Some <==> n == 3)
            &&& (n == 3 ==> is_register_read(added[1], old(mpu).bus_address(), WHO_AM_I, 1)
                && p.identity == match byte_result(read_result(added[1])) {
                Ok(b) => Some(identity_of(b)),
                Err(_) => None::<Identity>,
            })
            &&& (n == 2 ==> p.identity is None)
            &&& is_register_read(added[n - 1], old(mpu).bus_address(), ACCEL_XOUT_H, 14)
            &&& p.raw_block_readable == raw_result(added[n - 1]) is Ok
        }),
        p.address == address,
        p.pwr_mgmt_1 is None,
{
    let ghost t0 = mpu.transcript();
    let mut who_am_i: Option<u8> = None;
    let mut identity: Option<Identity> = None;
    let w = mpu.who_am_i();
    let ghost ta = mpu.transcript();
    match w {
        Ok(value) => {
            who_am_i = Some(value);
            identity = match mpu.identity() {
                Ok(id) => Some(id),
                Err(_) => None,
            };
            proof {
                crate::bus::lemma_extends_trans(t0, ta, mpu.transcript());
                assert(appended(t0, mpu.transcript()) =~= appended(t0, ta) + appended(
                    ta,
                    mpu.transcript(),
                ));
            }
        },
        Err(_) => {},
    }
    let ghost t1 = mpu.transcript();
    let raw_block_readable = mpu.read_raw_accel_gyro_temp().is_ok();
    proof {
        let t2 = mpu.transcript();
        crate::bus::lemma_extends_trans(t0, t1, t2);
        assert(appended(t0, t2) =~= appended(t0, t1) + appended(t1, t2));
    }
    ProbeResult { address, who_am_i, identity, pwr_mgmt_1: None, raw_block_readable }
}

} // verus!
