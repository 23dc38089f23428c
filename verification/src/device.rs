//! The device handle and its register-level transfers.
use crate::bus::{
    appended, extends, is_register_read, lemma_extends_trans, lemma_push_appended, read_result,
    register_write_op, BusOp, I2cBus,
};
use crate::config::{
    accel_range_index, address_value, dlpf_index, dlpf_of, gyro_range_index, identity_of, AccelRange,
    Address, Dlpf, DlpfReadError, GyroRange, Identity,
};
use crate::registers::{
    ACCEL_CONFIG, ACCEL_RANGE_MASK, CONFIG, DLPF_CFG_MASK, GYRO_CONFIG, GYRO_RANGE_MASK, PWR_MGMT_1,
    SMPLRT_DIV, WHO_AM_I,
};
use crate::acquisition::AcquisitionCall;
use crate::bringup::DelayMs;
use crate::raw::RawAccelGyroTemp;
use crate::startup::{StartupCall, TimingCall};
use vstd::prelude::*;

verus! {

/// An MPU-6050 on an I2C bus at a fixed address.
pub struct Mpu6050<I2C: I2cBus> {
    i2c: I2C,
    address: Address,
    /// Every transfer made through this handle, with its result.
    log: Ghost<Seq<BusOp<I2C::Error>>>,
    /// The data-ready start-up operations made through this handle.
    startup_log: Ghost<Seq<StartupCall>>,
    /// The sample-timing operations made through this handle.
    timing_log: Ghost<Seq<TimingCall>>,
    /// The acquisition operations made through this handle.
    acquisition_log: Ghost<Seq<AcquisitionCall<RawAccelGyroTemp>>>,
    /// The waits made through this handle: how many transfers preceded each,
    /// and its length in milliseconds.
    wait_log: Ghost<Seq<(nat, u32)>>,
}

/// `value` written through `mask` over `current`: the masked bits come from
/// `value`, the others stay as they were.
pub open spec fn masked_value(current: u8, mask: u8, value: u8) -> u8 {
    (current & !mask) | (value & mask)
}

/// The bytes a read transfer reports: what the buffer holds if it succeeded.
pub open spec fn filled<E>(r: Result<(), E>, buffer: Seq<u8>) -> Result<Seq<u8>, E> {
    match r {
        Ok(_) => Ok(buffer),
        Err(e) => Err(e),
    }
}

/// A masked write changes exactly the bits the mask selects: bit `i` of the
/// written value is bit `i` of `value` where the mask has it, and bit `i` of
/// the current register contents elsewhere.
pub proof fn lemma_masked_value_bits(current: u8, mask: u8, value: u8, i: u8)
    requires
        i < 8,
    ensures
        (masked_value(current, mask, value) >> i) & 1 == if (mask >> i) & 1 == 1 {
            (value >> i) & 1
        } else {
            (current >> i) & 1
        },
{
    assert((((current & !mask) | (value & mask)) >> i) & 1 == if (mask >> i) & 1 == 1 {
        (value >> i) & 1
    } else {
        (current >> i) & 1
    }) by (bit_vector)
        requires
            i < 8,
    ;
}

/// What a one-byte register read returns, given the transfer's result.
pub open spec fn byte_result<E>(result: Result<Seq<u8>, E>) -> Result<u8, E> {
    match result {
        Ok(bytes) => Ok(bytes[0]),
        Err(e) => Err(e),
    }
}

/// The transfers of a one-byte read of `register`, and the result it reports.
pub open spec fn register_read_trace<E>(address: u8, register: u8, added: Seq<BusOp<E>>, r: Result<
    u8,
    E,
>) -> bool {
    &&& added.len() == 1
    &&& is_register_read(added[0], address, register, 1)
    &&& r == byte_result(read_result(added[0]))
}

/// The transfer of a one-byte write of `value` to `register`, and its result.
pub open spec fn register_write_trace<E>(address: u8, register: u8, value: u8, added: Seq<
    BusOp<E>,
>, r: Result<(), E>) -> bool {
    added == seq![register_write_op(address, register, value, r)]
}

/// The value that a one-byte register read reported, mapped through `f`.
pub open spec fn map_byte<E, T>(op: BusOp<E>, f: spec_fn(u8) -> T) -> Result<T, E> {
    match byte_result(read_result(op)) {
        Ok(b) => Ok(f(b)),
        Err(e) => Err(e),
    }
}

/// Reading `SMPLRT_DIV` back after a successful write of `d`: the write is
/// one transfer of the register and `d`, the read one transfer of the
/// register; when the bus answers the read with `d`, as a register file does,
/// the read reports `d`, and when the read fails it reports the bus error.
pub proof fn lemma_divider_read_back<E>(
    address: u8,
    d: u8,
    write: Seq<BusOp<E>>,
    read: Seq<BusOp<E>>,
    r: Result<u8, E>,
)
    requires
        register_write_trace(address, SMPLRT_DIV, d, write, Ok(())),
        register_read_trace(address, SMPLRT_DIV, read, r),
    ensures
        write == seq![BusOp::<E>::Write { address, bytes: seq![SMPLRT_DIV, d], result: Ok(()) }],
        read.len() == 1 && is_register_read(read[0], address, SMPLRT_DIV, 1),
        read_result(read[0]) == Ok::<Seq<u8>, E>(seq![d]) ==> r == Ok::<u8, E>(d),
        read_result(read[0]) matches Err(e) ==> r == Err::<u8, E>(e),
{
}

/// What a read of the filter setting reports, given the `CONFIG` read.
pub open spec fn dlpf_read_result<E>(op: BusOp<E>) -> Result<Dlpf, DlpfReadError<E>> {
    match byte_result(read_result(op)) {
        Err(e) => Err(DlpfReadError::I2c(e)),
        Ok(b) => match dlpf_of(b & 0x07) {
            Some(d) => Ok(d),
            None => Err(DlpfReadError::ReservedConfig),
        },
    }
}

/// The transfers of a read-modify-write of `register` through `mask`, and the
/// result it reports: a one-byte read, then, only if that read succeeded, a
/// write of the merged value, whose result is the outcome.
pub open spec fn masked_write_trace<E>(
    address: u8,
    register: u8,
    mask: u8,
    value: u8,
    added: Seq<BusOp<E>>,
    r: Result<(), E>,
) -> bool {
    &&& added.len() >= 1
    &&& is_register_read(added[0], address, register, 1)
    &&& match read_result(added[0]) {
        Err(e) => added.len() == 1 && r == Err::<(), E>(e),
        Ok(current) => added.len() == 2 && added[1] == register_write_op(
            address,
            register,
            masked_value(current[0], mask, value),
            r,
        ),
    }
}

impl<I2C: I2cBus> Mpu6050<I2C> {
    /// The bus the device is reached through.
    pub closed spec fn bus(&self) -> I2C {
        self.i2c
    }

    /// The AD0 address the device answers at.
    pub closed spec fn addr(&self) -> Address {
        self.address
    }

    /// Every transfer made through this handle so far, oldest first, with the
    /// result the bus reported for it.
    pub closed spec fn transcript(&self) -> Seq<BusOp<I2C::Error>> {
        self.log@
    }

    /// The 7-bit address transfers go to.
    pub open spec fn bus_address(&self) -> u8 {
        address_value(self.addr())
    }

    /// The records of the device traits' operations and of the waits,
    /// together.
    pub closed spec fn records(&self) -> (
        Seq<StartupCall>,
        Seq<TimingCall>,
        Seq<AcquisitionCall<RawAccelGyroTemp>>,
        Seq<(nat, u32)>,
    ) {
        (self.startup_log@, self.timing_log@, self.acquisition_log@, self.wait_log@)
    }

    /// The waits made through this handle, oldest first: how many transfers
    /// had been made before each, and how many milliseconds it lasted.
    pub open spec fn waits(&self) -> Seq<(nat, u32)> {
        self.records().3
    }

    /// The data-ready start-up operations made through this handle.
    pub open spec fn startup_record(&self) -> Seq<StartupCall> {
        self.records().0
    }

    /// The sample-timing operations made through this handle.
    pub open spec fn timing_record(&self) -> Seq<TimingCall> {
        self.records().1
    }

    /// The acquisition operations made through this handle.
    pub open spec fn acquisition_record(&self) -> Seq<AcquisitionCall<RawAccelGyroTemp>> {
        self.records().2
    }

    /// Records a start-up operation; nothing is sent.
    pub(crate) fn record_startup(&mut self, Ghost(call): Ghost<StartupCall>)
        ensures
            final(self).startup_record() == old(self).startup_record().push(call),
            final(self).transcript() == old(self).transcript(),
            final(self).addr() == old(self).addr(),
            final(self).waits() == old(self).waits(),
    {
        proof {
            self.startup_log@ = self.startup_log@.push(call);
        }
    }

    /// Records a sample-timing operation; nothing is sent.
    pub(crate) fn record_timing(&mut self, Ghost(call): Ghost<TimingCall>)
        ensures
            final(self).timing_record() == old(self).timing_record().push(call),
            final(self).transcript() == old(self).transcript(),
            final(self).addr() == old(self).addr(),
            final(self).waits() == old(self).waits(),
    {
        proof {
            self.timing_log@ = self.timing_log@.push(call);
        }
    }

    /// Records an acquisition operation; nothing is sent.
    pub(crate) fn record_acquisition(&mut self, Ghost(call): Ghost<AcquisitionCall<RawAccelGyroTemp>>)
        ensures
            final(self).acquisition_record() == old(self).acquisition_record().push(call),
            final(self).transcript() == old(self).transcript(),
            final(self).addr() == old(self).addr(),
            final(self).waits() == old(self).waits(),
    {
        proof {
            self.acquisition_log@ = self.acquisition_log@.push(call);
        }
    }

    /// Waits `ms` milliseconds on `delay`, and records the wait after the
    /// transfers made so far; nothing is sent.
    pub fn pause<D: DelayMs>(&mut self, delay: &D, ms: u32)
        ensures
            final(self).waits() == old(self).waits().push((old(self).transcript().len(), ms)),
            final(self).transcript() == old(self).transcript(),
            final(self).addr() == old(self).addr(),
            final(self).startup_record() == old(self).startup_record(),
            final(self).timing_record() == old(self).timing_record(),
            final(self).acquisition_record() == old(self).acquisition_record(),
    {
        delay.delay_millis(ms);
        proof {
            self.wait_log@ = self.wait_log@.push((self.log@.len(), ms));
        }
    }

    /// A handle for the device at `address` on `i2c`; no transfer is made.
    pub fn new(i2c: I2C, address: Address) -> (m: Self)
        ensures
            m.bus() == i2c,
            m.addr() == address,
            m.transcript() == Seq::<BusOp<I2C::Error>>::empty(),
            m.waits() == Seq::<(nat, u32)>::empty(),
    {
        Mpu6050 {
            i2c,
            address,
            log: Ghost(Seq::empty()),
            startup_log: Ghost(Seq::empty()),
            timing_log: Ghost(Seq::empty()),
            acquisition_log: Ghost(Seq::empty()),
            wait_log: Ghost(Seq::empty()),
        }
    }

    /// Gives the bus back.
    pub fn release(self) -> (i2c: I2C)
        ensures
            i2c == self.bus(),
    {
        self.i2c
    }

    /// Reads `buffer.len()` bytes starting at `register` in one
    /// write-then-read transfer, and records it.
    fn read_into(&mut self, register: u8, buffer: &mut [u8]) -> (r: Result<(), I2C::Error>)
        ensures
            final(self).addr() == old(self).addr(),
            final(self).records() == old(self).records(),
            final(self).transcript() == old(self).transcript().push(
                BusOp::WriteRead {
                    address: old(self).bus_address(),
                    bytes: seq![register],
                    read_len: old(buffer)@.len(),
                    result: filled(r, final(buffer)@),
                },
            ),
    {
        let address = self.address.as_u8();
        let reg = [register];
        let ghost len = buffer@.len();
        let r = self.i2c.write_read(address, reg.as_slice(), buffer);
        proof {
            assert(reg@ =~= seq![register]);
            self.log@ = self.log@.push(
                BusOp::WriteRead {
                    address,
                    bytes: seq![register],
                    read_len: len,
                    result: filled(r, buffer@),
                },
            );
        }
        r
    }

    /// Reads the 14-byte block starting at `register` in one transfer.
    pub(crate) fn read_block(&mut self, register: u8) -> (r: Result<[u8; 14], I2C::Error>)
        ensures
            final(self).addr() == old(self).addr(),
            final(self).records() == old(self).records(),
            final(self).transcript() == old(self).transcript().push(
                BusOp::WriteRead {
                    address: old(self).bus_address(),
                    bytes: seq![register],
                    read_len: 14,
                    result: match r {
                        Ok(b) => Ok(b@),
                        Err(e) => Err(e),
                    },
                },
            ),
    {
        let mut buffer = [0u8; 14];
        match self.read_into(register, &mut buffer) {
            Ok(()) => Ok(buffer),
            Err(e) => Err(e),
        }
    }

    /// Reads one register in a single write-then-read transfer.
    pub fn read_register(&mut self, register: u8) -> (r: Result<u8, I2C::Error>)
        ensures
            final(self).addr() == old(self).addr(),
            final(self).records() == old(self).records(),
            extends(old(self).transcript(), final(self).transcript()),
            register_read_trace(
                old(self).bus_address(),
                register,
                appended(old(self).transcript(), final(self).transcript()),
                r,
            ),
    {
        let ghost t0 = self.transcript();
        let mut buffer = [0u8; 1];
        let r = self.read_into(register, &mut buffer);
        proof {
            lemma_push_appended(t0, self.transcript().last());
            assert(self.transcript() == t0.push(self.transcript().last()));
        }
        match r {
            Ok(()) => Ok(buffer[0]),
            Err(e) => Err(e),
        }
    }

    /// Writes one register in a single transfer.
    pub fn write_register(&mut self, register: u8, value: u8) -> (r: Result<(), I2C::Error>)
        ensures
            final(self).addr() == old(self).addr(),
            final(self).records() == old(self).records(),
            final(self).transcript() == old(self).transcript().push(
                register_write_op(old(self).bus_address(), register, value, r),
            ),
    {
        let address = self.address.as_u8();
        let bytes = [register, value];
        let r = self.i2c.write(address, bytes.as_slice());
        proof {
            assert(bytes@ =~= seq![register, value]);
            self.log@ = self.log@.push(register_write_op(address, register, value, r));
        }
        r
    }

    /// Read-modify-write of the bits of `register` selected by `mask`.
    pub fn write_masked(&mut self, register: u8, mask: u8, value: u8) -> (r: Result<
        (),
        I2C::Error,
    >)
        ensures
            final(self).addr() == old(self).addr(),
            final(self).records() == old(self).records(),
            extends(old(self).transcript(), final(self).transcript()),
            masked_write_trace(
                old(self).bus_address(),
                register,
                mask,
                value,
                appended(old(self).transcript(), final(self).transcript()),
                r,
            ),
    {
        let ghost t0 = self.transcript();
        let current = self.read_register(register);
        let ghost t1 = self.transcript();
        match current {
            Ok(current) => {
                let r = self.write_register(register, (current & !mask) | (value & mask));
                proof {
                    let t2 = self.transcript();
                    lemma_push_appended(t1, t2.last());
                    assert(t2 == t1.push(t2.last()));
                    lemma_extends_trans(t0, t1, t2);
                    assert(appended(t0, t2) =~= appended(t0, t1) + appended(t1, t2));
                }
                r
            },
            Err(e) => Err(e),
        }
    }
}

impl<I2C: I2cBus> Mpu6050<I2C> {
    /// Reads the raw `WHO_AM_I` register.
    pub fn who_am_i(&mut self) -> (r: Result<u8, I2C::Error>)
        ensures
            final(self).addr() == old(self).addr(),
            final(self).records() == old(self).records(),
            extends(old(self).transcript(), final(self).transcript()),
            register_read_trace(
                old(self).bus_address(),
                WHO_AM_I,
                appended(old(self).transcript(), final(self).transcript()),
                r,
            ),
    {
        self.read_register(WHO_AM_I)
    }

    /// Reads `WHO_AM_I` and decodes it; see [`decode_identity`](crate::config::decode_identity).
    pub fn identity(&mut self) -> (r: Result<Identity, I2C::Error>)
        ensures
            final(self).addr() == old(self).addr(),
            final(self).records() == old(self).records(),
            extends(old(self).transcript(), final(self).transcript()),
            ({
                let added = appended(old(self).transcript(), final(self).transcript());
                &&& added.len() == 1
                &&& is_register_read(added[0], old(self).bus_address(), WHO_AM_I, 1)
                &&& r == map_byte(added[0], |b: u8| identity_of(b))
            }),
    {
        match self.who_am_i() {
            Ok(id) => Ok(Identity::from_who_am_i(id)),
            Err(e) => Err(e),
        }
    }

    /// Sets the accelerometer range, keeping the other `ACCEL_CONFIG` bits.
    pub fn set_accel_range(&mut self, range: AccelRange) -> (r: Result<(), I2C::Error>)
        ensures
            final(self).addr() == old(self).addr(),
            final(self).records() == old(self).records(),
            extends(old(self).transcript(), final(self).transcript()),
            masked_write_trace(
                old(self).bus_address(),
                ACCEL_CONFIG,
                ACCEL_RANGE_MASK,
                (accel_range_index(range) * 8) as u8,
                appended(old(self).transcript(), final(self).transcript()),
                r,
            ),
    {
        let bits = range.bits();
        self.write_masked(ACCEL_CONFIG, ACCEL_RANGE_MASK, bits)
    }

    /// Sets the gyroscope range, keeping the other `GYRO_CONFIG` bits.
    pub fn set_gyro_range(&mut self, range: GyroRange) -> (r: Result<(), I2C::Error>)
        ensures
            final(self).addr() == old(self).addr(),
            final(self).records() == old(self).records(),
            extends(old(self).transcript(), final(self).transcript()),
            masked_write_trace(
                old(self).bus_address(),
                GYRO_CONFIG,
                GYRO_RANGE_MASK,
                (gyro_range_index(range) * 8) as u8,
                appended(old(self).transcript(), final(self).transcript()),
                r,
            ),
    {
        let bits = range.bits();
        self.write_masked(GYRO_CONFIG, GYRO_RANGE_MASK, bits)
    }

    /// Sets the `DLPF_CFG` field of `CONFIG`, keeping its other bits.
    pub fn set_dlpf(&mut self, dlpf: Dlpf) -> (r: Result<(), I2C::Error>)
        ensures
            final(self).addr() == old(self).addr(),
            final(self).records() == old(self).records(),
            extends(old(self).transcript(), final(self).transcript()),
            masked_write_trace(
                old(self).bus_address(),
                CONFIG,
                DLPF_CFG_MASK,
                dlpf_index(dlpf),
                appended(old(self).transcript(), final(self).transcript()),
                r,
            ),
    {
        let bits = dlpf.bits();
        self.write_masked(CONFIG, DLPF_CFG_MASK, bits)
    }

    /// Reads the `DLPF_CFG` field of `CONFIG`; the reserved value 7 is an error.
    pub fn dlpf(&mut self) -> (r: Result<Dlpf, DlpfReadError<I2C::Error>>)
        ensures
            final(self).addr() == old(self).addr(),
            final(self).records() == old(self).records(),
            extends(old(self).transcript(), final(self).transcript()),
            ({
                let added = appended(old(self).transcript(), final(self).transcript());
                &&& added.len() == 1
                &&& is_register_read(added[0], old(self).bus_address(), CONFIG, 1)
                &&& r == dlpf_read_result(added[0])
            }),
    {
        match self.read_register(CONFIG) {
            Err(e) => Err(DlpfReadError::I2c(e)),
            Ok(value) => match Dlpf::from_bits(value & DLPF_CFG_MASK) {
                Some(d) => Ok(d),
                None => Err(DlpfReadError::ReservedConfig),
            },
        }
    }

    /// Writes the whole `SMPLRT_DIV` register.
    pub fn set_sample_rate_divider(&mut self, divider: u8) -> (r: Result<(), I2C::Error>)
        ensures
            final(self).addr() == old(self).addr(),
            final(self).records() == old(self).records(),
            extends(old(self).transcript(), final(self).transcript()),
            register_write_trace(
                old(self).bus_address(),
                SMPLRT_DIV,
                divider,
                appended(old(self).transcript(), final(self).transcript()),
                r,
            ),
    {
        let ghost t0 = self.transcript();
        let r = self.write_register(SMPLRT_DIV, divider);
        proof {
            lemma_push_appended(t0, self.transcript().last());
        }
        r
    }

    /// Reads the whole `SMPLRT_DIV` register.
    pub fn sample_rate_divider(&mut self) -> (r: Result<u8, I2C::Error>)
        ensures
            final(self).addr() == old(self).addr(),
            final(self).records() == old(self).records(),
            extends(old(self).transcript(), final(self).transcript()),
            register_read_trace(
                old(self).bus_address(),
                SMPLRT_DIV,
                appended(old(self).transcript(), final(self).transcript()),
                r,
            ),
    {
        self.read_register(SMPLRT_DIV)
    }

    /// Clears sleep mode (`PWR_MGMT_1 = 0x00`) so the sensors produce data.
    pub fn wake(&mut self) -> (r: Result<(), I2C::Error>)
        ensures
            final(self).addr() == old(self).addr(),
            final(self).records() == old(self).records(),
            extends(old(self).transcript(), final(self).transcript()),
            register_write_trace(
                old(self).bus_address(),
                PWR_MGMT_1,
                0x00,
                appended(old(self).transcript(), final(self).transcript()),
                r,
            ),
    {
        let ghost t0 = self.transcript();
        let r = self.write_register(PWR_MGMT_1, 0x00);
        proof {
            lemma_push_appended(t0, self.transcript().last());
        }
        r
    }

    /// Resets the device (`PWR_MGMT_1` bit 7); wait before further transfers.
    pub fn reset(&mut self) -> (r: Result<(), I2C::Error>)
        ensures
            final(self).addr() == old(self).addr(),
            final(self).records() == old(self).records(),
            extends(old(self).transcript(), final(self).transcript()),
            register_write_trace(
                old(self).bus_address(),
                PWR_MGMT_1,
                0x80,
                appended(old(self).transcript(), final(self).transcript()),
                r,
            ),
    {
        let ghost t0 = self.transcript();
        let r = self.write_register(PWR_MGMT_1, 0x80);
        proof {
            lemma_push_appended(t0, self.transcript().last());
        }
        r
    }
}

} // verus!
