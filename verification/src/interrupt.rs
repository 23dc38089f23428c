//! Interrupt enable and status registers.
use crate::bus::{appended, extends, is_register_read, read_result, BusOp, I2cBus};
use crate::device::{byte_result, masked_write_trace, register_write_trace, Mpu6050};
use crate::registers::{INT_ENABLE, INT_ENABLE_DATA_RDY, INT_ENABLE_FIFO_OFLOW, INT_STATUS};
use crate::bus::lemma_push_appended;
use vstd::prelude::*;

verus! {

/// The complete `INT_ENABLE` register state.
#[derive(Clone, Copy, Debug, PartialEq, Eq, Structural)]
pub struct InterruptEnable {
    bits: u8,
}

impl View for InterruptEnable {
    type V = u8;

    closed spec fn view(&self) -> u8 {
        self.bits
    }
}

impl InterruptEnable {
    /// The state holding the register byte `bits`.
    pub fn from_bits(bits: u8) -> (r: InterruptEnable)
        ensures
            r@ == bits,
    {
        InterruptEnable { bits }
    }

    /// Whether the data-ready interrupt (bit 0) is enabled.
    pub fn data_ready(self) -> (r: bool)
        ensures
            r == (self@ & 0x01 != 0),
    {
        self.bits & INT_ENABLE_DATA_RDY != 0
    }

    /// True only when data-ready is the one bit set in the whole byte, so no
    /// other source survived a read-modify-write.
    pub fn only_data_ready(self) -> (r: bool)
        ensures
            r == (self@ == 0x01),
    {
        self.bits == INT_ENABLE_DATA_RDY
    }

    /// Whether the FIFO-overflow interrupt (bit 4) is enabled.
    pub fn fifo_overflow(self) -> (r: bool)
        ensures
            r == (self@ & 0x10 != 0),
    {
        self.bits & INT_ENABLE_FIFO_OFLOW != 0
    }

    /// True only when the whole byte is zero; unsupported bits make it false.
    pub fn none_enabled(self) -> (r: bool)
        ensures
            r == (self@ == 0),
    {
        self.bits == 0
    }
}

/// The latched interrupt status bits.
#[derive(Clone, Copy, Debug, PartialEq, Eq, Structural)]
pub struct IntStatus {
    bits: u8,
}

impl View for IntStatus {
    type V = u8;

    closed spec fn view(&self) -> u8 {
        self.bits
    }
}

impl IntStatus {
    /// The status holding the register byte `bits`.
    pub fn from_bits(bits: u8) -> (r: IntStatus)
        ensures
            r@ == bits,
    {
        IntStatus { bits }
    }

    /// Whether new sensor data was ready (bit 0).
    pub fn data_ready(self) -> (r: bool)
        ensures
            r == (self@ & 0x01 != 0),
    {
        self.bits & 0x01 != 0
    }

    /// Whether the FIFO overflowed (bit 4).
    pub fn fifo_overflow(self) -> (r: bool)
        ensures
            r == (self@ & 0x10 != 0),
    {
        self.bits & 0x10 != 0
    }
}

/// A register read that reports the byte read as a value of type `T` whose
/// view is that byte.
pub open spec fn viewed_byte_result<E, T: View<V = u8>>(op: BusOp<E>, r: Result<T, E>) -> bool {
    match byte_result(read_result(op)) {
        Ok(b) => r matches Ok(v) && v@ == b,
        Err(e) => r == Err::<T, E>(e),
    }
}

impl<I2C: I2cBus> Mpu6050<I2C> {
    /// Reads the complete `INT_ENABLE` register.
    pub fn interrupt_enable(&mut self) -> (r: Result<InterruptEnable, I2C::Error>)
        ensures
            final(self).addr() == old(self).addr(),
            final(self).records() == old(self).records(),
            extends(old(self).transcript(), final(self).transcript()),
            ({
                let added = appended(old(self).transcript(), final(self).transcript());
                &&& added.len() == 1
                &&& is_register_read(added[0], old(self).bus_address(), INT_ENABLE, 1)
                &&& viewed_byte_result(added[0], r)
            }),
    {
        match self.read_register(INT_ENABLE) {
            Ok(bits) => Ok(InterruptEnable::from_bits(bits)),
            Err(e) => Err(e),
        }
    }

    /// Disables every interrupt source by writing zero to `INT_ENABLE`, without
    /// reading it first.
    pub fn disable_all_interrupts(&mut self) -> (r: Result<(), I2C::Error>)
        ensures
            final(self).addr() == old(self).addr(),
            final(self).records() == old(self).records(),
            extends(old(self).transcript(), final(self).transcript()),
            register_write_trace(
                old(self).bus_address(),
                INT_ENABLE,
                0,
                appended(old(self).transcript(), final(self).transcript()),
                r,
            ),
    {
        let ghost t0 = self.transcript();
        let r = self.write_register(INT_ENABLE, 0);
        proof {
            lemma_push_appended(t0, self.transcript().last());
        }
        r
    }

    /// Sets the data-ready enable bit, keeping the other sources as they are.
    pub fn enable_data_ready_interrupt(&mut self) -> (r: Result<(), I2C::Error>)
        ensures
            final(self).addr() == old(self).addr(),
            final(self).records() == old(self).records(),
            extends(old(self).transcript(), final(self).transcript()),
            masked_write_trace(
                old(self).bus_address(),
                INT_ENABLE,
                0x01,
                0x01,
                appended(old(self).transcript(), final(self).transcript()),
                r,
            ),
    {
        self.write_masked(INT_ENABLE, INT_ENABLE_DATA_RDY, INT_ENABLE_DATA_RDY)
    }

    /// Sets the FIFO-overflow enable bit, keeping the other sources as they are.
    pub fn enable_fifo_overflow_interrupt(&mut self) -> (r: Result<(), I2C::Error>)
        ensures
            final(self).addr() == old(self).addr(),
            final(self).records() == old(self).records(),
            extends(old(self).transcript(), final(self).transcript()),
            masked_write_trace(
                old(self).bus_address(),
                INT_ENABLE,
                0x10,
                0x10,
                appended(old(self).transcript(), final(self).transcript()),
                r,
            ),
    {
        self.write_masked(INT_ENABLE, INT_ENABLE_FIFO_OFLOW, INT_ENABLE_FIFO_OFLOW)
    }

    /// Reads, and by reading clears, the latched `INT_STATUS` bits.
    ///
    /// This is an explicit inspection; sample acquisition should follow the
    /// physical INT signal or the FIFO rather than poll it.
    pub fn int_status(&mut self) -> (r: Result<IntStatus, I2C::Error>)
        ensures
            final(self).addr() == old(self).addr(),
            final(self).records() == old(self).records(),
            extends(old(self).transcript(), final(self).transcript()),
            ({
                let added = appended(old(self).transcript(), final(self).transcript());
                &&& added.len() == 1
                &&& is_register_read(added[0], old(self).bus_address(), INT_STATUS, 1)
                &&& viewed_byte_result(added[0], r)
            }),
    {
        match self.read_register(INT_STATUS) {
            Ok(bits) => Ok(IntStatus::from_bits(bits)),
            Err(e) => Err(e),
        }
    }
}

} // verus!
