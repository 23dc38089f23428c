//! The board's bring-up checks: reset and wake the device, confirm that no
//! interrupt source is enabled, configure the sample timing and the default
//! ranges, and exercise the interrupt status path before acquisition starts.
use crate::bus::{
    appended, extends, is_register_read, lemma_extends_trans, read_result, BusOp, I2cBus,
};
use crate::config::{accel_range_index, gyro_range_index, AccelRange, Dlpf, GyroRange};
use crate::device::{byte_result, masked_write_trace, Mpu6050};
use crate::raw::{all_block_reads, block_results, raw_result, RawAccelGyroTemp};
use crate::interrupt::{InterruptEnable, IntStatus};
use crate::registers::{
    ACCEL_CONFIG, ACCEL_RANGE_MASK, ACCEL_XOUT_H, GYRO_CONFIG, GYRO_RANGE_MASK, INT_ENABLE, INT_STATUS, PWR_MGMT_1,
};
use crate::startup::{
    added, configure_sample_timing, grew, timing_exchange, timing_progress,
    timing_result_consistent, timing_trace, SampleTimingFailure, TimingCall, VerifiedSampleTiming,
};
use vstd::prelude::*;

verus! {

/// A blocking millisecond delay, as the board's timer provides it.
pub trait DelayMs {
    /// Blocks for `ms` milliseconds.
    fn delay_millis(&self, ms: u32);
}

/// `op` wrote `value` to `register` of the device at `address`, and `ok` tells
/// whether the bus reported success.
pub open spec fn written<E>(op: BusOp<E>, address: u8, register: u8, value: u8, ok: bool) -> bool {
    &&& op matches BusOp::Write { address: a, bytes, result }
    &&& a == address
    &&& bytes == seq![register, value]
    &&& ok == result is Ok
}

/// What a one-byte read `op` gave, as an optional value whose view is the byte:
/// the byte when the read succeeded, nothing when it failed.
pub open spec fn read_back<E, T: View<V = u8>>(op: BusOp<E>, v: Option<T>) -> bool {
    match byte_result(read_result(op)) {
        Ok(b) => v matches Some(x) && x@ == b,
        Err(_) => v is None,
    }
}

/// An `INT_ENABLE` readback that shows no source enabled: the whole byte is
/// zero, so unsupported bits count against it.
pub open spec fn confirmed_zero(readback: Option<InterruptEnable>) -> bool {
    readback matches Some(v) && v@ == 0
}

/// The first part of the bring-up: reset, wake, and the interrupt state
/// that configuration depends on.
#[derive(Debug, Clone, Copy, PartialEq, Eq)]
pub struct ResetWakeCheck {
    /// The reset write succeeded.
    pub reset_ok: bool,
    /// The wake write succeeded.
    pub wake_ok: bool,
    /// The write that disables every interrupt source succeeded.
    pub int_disable_write_ok: bool,
    /// `INT_ENABLE` as read back after that write, if the read succeeded.
    pub interrupt_enable: Option<InterruptEnable>,
}

/// The transfers of the first part of the bring-up: the reset write, the wake
/// write, the write of zero to `INT_ENABLE` and one `INT_ENABLE` read, each
/// made once and in that order whatever the earlier ones returned, with
/// `c` holding what each returned.
pub open spec fn reset_wake_trace<E>(address: u8, added: Seq<BusOp<E>>, c: ResetWakeCheck) -> bool {
    &&& added.len() == 4
    &&& written(added[0], address, PWR_MGMT_1, 0x80, c.reset_ok)
    &&& written(added[1], address, PWR_MGMT_1, 0x00, c.wake_ok)
    &&& written(added[2], address, INT_ENABLE, 0x00, c.int_disable_write_ok)
    &&& is_register_read(added[3], address, INT_ENABLE, 1)
    &&& read_back(added[3], c.interrupt_enable)
}

/// Configuration may go ahead: the reset and the wake succeeded and the
/// readback showed no interrupt source enabled.
pub open spec fn prerequisites_hold(c: ResetWakeCheck) -> bool {
    c.reset_ok && c.wake_ok && confirmed_zero(c.interrupt_enable)
}

impl ResetWakeCheck {
    /// Whether the `INT_ENABLE` readback succeeded.
    pub fn int_readback_ok(&self) -> (r: bool)
        ensures
            r == self.interrupt_enable is Some,
    {
        self.interrupt_enable.is_some()
    }

    /// Whether the readback shows the data-ready source enabled; false when
    /// the read failed.
    pub fn int_data_ready(&self) -> (r: bool)
        ensures
            r == (self.interrupt_enable matches Some(v) && v@ & 0x01 != 0),
    {
        match self.interrupt_enable {
            Some(v) => v.data_ready(),
            None => false,
        }
    }

    /// Whether the readback shows the FIFO-overflow source enabled; false when
    /// the read failed.
    pub fn int_fifo_overflow(&self) -> (r: bool)
        ensures
            r == (self.interrupt_enable matches Some(v) && v@ & 0x10 != 0),
    {
        match self.interrupt_enable {
            Some(v) => v.fifo_overflow(),
            None => false,
        }
    }

    /// Whether the readback succeeded and shows no source enabled.
    pub fn interrupt_enable_confirmed_zero(&self) -> (r: bool)
        ensures
            r == confirmed_zero(self.interrupt_enable),
    {
        match self.interrupt_enable {
            Some(v) => v.none_enabled(),
            None => false,
        }
    }

    /// Whether the timing configuration may be attempted.
    pub fn configuration_prerequisites_confirmed(&self) -> (r: bool)
        ensures
            r == prerequisites_hold(*self),
    {
        self.reset_ok && self.wake_ok && self.interrupt_enable_confirmed_zero()
    }
}

/// The waits of the reset and wake, for a transcript of `n` transfers before
/// them: 100 ms after the reset, then 20 ms after the wake.
pub open spec fn reset_wake_waits(n: nat) -> Seq<(nat, u32)> {
    seq![((n + 1) as nat, 100u32), ((n + 2) as nat, 20u32)]
}

/// Resets the device, waits 100 ms, wakes it, waits 20 ms, writes zero to
/// `INT_ENABLE` and reads it back. Every step is made whatever the earlier
/// ones returned.
pub fn reset_wake_check<I2C: I2cBus, D: DelayMs>(mpu: &mut Mpu6050<I2C>, delay: &D) -> (c:
    ResetWakeCheck)
    ensures
        final(mpu).addr() == old(mpu).addr(),
        final(mpu).startup_record() == old(mpu).startup_record(),
        final(mpu).timing_record() == old(mpu).timing_record(),
        final(mpu).acquisition_record() == old(mpu).acquisition_record(),
        final(mpu).waits() == old(mpu).waits() + reset_wake_waits(old(mpu).transcript().len()),
        extends(old(mpu).transcript(), final(mpu).transcript()),
        reset_wake_trace(
            old(mpu).bus_address(),
            appended(old(mpu).transcript(), final(mpu).transcript()),
            c,
        ),
{
    let ghost t0 = mpu.transcript();
    let reset_ok = mpu.reset().is_ok();
    let ghost t1 = mpu.transcript();
    mpu.pause(delay, 100);
    let wake_ok = mpu.wake().is_ok();
    let ghost t2 = mpu.transcript();
    mpu.pause(delay, 20);
    let int_disable_write_ok = mpu.disable_all_interrupts().is_ok();
    let ghost t3 = mpu.transcript();
    let interrupt_enable = match mpu.interrupt_enable() {
        Ok(v) => Some(v),
        Err(_) => None,
    };
    let c = ResetWakeCheck { reset_ok, wake_ok, int_disable_write_ok, interrupt_enable };
    proof {
        let t4 = mpu.transcript();
        lemma_extends_trans(t0, t1, t2);
        lemma_extends_trans(t0, t2, t3);
        lemma_extends_trans(t0, t3, t4);
        let added = appended(t0, t4);
        assert(added == appended(t0, t1) + appended(t1, t2) + appended(t2, t3) + appended(t3, t4));
        assert(added[0] == appended(t0, t1)[0]);
        assert(added[1] == appended(t1, t2)[0]);
        assert(added[2] == appended(t2, t3)[0]);
        assert(added[3] == appended(t3, t4)[0]);
    }
    c
}

/// The timing stages the bring-up log reports, each reached only when the
/// one before it succeeded.
#[derive(Debug, Clone, Copy, PartialEq, Eq)]
pub struct TimingStages {
    pub dlpf_write_attempted: bool,
    pub dlpf_write_ok: bool,
    pub dlpf_read_attempted: bool,
    pub dlpf_read_ok: bool,
    pub dlpf_match: bool,
    pub divider_write_attempted: bool,
    pub divider_write_ok: bool,
    pub divider_read_attempted: bool,
    pub divider_read_ok: bool,
    pub divider_match: bool,
}

/// How many configuration steps completed: all seven unless a failure says
/// otherwise.
pub open spec fn steps_completed(timing: Option<Result<VerifiedSampleTiming, SampleTimingFailure>>) -> u8 {
    match timing {
        Some(Err(f)) => timing_progress(f.error),
        _ => 7,
    }
}

/// The stages reached by a timing configuration that was attempted when
/// `timing` is `Some`, read off how many steps completed.
pub open spec fn stages_of(timing: Option<Result<VerifiedSampleTiming, SampleTimingFailure>>) -> TimingStages {
    let p = steps_completed(timing);
    let dlpf_write_attempted = timing is Some;
    let dlpf_write_ok = dlpf_write_attempted && p >= 1;
    let dlpf_read_ok = dlpf_write_ok && p >= 2;
    let dlpf_match = dlpf_read_ok && p >= 3;
    let divider_write_ok = dlpf_match && p >= 4;
    let divider_read_ok = divider_write_ok && p >= 5;
    TimingStages {
        dlpf_write_attempted,
        dlpf_write_ok,
        dlpf_read_attempted: dlpf_write_ok,
        dlpf_read_ok,
        dlpf_match,
        divider_write_attempted: dlpf_match,
        divider_write_ok,
        divider_read_attempted: divider_write_ok,
        divider_read_ok,
        divider_match: divider_read_ok && p >= 6,
    }
}

/// The outcome of the whole reset, wake and configure sequence.
#[derive(Debug, Clone, Copy, PartialEq, Eq)]
pub struct ResetWakeReport {
    /// Reset, wake and the interrupt readback.
    pub check: ResetWakeCheck,
    /// The timing configuration, when the prerequisites allowed it.
    pub timing: Option<Result<VerifiedSampleTiming, SampleTimingFailure>>,
    /// The accelerometer range was set to ±2 g.
    pub accel_cfg_ok: bool,
    /// The gyroscope range was set to ±250 °/s.
    pub gyro_cfg_ok: bool,
}

impl ResetWakeReport {
    /// Whether the timing registers were written and confirmed.
    pub fn timing_registers_confirmed(&self) -> (r: bool)
        ensures
            r == (self.timing matches Some(Ok(_))),
    {
        matches!(self.timing, Some(Ok(_)))
    }

    /// The filter setting that was confirmed or read back, if any.
    pub fn dlpf(&self) -> (r: Option<Dlpf>)
        ensures
            r == match self.timing {
                Some(Ok(t)) => Some(t.dlpf),
                Some(Err(f)) => f.dlpf,
                None => None,
            },
    {
        match self.timing {
            Some(Ok(t)) => Some(t.dlpf),
            Some(Err(f)) => f.dlpf,
            None => None,
        }
    }

    /// The divider that was confirmed or read back, if any.
    pub fn divider(&self) -> (r: Option<u8>)
        ensures
            r == match self.timing {
                Some(Ok(t)) => Some(t.divider),
                Some(Err(f)) => f.divider,
                None => None,
            },
    {
        match self.timing {
            Some(Ok(t)) => Some(t.divider),
            Some(Err(f)) => f.divider,
            None => None,
        }
    }

    /// The stages of the timing configuration that were reached.
    pub fn timing_stages(&self) -> (s: TimingStages)
        ensures
            s == stages_of(self.timing),
    {
        let p: u8 = match self.timing {
            Some(Err(f)) => f.error.progress(),
            _ => 7,
        };
        let dlpf_write_attempted = self.timing.is_some();
        let dlpf_write_ok = dlpf_write_attempted && p >= 1;
        let dlpf_read_ok = dlpf_write_ok && p >= 2;
        let dlpf_match = dlpf_read_ok && p >= 3;
        let divider_write_ok = dlpf_match && p >= 4;
        let divider_read_ok = divider_write_ok && p >= 5;
        TimingStages {
            dlpf_write_attempted,
            dlpf_write_ok,
            dlpf_read_attempted: dlpf_write_ok,
            dlpf_read_ok,
            dlpf_match,
            divider_write_attempted: dlpf_match,
            divider_write_ok,
            divider_read_attempted: divider_write_ok,
            divider_read_ok,
            divider_match: divider_read_ok && p >= 6,
        }
    }

    /// The stage at which the timing configuration stopped, as the bring-up
    /// log names it.
    pub fn failure_stage(&self) -> (s: &'static str)
        ensures
            s@ == match self.timing {
                Some(Err(f)) => crate::startup::timing_error_text(f.error),
                Some(Ok(_)) => "none"@,
                None => "dlpf_write_not_attempted"@,
            },
    {
        match self.timing {
            Some(Err(f)) => f.error.as_str(),
            Some(Ok(_)) => "none",
            None => "dlpf_write_not_attempted",
        }
    }
}

/// The transfers that follow the reset and wake when the timing was
/// confirmed: those of the timing operations `calls`, then a masked write of
/// the ±2 g accelerometer range and one of the ±250 °/s gyroscope range, whose
/// results `accel_ok` and `gyro_ok` report.
pub open spec fn timing_then_ranges<E>(
    rest: Seq<BusOp<E>>,
    address: u8,
    calls: Seq<TimingCall>,
    accel_ok: bool,
    gyro_ok: bool,
) -> bool {
    exists|i: int, j: int, ra: Result<(), E>, rg: Result<(), E>|
        #![trigger timing_trace(address, rest.take(i), calls), masked_write_trace(address, ACCEL_CONFIG, ACCEL_RANGE_MASK, 0, rest.subrange(i, j), ra), masked_write_trace(address, GYRO_CONFIG, GYRO_RANGE_MASK, 0, rest.subrange(j, rest.len() as int), rg)]
        0 <= i <= j <= rest.len() && timing_trace(address, rest.take(i), calls) && masked_write_trace(
            address,
            ACCEL_CONFIG,
            ACCEL_RANGE_MASK,
            0,
            rest.subrange(i, j),
            ra,
        ) && masked_write_trace(
            address,
            GYRO_CONFIG,
            GYRO_RANGE_MASK,
            0,
            rest.subrange(j, rest.len() as int),
            rg,
        ) && accel_ok == ra is Ok && gyro_ok == rg is Ok
}

/// Resets, wakes and checks the device as [`reset_wake_check`] does; only if
/// the reset and the wake succeeded and no interrupt source is enabled does it
/// configure the sample timing, and only if that was confirmed does it set the
/// ±2 g and ±250 °/s ranges.
///
/// The transfers after the first four are those of the timing operations
/// recorded, then, only when the timing was confirmed, the two range writes.
pub fn reset_wake_configure<I2C: I2cBus, D: DelayMs>(mpu: &mut Mpu6050<I2C>, delay: &D) -> (r:
    ResetWakeReport)
    ensures
        final(mpu).addr() == old(mpu).addr(),
        extends(old(mpu).transcript(), final(mpu).transcript()),
        appended(old(mpu).transcript(), final(mpu).transcript()).len() >= 4,
        final(mpu).waits() == old(mpu).waits() + reset_wake_waits(old(mpu).transcript().len()),
        reset_wake_trace(
            old(mpu).bus_address(),
            appended(old(mpu).transcript(), final(mpu).transcript()).take(4),
            r.check,
        ),
        (r.timing is Some) == prerequisites_hold(r.check),
        r.timing matches Some(t) ==> timing_result_consistent(t),
        !prerequisites_hold(r.check) ==> appended(old(mpu).transcript(), final(mpu).transcript()).len()
            == 4,
        r.timing is None ==> final(mpu).timing_record() == old(mpu).timing_record(),
        r.timing matches Some(t) ==> {
            &&& grew(old(mpu).timing_record(), final(mpu).timing_record())
            &&& timing_exchange(added(old(mpu).timing_record(), final(mpu).timing_record()), t)
        },
        !(r.timing matches Some(Ok(_))) ==> !r.accel_cfg_ok && !r.gyro_cfg_ok,
        r.timing matches Some(Err(_)) ==> timing_trace(
            old(mpu).bus_address(),
            appended(old(mpu).transcript(), final(mpu).transcript()).skip(4),
            added(old(mpu).timing_record(), final(mpu).timing_record()),
        ),
        r.timing matches Some(Ok(_)) ==> timing_then_ranges(
            appended(old(mpu).transcript(), final(mpu).transcript()).skip(4),
            old(mpu).bus_address(),
            added(old(mpu).timing_record(), final(mpu).timing_record()),
            r.accel_cfg_ok,
            r.gyro_cfg_ok,
        ),
{
    let ghost t0 = mpu.transcript();
    let check = reset_wake_check(mpu, delay);
    let ghost tc = mpu.transcript();
    proof {
        assert(appended(t0, tc).take(4) =~= appended(t0, tc));
    }
    if !check.configuration_prerequisites_confirmed() {
        return ResetWakeReport { check, timing: None, accel_cfg_ok: false, gyro_cfg_ok: false };
    }
    let ghost before_timing = *mpu;
    let timing = configure_sample_timing(mpu);
    proof {
        crate::startup::lemma_reached_device(
            before_timing,
            *mpu,
            added(before_timing.timing_record(), mpu.timing_record()),
        );
        crate::bus::lemma_extends_trans(t0, tc, mpu.transcript());
        assert(appended(t0, mpu.transcript()).take(4) =~= appended(t0, tc));
        assert(appended(t0, mpu.transcript()).skip(4) =~= appended(tc, mpu.transcript()));
    }
    if timing.is_err() {
        return ResetWakeReport {
            check,
            timing: Some(timing),
            accel_cfg_ok: false,
            gyro_cfg_ok: false,
        };
    }
    let ghost t1 = mpu.transcript();
    let accel = mpu.set_accel_range(AccelRange::G2);
    let ghost t2 = mpu.transcript();
    let gyro = mpu.set_gyro_range(GyroRange::Dps250);
    proof {
        let t3 = mpu.transcript();
        crate::bus::lemma_extends_trans(t1, t2, t3);
        crate::bus::lemma_extends_trans(t0, t1, t3);
        assert(appended(t0, t3).take(4) =~= appended(t0, tc));
        let i = t1.len() as int;
        let j = t2.len() as int;
        assert(t3.subrange(i, j) =~= appended(t1, t2));
        assert(t3.subrange(j, t3.len() as int) =~= appended(t2, t3));
        assert(accel_range_index(AccelRange::G2) * 8 == 0);
        assert(gyro_range_index(GyroRange::Dps250) * 8 == 0);
        assert(masked_write_trace(mpu.bus_address(), ACCEL_CONFIG, ACCEL_RANGE_MASK, 0, t3.subrange(i, j), accel));
        assert(masked_write_trace(mpu.bus_address(), GYRO_CONFIG, GYRO_RANGE_MASK, 0, t3.subrange(j, t3.len() as int), gyro));
        let rest = appended(t0, t3).skip(4);
        let ri = (t1.len() - tc.len()) as int;
        let rj = (t2.len() - tc.len()) as int;
        assert(rest =~= appended(tc, t3));
        assert(rest.take(ri) =~= appended(tc, t1));
        assert(rest.subrange(ri, rj) =~= t3.subrange(i, j));
        assert(rest.subrange(rj, rest.len() as int) =~= t3.subrange(j, t3.len() as int));
        assert(timing_trace(mpu.bus_address(), rest.take(ri), added(old(mpu).timing_record(), mpu.timing_record())));
    }
    ResetWakeReport { check, timing: Some(timing), accel_cfg_ok: accel.is_ok(), gyro_cfg_ok: gyro.is_ok() }
}

/// The interrupt status check: with every source disabled and confirmed
/// off, enable data-ready, read the latched status once, then disable every
/// source again and confirm it.
#[derive(Debug, Clone, Copy, PartialEq, Eq)]
pub struct IntStatusCheck {
    /// The first write of zero to `INT_ENABLE` succeeded.
    pub pre_disable_write_ok: bool,
    /// `INT_ENABLE` as read back after that write.
    pub pre_enable: Option<InterruptEnable>,
    /// Data-ready was enabled; only attempted when the readback was zero.
    pub enable_ok: bool,
    /// `INT_STATUS`, read only after data-ready was enabled.
    pub status: Option<IntStatus>,
    /// The final write of zero to `INT_ENABLE` succeeded.
    pub final_disable_write_ok: bool,
    /// `INT_ENABLE` as read back after the final write.
    pub final_enable: Option<InterruptEnable>,
}

/// The middle of the interrupt status check: nothing unless the first
/// readback was zero; then the read-modify-write that sets data-ready, and one
/// `INT_STATUS` read only if it succeeded.
pub open spec fn data_ready_step<E>(address: u8, mid: Seq<BusOp<E>>, c: IntStatusCheck) -> bool {
    if !confirmed_zero(c.pre_enable) {
        &&& mid.len() == 0
        &&& !c.enable_ok
        &&& c.status is None
    } else if c.enable_ok {
        &&& mid.len() >= 1
        &&& masked_write_trace(address, INT_ENABLE, 0x01, 0x01, mid.drop_last(), Ok::<(), E>(()))
        &&& is_register_read(mid.last(), address, INT_STATUS, 1)
        &&& read_back(mid.last(), c.status)
    } else {
        &&& c.status is None
        &&& exists|e: E|
            #![trigger masked_write_trace(address, INT_ENABLE, 0x01, 0x01, mid, Err::<(), E>(e))]
            masked_write_trace(address, INT_ENABLE, 0x01, 0x01, mid, Err::<(), E>(e))
    }
}

/// The transfers of the interrupt status check and what each returned: a
/// write of zero to `INT_ENABLE` and a readback; only when that readback is
/// zero, the read-modify-write that sets data-ready, and only when that
/// succeeded, one `INT_STATUS` read; then, in every case, a final write of zero
/// and a final readback.
pub open spec fn int_status_trace<E>(address: u8, added: Seq<BusOp<E>>, c: IntStatusCheck) -> bool {
    let n = added.len();
    let mid = added.subrange(2, n - 2);
    &&& n >= 4
    &&& written(added[0], address, INT_ENABLE, 0x00, c.pre_disable_write_ok)
    &&& is_register_read(added[1], address, INT_ENABLE, 1)
    &&& read_back(added[1], c.pre_enable)
    &&& data_ready_step(address, mid, c)
    &&& written(added[n - 2], address, INT_ENABLE, 0x00, c.final_disable_write_ok)
    &&& is_register_read(added[n - 1], address, INT_ENABLE, 1)
    &&& read_back(added[n - 1], c.final_enable)
}

impl IntStatusCheck {
    /// Whether the first readback confirmed no source enabled; data-ready is
    /// enabled only then.
    pub fn pre_confirmed_zero(&self) -> (r: bool)
        ensures
            r == confirmed_zero(self.pre_enable),
    {
        match self.pre_enable {
            Some(v) => v.none_enabled(),
            None => false,
        }
    }

    /// Whether the final readback confirmed no source enabled: the state
    /// acquisition starts from.
    pub fn final_confirmed_zero(&self) -> (r: bool)
        ensures
            r == confirmed_zero(self.final_enable),
    {
        match self.final_enable {
            Some(v) => v.none_enabled(),
            None => false,
        }
    }
}

/// Disables every interrupt source and reads `INT_ENABLE` back; only if it
/// reads zero, enables data-ready, and only if that succeeded, waits 10 ms and
/// reads `INT_STATUS`; then disables every source again and reads it back.
pub fn validate_int_status<I2C: I2cBus, D: DelayMs>(mpu: &mut Mpu6050<I2C>, delay: &D) -> (c:
    IntStatusCheck)
    ensures
        final(mpu).addr() == old(mpu).addr(),
        extends(old(mpu).transcript(), final(mpu).transcript()),
        int_status_trace(
            old(mpu).bus_address(),
            appended(old(mpu).transcript(), final(mpu).transcript()),
            c,
        ),
        final(mpu).waits() == old(mpu).waits() + if c.enable_ok {
            seq![((old(mpu).transcript().len() + 4) as nat, 10u32)]
        } else {
            Seq::<(nat, u32)>::empty()
        },
{
    let ghost t0 = mpu.transcript();
    let pre_disable_write_ok = mpu.disable_all_interrupts().is_ok();
    let ghost t1 = mpu.transcript();
    let pre_enable = match mpu.interrupt_enable() {
        Ok(v) => Some(v),
        Err(_) => None,
    };
    let ghost t2 = mpu.transcript();
    let pre_zero = match pre_enable {
        Some(v) => v.none_enabled(),
        None => false,
    };
    let mut enable_ok = false;
    let mut status: Option<IntStatus> = None;
    let ghost mut t3 = t2;
    if pre_zero {
        let enabled = mpu.enable_data_ready_interrupt();
        proof {
            t3 = mpu.transcript();
        }
        enable_ok = enabled.is_ok();
        if enable_ok {
            mpu.pause(delay, 10);
            status = match mpu.int_status() {
                Ok(v) => Some(v),
                Err(_) => None,
            };
            proof {
                let t4 = mpu.transcript();
                lemma_extends_trans(t2, t3, t4);
                assert(appended(t2, t4).drop_last() =~= appended(t2, t3));
                assert(appended(t2, t4).last() == appended(t3, t4)[0]);
                match enabled {
                    Ok(u) => {
                        assert(u == ());
                    },
                    Err(_) => {},
                }
                assert(enabled == Ok::<(), I2C::Error>(()));
                assert(confirmed_zero(pre_enable));
                assert(data_ready_step(
                    mpu.bus_address(),
                    appended(t2, t4),
                    IntStatusCheck {
                        pre_disable_write_ok,
                        pre_enable,
                        enable_ok,
                        status,
                        final_disable_write_ok: false,
                        final_enable: None,
                    },
                ));
            }
        } else {
            proof {
                match enabled {
                    Err(e) => {
                        assert(masked_write_trace(
                            mpu.bus_address(),
                            INT_ENABLE,
                            0x01,
                            0x01,
                            appended(t2, t3),
                            Err::<(), I2C::Error>(e),
                        ));
                    },
                    Ok(_) => {},
                }
            }
        }
    }
    let ghost t5 = mpu.transcript();
    proof {
        if !pre_zero {
            assert(t5.subrange(0, t2.len() as int) =~= t2);
            assert(appended(t2, t5) =~= Seq::<BusOp<I2C::Error>>::empty());
        }
    }
    let final_disable_write_ok = mpu.disable_all_interrupts().is_ok();
    let ghost t6 = mpu.transcript();
    let final_enable = match mpu.interrupt_enable() {
        Ok(v) => Some(v),
        Err(_) => None,
    };
    let c = IntStatusCheck {
        pre_disable_write_ok,
        pre_enable,
        enable_ok,
        status,
        final_disable_write_ok,
        final_enable,
    };
    proof {
        let t7 = mpu.transcript();
        lemma_extends_trans(t0, t1, t2);
        lemma_extends_trans(t0, t2, t5);
        lemma_extends_trans(t0, t5, t6);
        lemma_extends_trans(t0, t6, t7);
        let added = appended(t0, t7);
        let n = added.len();
        assert(added == appended(t0, t1) + appended(t1, t2) + appended(t2, t5) + appended(t5, t6)
            + appended(t6, t7));
        assert(added[0] == appended(t0, t1)[0]);
        assert(added[1] == appended(t1, t2)[0]);
        assert(added.subrange(2, n - 2) =~= appended(t2, t5));
        assert(added[n - 2] == appended(t5, t6)[0]);
        assert(added[n - 1] == appended(t6, t7)[0]);
    }
    c
}

/// Integer means of the six motion axes over several raw reads.
#[derive(Debug, Clone, Copy, PartialEq, Eq)]
pub struct RawAverage {
    pub ax: i32,
    pub ay: i32,
    pub az: i32,
    pub gx: i32,
    pub gy: i32,
    pub gz: i32,
}

/// Axis `axis` of `raw`: 0, 1, 2 are the accelerometer's x, y, z and 3, 4, 5
/// the gyroscope's.
pub open spec fn axis_value(raw: RawAccelGyroTemp, axis: int) -> int {
    if axis == 0 {
        raw.accel[0] as int
    } else if axis == 1 {
        raw.accel[1] as int
    } else if axis == 2 {
        raw.accel[2] as int
    } else if axis == 3 {
        raw.gyro[0] as int
    } else if axis == 4 {
        raw.gyro[1] as int
    } else {
        raw.gyro[2] as int
    }
}

/// The sum of axis `axis` over the successful reads in `reads`.
pub open spec fn axis_sum<E>(reads: Seq<Result<RawAccelGyroTemp, E>>, axis: int) -> int
    decreases reads.len(),
{
    if reads.len() == 0 {
        0
    } else {
        axis_sum(reads.drop_last(), axis) + match reads.last() {
            Ok(raw) => axis_value(raw, axis),
            Err(_) => 0,
        }
    }
}

/// `a / b` for `b > 0`, rounded toward zero.
pub open spec fn div_pos_toward_zero(a: int, b: int) -> int {
    if a >= 0 {
        a / b
    } else {
        -((-a) / b)
    }
}

/// `a / b` rounded toward zero, as `/` on Rust integers computes it.
pub open spec fn div_toward_zero(a: int, b: int) -> int {
    if b < 0 {
        -div_pos_toward_zero(a, -b)
    } else {
        div_pos_toward_zero(a, b)
    }
}

/// The means of `reads` over `samples`, each rounded toward zero.
pub open spec fn average_of<E>(reads: Seq<Result<RawAccelGyroTemp, E>>, samples: int) -> RawAverage {
    RawAverage {
        ax: div_toward_zero(axis_sum(reads, 0), samples) as i32,
        ay: div_toward_zero(axis_sum(reads, 1), samples) as i32,
        az: div_toward_zero(axis_sum(reads, 2), samples) as i32,
        gx: div_toward_zero(axis_sum(reads, 3), samples) as i32,
        gy: div_toward_zero(axis_sum(reads, 4), samples) as i32,
        gz: div_toward_zero(axis_sum(reads, 5), samples) as i32,
    }
}

/// The number of reads `average_raw` makes when none fails.
pub open spec fn read_count(samples: i32) -> int {
    if samples > 0 {
        samples as int
    } else {
        0
    }
}

/// The reads of an averaging run: block reads, all successful but possibly
/// the last, and no more than asked for; with `r` the average when all
/// succeeded, or nothing when the last failed.
pub open spec fn average_trace<E>(
    address: u8,
    added: Seq<BusOp<E>>,
    samples: i32,
    r: Option<RawAverage>,
) -> bool {
    let reads = block_results(added);
    &&& all_block_reads(added, address)
    &&& reads.len() <= read_count(samples)
    &&& forall|i: int| 0 <= i < reads.len() - 1 ==> #[trigger] reads[i] is Ok
    &&& match r {
        None => reads.len() >= 1 && reads.last() is Err,
        Some(avg) => {
            &&& reads.len() == read_count(samples)
            &&& forall|i: int| 0 <= i < reads.len() ==> #[trigger] reads[i] is Ok
            &&& avg == average_of(reads, samples as int)
        },
    }
}

/// A signed sum bounded by `count` readings of 16 bits fits in an `i32`.
proof fn lemma_sum_bound(count: int)
    requires
        0 <= count <= 65536,
    ensures
        -32768 * count >= i32::MIN,
        32767 * count <= i32::MAX,
{
}

/// `k` waits of `ms` milliseconds, one after each of the transfers that
/// follow the first `n`.
pub open spec fn spaced_waits(n: nat, k: int, ms: u32) -> Seq<(nat, u32)> {
    Seq::new(k as nat, |j: int| ((n + j + 1) as nat, ms))
}

/// Reads `samples` raw blocks, 10 ms apart, and averages each motion axis,
/// rounding toward zero; nothing if any read fails, and no read is made after
/// a failure. A negative count makes no read and gives zeros.
pub fn average_raw<I2C: I2cBus, D: DelayMs>(mpu: &mut Mpu6050<I2C>, delay: &D, samples: i32) -> (r:
    Option<RawAverage>)
    requires
        samples != 0,
        samples <= 65536,
    ensures
        final(mpu).addr() == old(mpu).addr(),
        extends(old(mpu).transcript(), final(mpu).transcript()),
        average_trace(
            old(mpu).bus_address(),
            appended(old(mpu).transcript(), final(mpu).transcript()),
            samples,
            r,
        ),
        final(mpu).waits() == old(mpu).waits() + spaced_waits(
            old(mpu).transcript().len(),
            appended(old(mpu).transcript(), final(mpu).transcript()).len() - if r is None {
                1int
            } else {
                0int
            },
            10,
        ),
{
    let ghost t0 = mpu.transcript();
    let ghost address = mpu.bus_address();
    let count: i32 = if samples > 0 {
        samples
    } else {
        0
    };
    let mut ax: i32 = 0;
    let mut ay: i32 = 0;
    let mut az: i32 = 0;
    let mut gx: i32 = 0;
    let mut gy: i32 = 0;
    let mut gz: i32 = 0;
    let mut i: i32 = 0;
    proof {
        assert(mpu.transcript().subrange(0, t0.len() as int) =~= t0);
        assert(block_results(appended(t0, mpu.transcript())) =~= Seq::<
            Result<RawAccelGyroTemp, I2C::Error>,
        >::empty());
    }
    while i < count
        invariant
            0 <= i <= count,
            count == read_count(samples),
            count <= 65536,
            mpu.addr() == old(mpu).addr(),
            t0 == old(mpu).transcript(),
            address == old(mpu).bus_address(),
            extends(t0, mpu.transcript()),
            mpu.transcript().len() == t0.len() + i,
            mpu.waits() == old(mpu).waits() + spaced_waits(t0.len(), i as int, 10),
            all_block_reads(appended(t0, mpu.transcript()), address),
            block_results(appended(t0, mpu.transcript())).len() == i,
            forall|j: int|
                0 <= j < i ==> #[trigger] block_results(appended(t0, mpu.transcript()))[j] is Ok,
            ax == axis_sum(block_results(appended(t0, mpu.transcript())), 0),
            ay == axis_sum(block_results(appended(t0, mpu.transcript())), 1),
            az == axis_sum(block_results(appended(t0, mpu.transcript())), 2),
            gx == axis_sum(block_results(appended(t0, mpu.transcript())), 3),
            gy == axis_sum(block_results(appended(t0, mpu.transcript())), 4),
            gz == axis_sum(block_results(appended(t0, mpu.transcript())), 5),
            -32768 * i <= ax <= 32767 * i,
            -32768 * i <= ay <= 32767 * i,
            -32768 * i <= az <= 32767 * i,
            -32768 * i <= gx <= 32767 * i,
            -32768 * i <= gy <= 32767 * i,
            -32768 * i <= gz <= 32767 * i,
        decreases count - i,
    {
        let ghost t1 = mpu.transcript();
        let read = mpu.read_raw_accel_gyro_temp();
        let ghost reads = block_results(appended(t0, mpu.transcript()));
        proof {
            let t2 = mpu.transcript();
            lemma_extends_trans(t0, t1, t2);
            assert(appended(t0, t2) =~= appended(t0, t1).push(appended(t1, t2)[0]));
            assert(reads =~= block_results(appended(t0, t1)).push(raw_result(appended(t1, t2)[0])));
            assert(reads.drop_last() =~= block_results(appended(t0, t1)));
            assert forall|j: int| 0 <= j < appended(t0, t2).len() implies is_register_read(
                #[trigger] appended(t0, t2)[j],
                address,
                ACCEL_XOUT_H,
                14,
            ) by {
                if j < appended(t0, t1).len() {
                    assert(appended(t0, t2)[j] == appended(t0, t1)[j]);
                }
            }
        }
        let raw = match read {
            Ok(raw) => raw,
            Err(_) => {
                return None;
            },
        };
        proof {
            lemma_sum_bound(i + 1);
        }
        ax = ax + raw.accel[0] as i32;
        ay = ay + raw.accel[1] as i32;
        az = az + raw.accel[2] as i32;
        gx = gx + raw.gyro[0] as i32;
        gy = gy + raw.gyro[1] as i32;
        gz = gz + raw.gyro[2] as i32;
        mpu.pause(delay, 10);
        proof {
            assert(spaced_waits(t0.len(), i as int, 10).push(((t0.len() + i + 1) as nat, 10u32))
                =~= spaced_waits(t0.len(), i + 1, 10));
        }
        i = i + 1;
    }
    let avg = RawAverage {
        ax: ax / samples,
        ay: ay / samples,
        az: az / samples,
        gx: gx / samples,
        gy: gy / samples,
        gz: gz / samples,
    };
    proof {
        let reads = block_results(appended(t0, mpu.transcript()));
        assert(avg == average_of(reads, samples as int));
    }
    Some(avg)
}

/// One step of the range register check.
#[derive(Debug, Clone, Copy, PartialEq, Eq)]
pub struct ScaleRangeWrite {
    /// The 2-bit range setting written to both sensors.
    pub setting: u8,
    /// The accelerometer range write succeeded.
    pub accel_write: bool,
    /// The gyroscope range write succeeded.
    pub gyro_write: bool,
}

/// `ops` is a read-modify-write of `value` through `mask` into `register`, and
/// `ok` tells whether it succeeded.
pub open spec fn range_write<E>(
    address: u8,
    register: u8,
    mask: u8,
    value: u8,
    ops: Seq<BusOp<E>>,
    ok: bool,
) -> bool {
    exists|r: Result<(), E>|
        #![trigger masked_write_trace(address, register, mask, value, ops, r)]
        masked_write_trace(address, register, mask, value, ops, r) && ok == r is Ok
}

/// `cuts` splits `0..len` into consecutive pieces.
pub open spec fn splits(cuts: Seq<int>, len: int) -> bool {
    &&& cuts.len() >= 1
    &&& cuts[0] == 0
    &&& cuts.last() == len
    &&& forall|i: int| 0 <= i < cuts.len() - 1 ==> #[trigger] cuts[i] <= cuts[i + 1]
}

/// Step `k` of the range check occupies pieces `2k` and `2k + 1` of `ops`:
/// the accelerometer write of setting `k`, then the gyroscope write.
pub open spec fn scale_step<E>(
    address: u8,
    ops: Seq<BusOp<E>>,
    cuts: Seq<int>,
    k: int,
    step: ScaleRangeWrite,
) -> bool {
    &&& step.setting == k
    &&& range_write(
        address,
        ACCEL_CONFIG,
        ACCEL_RANGE_MASK,
        (k * 8) as u8,
        ops.subrange(cuts[2 * k], cuts[2 * k + 1]),
        step.accel_write,
    )
    &&& range_write(
        address,
        GYRO_CONFIG,
        GYRO_RANGE_MASK,
        (k * 8) as u8,
        ops.subrange(cuts[2 * k + 1], cuts[2 * k + 2]),
        step.gyro_write,
    )
}

/// The transfers of the range check: for each setting from 0 to 3 in turn,
/// the accelerometer range write and then the gyroscope range write, each
/// made whatever the others returned; then ±2 g and ±250 °/s written back.
pub open spec fn scale_check_trace<E>(
    address: u8,
    ops: Seq<BusOp<E>>,
    steps: Seq<ScaleRangeWrite>,
) -> bool {
    &&& steps.len() == 4
    &&& exists|cuts: Seq<int>|
        #![trigger splits(cuts, ops.len() as int)]
        {
            &&& splits(cuts, ops.len() as int)
            &&& cuts.len() == 11
            &&& forall|k: int| 0 <= k < 4 ==> scale_step(address, ops, cuts, k, #[trigger] steps[k])
            &&& range_write(
                address,
                ACCEL_CONFIG,
                ACCEL_RANGE_MASK,
                0,
                ops.subrange(cuts[8], cuts[9]),
                true,
            ) || range_write(
                address,
                ACCEL_CONFIG,
                ACCEL_RANGE_MASK,
                0,
                ops.subrange(cuts[8], cuts[9]),
                false,
            )
            &&& range_write(
                address,
                GYRO_CONFIG,
                GYRO_RANGE_MASK,
                0,
                ops.subrange(cuts[9], cuts[10]),
                true,
            ) || range_write(
                address,
                GYRO_CONFIG,
                GYRO_RANGE_MASK,
                0,
                ops.subrange(cuts[9], cuts[10]),
                false,
            )
        }
}

/// Extending `ops` leaves its pieces as they were.
proof fn lemma_pieces_kept<E>(
    address: u8,
    ops: Seq<BusOp<E>>,
    more: Seq<BusOp<E>>,
    cuts: Seq<int>,
    extra: Seq<int>,
    steps: Seq<ScaleRangeWrite>,
    count: int,
)
    requires
        0 <= count,
        cuts.len() == 2 * count + 1,
        splits(cuts, ops.len() as int),
        ops.len() <= more.len(),
        more.subrange(0, ops.len() as int) == ops,
        steps.len() >= count,
        forall|k: int| 0 <= k < count ==> scale_step(address, ops, cuts, k, #[trigger] steps[k]),
    ensures
        forall|k: int|
            0 <= k < count ==> scale_step(address, more, cuts + extra, k, #[trigger] steps[k]),
{
    assert forall|k: int| 0 <= k < count implies scale_step(
        address,
        more,
        cuts + extra,
        k,
        #[trigger] steps[k],
    ) by {
        let c = cuts + extra;
        assert(scale_step(address, ops, cuts, k, steps[k]));
        assert(c[2 * k] == cuts[2 * k] && c[2 * k + 1] == cuts[2 * k + 1] && c[2 * k + 2] == cuts[2
            * k + 2]);
        lemma_splits_bounds(cuts, ops.len() as int, 2 * k);
        lemma_splits_bounds(cuts, ops.len() as int, 2 * k + 1);
        lemma_splits_bounds(cuts, ops.len() as int, 2 * k + 2);
        assert(cuts[2 * k] <= cuts[2 * k + 1]);
        assert(cuts[2 * k + 1] <= cuts[2 * k + 2]);
        assert(more.subrange(cuts[2 * k], cuts[2 * k + 1]) =~= ops.subrange(
            cuts[2 * k],
            cuts[2 * k + 1],
        ));
        assert(more.subrange(cuts[2 * k + 1], cuts[2 * k + 2]) =~= ops.subrange(
            cuts[2 * k + 1],
            cuts[2 * k + 2],
        ));
    }
}

/// Every cut lies within `0..=len`.
proof fn lemma_splits_bounds(cuts: Seq<int>, len: int, i: int)
    requires
        splits(cuts, len),
        0 <= i < cuts.len(),
    ensures
        0 <= cuts[i] <= len,
    decreases cuts.len() - i,
{
    lemma_splits_lower(cuts, len, i);
    if i < cuts.len() - 1 {
        lemma_splits_bounds(cuts, len, i + 1);
        assert(cuts[i] <= cuts[i + 1]);
    }
}

/// Every cut is at least the first.
proof fn lemma_splits_lower(cuts: Seq<int>, len: int, i: int)
    requires
        splits(cuts, len),
        0 <= i < cuts.len(),
    ensures
        0 <= cuts[i],
    decreases i,
{
    if i > 0 {
        lemma_splits_lower(cuts, len, i - 1);
        assert(cuts[i - 1] <= cuts[i]);
    }
}

/// Writes each accelerometer and gyroscope range setting from 0 to 3 in
/// turn, then sets ±2 g and ±250 °/s again.
pub fn validate_scale_registers<I2C: I2cBus>(mpu: &mut Mpu6050<I2C>) -> (steps: Vec<
    ScaleRangeWrite,
>)
    ensures
        final(mpu).addr() == old(mpu).addr(),
        extends(old(mpu).transcript(), final(mpu).transcript()),
        scale_check_trace(
            old(mpu).bus_address(),
            appended(old(mpu).transcript(), final(mpu).transcript()),
            steps@,
        ),
{
    let ghost t0 = mpu.transcript();
    let ghost address = mpu.bus_address();
    let mut steps: Vec<ScaleRangeWrite> = Vec::new();
    let ghost mut cuts: Seq<int> = seq![0];
    let mut setting: u8 = 0;
    proof {
        assert(mpu.transcript().subrange(0, t0.len() as int) =~= t0);
        assert(appended(t0, mpu.transcript()).len() == 0);
    }
    while setting < 4
        invariant
            setting <= 4,
            steps@.len() == setting,
            mpu.addr() == old(mpu).addr(),
            t0 == old(mpu).transcript(),
            address == old(mpu).bus_address(),
            extends(t0, mpu.transcript()),
            cuts.len() == 2 * setting + 1,
            splits(cuts, appended(t0, mpu.transcript()).len() as int),
            forall|k: int|
                0 <= k < setting ==> scale_step(
                    address,
                    appended(t0, mpu.transcript()),
                    cuts,
                    k,
                    #[trigger] steps@[k],
                ),
        decreases 4 - setting,
    {
        let ghost t1 = mpu.transcript();
        let accel = mpu.set_accel_range(crate::startup::accel_range_from_setting(setting));
        let ghost t2 = mpu.transcript();
        let gyro = mpu.set_gyro_range(crate::startup::gyro_range_from_setting(setting));
        let ghost t3 = mpu.transcript();
        let step = ScaleRangeWrite { setting, accel_write: accel.is_ok(), gyro_write: gyro.is_ok() };
        let ghost old_steps = steps@;
        steps.push(step);
        proof {
            lemma_extends_trans(t0, t1, t2);
            lemma_extends_trans(t0, t2, t3);
            let before = appended(t0, t1);
            let mid = appended(t0, t2);
            let ops = appended(t0, t3);
            let extra = seq![mid.len() as int, ops.len() as int];
            let c = cuts + extra;
            assert(ops.subrange(0, before.len() as int) =~= before);
            lemma_pieces_kept(address, before, ops, cuts, extra, old_steps, setting as int);
            assert(ops.subrange(before.len() as int, mid.len() as int) =~= appended(t1, t2));
            assert(ops.subrange(mid.len() as int, ops.len() as int) =~= appended(t2, t3));
            let k = setting as int;
            assert(c[2 * k] == before.len() && c[2 * k + 1] == mid.len() && c[2 * k + 2]
                == ops.len());
            assert(masked_write_trace(
                address,
                ACCEL_CONFIG,
                ACCEL_RANGE_MASK,
                (k * 8) as u8,
                ops.subrange(c[2 * k], c[2 * k + 1]),
                accel,
            ));
            assert(masked_write_trace(
                address,
                GYRO_CONFIG,
                GYRO_RANGE_MASK,
                (k * 8) as u8,
                ops.subrange(c[2 * k + 1], c[2 * k + 2]),
                gyro,
            ));
            assert(scale_step(address, ops, c, k, steps@[k]));
            assert forall|k2: int| 0 <= k2 < setting + 1 implies scale_step(
                address,
                ops,
                c,
                k2,
                #[trigger] steps@[k2],
            ) by {
                if k2 < setting {
                    assert(steps@[k2] == old_steps[k2]);
                }
            }
            assert forall|i: int| 0 <= i < c.len() - 1 implies #[trigger] c[i] <= c[i + 1] by {
                if i < cuts.len() - 1 {
                    assert(cuts[i] <= cuts[i + 1]);
                }
            }
            cuts = c;
        }
        setting = setting + 1;
    }
    let ghost t4 = mpu.transcript();
    let accel = mpu.set_accel_range(AccelRange::G2);
    let ghost t5 = mpu.transcript();
    let gyro = mpu.set_gyro_range(GyroRange::Dps250);
    proof {
        let t6 = mpu.transcript();
        lemma_extends_trans(t0, t4, t5);
        lemma_extends_trans(t0, t5, t6);
        let before = appended(t0, t4);
        let mid = appended(t0, t5);
        let ops = appended(t0, t6);
        let extra = seq![mid.len() as int, ops.len() as int];
        let c = cuts + extra;
        assert(ops.subrange(0, before.len() as int) =~= before);
        lemma_pieces_kept(address, before, ops, cuts, extra, steps@, 4);
        assert(ops.subrange(before.len() as int, mid.len() as int) =~= appended(t4, t5));
        assert(ops.subrange(mid.len() as int, ops.len() as int) =~= appended(t5, t6));
        assert(c[8] == before.len() && c[9] == mid.len() && c[10] == ops.len());
        assert(masked_write_trace(address, ACCEL_CONFIG, ACCEL_RANGE_MASK, 0, ops.subrange(c[8], c[9]), accel));
        assert(masked_write_trace(address, GYRO_CONFIG, GYRO_RANGE_MASK, 0, ops.subrange(c[9], c[10]), gyro));
        assert forall|i: int| 0 <= i < c.len() - 1 implies #[trigger] c[i] <= c[i + 1] by {
            if i < cuts.len() - 1 {
                assert(cuts[i] <= cuts[i + 1]);
            }
        }
        assert(splits(c, ops.len() as int));
    }
    steps
}

} // verus!
