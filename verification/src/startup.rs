//! Start-up decisions of the acquisition firmware: the data-ready interrupt
//! bring-up, the sample-timing configuration and the identity evidence score.
use crate::bus::{appended, extends, is_register_read, read_result, register_write_op, BusOp, I2cBus};
use crate::config::{dlpf_base_rate, dlpf_index, AccelRange, Dlpf, GyroRange, Identity};
use crate::device::{byte_result, dlpf_read_result, masked_write_trace, Mpu6050};
use crate::registers::{CONFIG, DLPF_CFG_MASK, INT_ENABLE, INT_STATUS, SMPLRT_DIV};
use crate::text::{flag_text, push_flag, push_str};
use vstd::prelude::*;

verus! {

/// 7-bit address of a device with AD0 low.
pub const MPU_ADDR_AD0_LOW: u8 = 0x68;

/// 7-bit address of a device with AD0 high.
pub const MPU_ADDR_AD0_HIGH: u8 = 0x69;

/// Bytes of one accelerometer-plus-gyroscope FIFO frame.
pub const FIFO_ACCEL_GYRO_FRAME_BYTES: u16 = 12;

/// Idle delay while acquisition is blocked, in milliseconds.
pub const BLOCKED_IDLE_DELAY_MS: u32 = 100;

/// The filter setting the firmware configures.
pub const TARGET_DLPF: Dlpf = Dlpf::Cfg2;

/// The exact value written to `SMPLRT_DIV`.
pub const TARGET_SMPLRT_DIV: u8 = 4;

/// The nominal sample rate that the target registers give:
/// 1000 Hz / (1 + 4) = 200 Hz. It says nothing of the physical cadence.
pub const EXPECTED_NOMINAL_SAMPLE_RATE_HZ: u32 = 200;

/// What start-up established; acquisition runs only when all of it holds.
#[derive(Debug, Clone, Copy, PartialEq, Eq)]
pub struct StartupConditions {
    pub diagnostics_complete: bool,
    pub timing_confirmed: bool,
    pub final_interrupts_zero: bool,
    pub gpio_configured: bool,
    pub stale_status_cleared: bool,
    pub enable_success: bool,
    pub exact_data_ready_readback: bool,
}

impl Default for StartupConditions {
    fn default() -> (c: StartupConditions)
        ensures
            c == (StartupConditions {
                diagnostics_complete: false,
                timing_confirmed: false,
                final_interrupts_zero: false,
                gpio_configured: false,
                stale_status_cleared: false,
                enable_success: false,
                exact_data_ready_readback: false,
            }),
    {
        StartupConditions {
            diagnostics_complete: false,
            timing_confirmed: false,
            final_interrupts_zero: false,
            gpio_configured: false,
            stale_status_cleared: false,
            enable_success: false,
            exact_data_ready_readback: false,
        }
    }
}

/// Every start-up condition holds.
pub open spec fn all_conditions_hold(c: StartupConditions) -> bool {
    &&& c.diagnostics_complete
    &&& c.timing_confirmed
    &&& c.final_interrupts_zero
    &&& c.gpio_configured
    &&& c.stale_status_cleared
    &&& c.enable_success
    &&& c.exact_data_ready_readback
}

impl StartupConditions {
    /// Acquisition is allowed only when every condition holds.
    pub fn allows_acquisition(self) -> (r: bool)
        ensures
            r == all_conditions_hold(self),
    {
        self.diagnostics_complete && self.timing_confirmed && self.final_interrupts_zero
            && self.gpio_configured && self.stale_status_cleared && self.enable_success
            && self.exact_data_ready_readback
    }

    /// The start-up diagnostics line: each condition, then whether acquisition
    /// starts.
    pub fn data_ready_startup_line(self) -> (line: String)
        ensures
            line@ == "data_ready_startup diagnostics_complete="@ + flag_text(self.diagnostics_complete)
                + " timing_confirmed="@ + flag_text(self.timing_confirmed)
                + " final_interrupts_zero="@ + flag_text(self.final_interrupts_zero)
                + " gpio_configured="@ + flag_text(self.gpio_configured) + " stale_status_cleared="@
                + flag_text(self.stale_status_cleared) + " enable_success="@ + flag_text(
                self.enable_success,
            ) + " exact_data_ready_readback="@ + flag_text(self.exact_data_ready_readback)
                + " acquisition_started="@ + flag_text(all_conditions_hold(self)),
    {
        let mut s = String::new();
        push_str(&mut s, "data_ready_startup diagnostics_complete=");
        push_flag(&mut s, self.diagnostics_complete);
        push_str(&mut s, " timing_confirmed=");
        push_flag(&mut s, self.timing_confirmed);
        push_str(&mut s, " final_interrupts_zero=");
        push_flag(&mut s, self.final_interrupts_zero);
        push_str(&mut s, " gpio_configured=");
        push_flag(&mut s, self.gpio_configured);
        push_str(&mut s, " stale_status_cleared=");
        push_flag(&mut s, self.stale_status_cleared);
        push_str(&mut s, " enable_success=");
        push_flag(&mut s, self.enable_success);
        push_str(&mut s, " exact_data_ready_readback=");
        push_flag(&mut s, self.exact_data_ready_readback);
        push_str(&mut s, " acquisition_started=");
        let started = self.allows_acquisition();
        push_flag(&mut s, started);
        s
    }
}

/// One operation of the data-ready start-up, with what it returned.
pub ghost enum StartupCall {
    /// The stale status was read (`true`) or the read failed.
    ClearStatus(bool),
    /// Data-ready was enabled (`true`) or enabling it failed.
    EnableDataReady(bool),
    /// `INT_ENABLE` was read back: whether data-ready is the only source, or
    /// nothing when the read failed.
    ReadEnable(Option<bool>),
}

/// `after` starts with all of `before`.
pub open spec fn grew<T>(before: Seq<T>, after: Seq<T>) -> bool {
    &&& before.len() <= after.len()
    &&& after.take(before.len() as int) == before
}

/// The entries of `after` that follow those of `before`.
pub open spec fn added<T>(before: Seq<T>, after: Seq<T>) -> Seq<T> {
    after.skip(before.len() as int)
}

/// The sensor operations that bring up the data-ready interrupt.
pub trait DataReadyStartupDevice {
    /// The start-up operations made so far, oldest first, with their results.
    /// The default, an empty record, is one that no operation's contract can
    /// keep: an implementation that Verus checks must define it, and one that
    /// Verus does not check is trusted to keep the contracts.
    open spec fn startup_calls(&self) -> Seq<StartupCall> {
        Seq::empty()
    }

    /// Reads `INT_STATUS` to clear a stale latched status; `false` on failure.
    fn clear_int_status(&mut self) -> (ok: bool)
        ensures
            final(self).startup_calls() == old(self).startup_calls().push(
                StartupCall::ClearStatus(ok),
            ),
    ;

    /// Enables the data-ready interrupt; `false` on failure.
    fn enable_data_ready(&mut self) -> (ok: bool)
        ensures
            final(self).startup_calls() == old(self).startup_calls().push(
                StartupCall::EnableDataReady(ok),
            ),
    ;

    /// Reads `INT_ENABLE` back: whether data-ready is the only enabled source,
    /// `None` when the read failed.
    fn only_data_ready_enabled(&mut self) -> (r: Option<bool>)
        ensures
            final(self).startup_calls() == old(self).startup_calls().push(
                StartupCall::ReadEnable(r),
            ),
    ;
}

/// The exchange of the data-ready start-up: the status is read; only if
/// that worked is data-ready enabled; only if that worked is the enable
/// register read back; `c` reports each result, the readback counting only
/// when it shows data-ready alone.
pub open spec fn data_ready_exchange(calls: Seq<StartupCall>, c: StartupConditions) -> bool {
    &&& calls.len() >= 1
    &&& calls[0] == StartupCall::ClearStatus(c.stale_status_cleared)
    &&& if !c.stale_status_cleared {
        calls.len() == 1 && !c.enable_success && !c.exact_data_ready_readback
    } else {
        &&& calls.len() >= 2
        &&& calls[1] == StartupCall::EnableDataReady(c.enable_success)
        &&& if !c.enable_success {
            calls.len() == 2 && !c.exact_data_ready_readback
        } else {
            &&& calls.len() == 3
            &&& match calls[2] {
                StartupCall::ReadEnable(x) => c.exact_data_ready_readback == (x == Some(true)),
                _ => false,
            }
        }
    }
}

/// Clears the stale status, then enables data-ready, then reads the enable
/// register back; each step runs only when the previous one succeeded. The
/// three data-ready conditions report how far it got; the others stay false.
pub fn configure_data_ready_startup<D: DataReadyStartupDevice>(device: &mut D) -> (c:
    StartupConditions)
    ensures
        !c.diagnostics_complete,
        !c.timing_confirmed,
        !c.final_interrupts_zero,
        !c.gpio_configured,
        grew(old(device).startup_calls(), final(device).startup_calls()),
        data_ready_exchange(added(old(device).startup_calls(), final(device).startup_calls()), c),
{
    let ghost t0 = device.startup_calls();
    let stale_status_cleared = device.clear_int_status();
    let enable_success = stale_status_cleared && device.enable_data_ready();
    let exact_data_ready_readback = enable_success && match device.only_data_ready_enabled() {
        Some(exact) => exact,
        None => false,
    };
    proof {
        let t1 = device.startup_calls();
        assert(t1.take(t0.len() as int) =~= t0);
        let a = added(t0, t1);
        if !stale_status_cleared {
            assert(a =~= seq![StartupCall::ClearStatus(false)]);
        } else if !enable_success {
            assert(a =~= seq![StartupCall::ClearStatus(true), StartupCall::EnableDataReady(false)]);
        } else {
            assert(a.len() == 3);
            assert(a[0] == StartupCall::ClearStatus(true));
            assert(a[1] == StartupCall::EnableDataReady(true));
        }
    }
    StartupConditions {
        stale_status_cleared,
        enable_success,
        exact_data_ready_readback,
        ..StartupConditions::default()
    }
}

/// The identity a `WHO_AM_I` reading points to.
#[derive(Debug, Clone, Copy, PartialEq, Eq, Structural)]
pub enum IdentityVerdict {
    ClassicMpu6050,
    Mpu6500Compatible,
    Unknown,
}

/// The verdict for a decoded identity.
pub open spec fn verdict_of(identity: Identity) -> IdentityVerdict {
    match identity {
        Identity::Mpu6050 => IdentityVerdict::ClassicMpu6050,
        Identity::Mpu6500Compatible => IdentityVerdict::Mpu6500Compatible,
        Identity::Unknown(_) => IdentityVerdict::Unknown,
    }
}

/// A verdict's name in the start-up log.
pub open spec fn verdict_name(v: IdentityVerdict) -> Seq<char> {
    match v {
        IdentityVerdict::ClassicMpu6050 => "ClassicMpu6050"@,
        IdentityVerdict::Mpu6500Compatible => "Mpu6500CompatibleNonClassic"@,
        IdentityVerdict::Unknown => "Unknown"@,
    }
}

impl IdentityVerdict {
    /// The verdict for a decoded identity.
    pub fn from_identity(identity: Identity) -> (v: IdentityVerdict)
        ensures
            v == verdict_of(identity),
    {
        match identity {
            Identity::Mpu6050 => IdentityVerdict::ClassicMpu6050,
            Identity::Mpu6500Compatible => IdentityVerdict::Mpu6500Compatible,
            Identity::Unknown(_) => IdentityVerdict::Unknown,
        }
    }

    /// The verdict's name in the start-up log.
    pub fn as_str(self) -> (s: &'static str)
        ensures
            s@ == verdict_name(self),
    {
        match self {
            IdentityVerdict::ClassicMpu6050 => "ClassicMpu6050",
            IdentityVerdict::Mpu6500Compatible => "Mpu6500CompatibleNonClassic",
            IdentityVerdict::Unknown => "Unknown",
        }
    }
}

/// How far the evidence gathered at start-up verifies the device.
#[derive(Debug, Clone, Copy, PartialEq, Eq, Structural)]
pub enum VerificationLevel {
    MarkingOnly,
    I2cResponsive,
    RegisterCompatible,
    MotionVerified,
    AdvancedVerified,
}

/// The level an evidence score reaches: 0-5, 6-12, 13-22, 23-35, then above.
pub open spec fn level_of_score(score: u8) -> VerificationLevel {
    if score <= 5 {
        VerificationLevel::MarkingOnly
    } else if score <= 12 {
        VerificationLevel::I2cResponsive
    } else if score <= 22 {
        VerificationLevel::RegisterCompatible
    } else if score <= 35 {
        VerificationLevel::MotionVerified
    } else {
        VerificationLevel::AdvancedVerified
    }
}

/// A level's name in the start-up log.
pub open spec fn level_name(l: VerificationLevel) -> Seq<char> {
    match l {
        VerificationLevel::MarkingOnly => "MarkingOnly"@,
        VerificationLevel::I2cResponsive => "I2cResponsiveCompatibleDevice"@,
        VerificationLevel::RegisterCompatible => "FunctionalRegisterCompatibleImu"@,
        VerificationLevel::MotionVerified => "MotionVerifiedCompatibleImu"@,
        VerificationLevel::AdvancedVerified => "AdvancedVerifiedCompatibleImu"@,
    }
}

impl VerificationLevel {
    /// The level an evidence score reaches.
    pub fn from_score(score: u8) -> (l: VerificationLevel)
        ensures
            l == level_of_score(score),
    {
        if score <= 5 {
            VerificationLevel::MarkingOnly
        } else if score <= 12 {
            VerificationLevel::I2cResponsive
        } else if score <= 22 {
            VerificationLevel::RegisterCompatible
        } else if score <= 35 {
            VerificationLevel::MotionVerified
        } else {
            VerificationLevel::AdvancedVerified
        }
    }

    /// The level's name in the start-up log.
    pub fn as_str(self) -> (s: &'static str)
        ensures
            s@ == level_name(self),
    {
        match self {
            VerificationLevel::MarkingOnly => "MarkingOnly",
            VerificationLevel::I2cResponsive => "I2cResponsiveCompatibleDevice",
            VerificationLevel::RegisterCompatible => "FunctionalRegisterCompatibleImu",
            VerificationLevel::MotionVerified => "MotionVerifiedCompatibleImu",
            VerificationLevel::AdvancedVerified => "AdvancedVerifiedCompatibleImu",
        }
    }
}

/// What start-up learned about the device on the bus.
#[derive(Debug, Clone, Copy, PartialEq, Eq)]
pub struct VerificationEvidence {
    pub package_marking_matches: bool,
    pub i2c_ack: bool,
    pub identity: Option<Identity>,
    pub pwr_mgmt_1_readable: bool,
    pub raw_block_readable: bool,
}

/// The evidence score: 1 for the package marking, 2 for an acknowledge, 4 for
/// a classic identity or 2 for a compatible one, and 3 each for a readable
/// `PWR_MGMT_1` and a readable raw block.
pub open spec fn evidence_score(e: VerificationEvidence) -> int {
    (if e.package_marking_matches { 1int } else { 0 }) + (if e.i2c_ack { 2int } else { 0 })
        + match e.identity {
        Some(Identity::Mpu6050) => 4int,
        Some(Identity::Mpu6500Compatible) => 2int,
        _ => 0int,
    } + (if e.pwr_mgmt_1_readable { 3int } else { 0 }) + (if e.raw_block_readable { 3int } else { 0 })
}

impl VerificationEvidence {
    /// The evidence score (at most 13).
    pub fn score(self) -> (s: u8)
        ensures
            s == evidence_score(self),
            s <= 13,
    {
        let mut score: u8 = 0;
        if self.package_marking_matches {
            score += 1;
        }
        if self.i2c_ack {
            score += 2;
        }
        match self.identity {
            Some(Identity::Mpu6050) => score += 4,
            Some(Identity::Mpu6500Compatible) => score += 2,
            _ => {},
        }
        if self.pwr_mgmt_1_readable {
            score += 3;
        }
        if self.raw_block_readable {
            score += 3;
        }
        score
    }

    /// The verdict for the identity read, `Unknown` when none was read.
    pub fn identity_verdict(self) -> (v: IdentityVerdict)
        ensures
            v == match self.identity {
                Some(id) => verdict_of(id),
                None => IdentityVerdict::Unknown,
            },
    {
        match self.identity {
            Some(id) => IdentityVerdict::from_identity(id),
            None => IdentityVerdict::Unknown,
        }
    }

    /// The level the evidence score reaches.
    pub fn level(self) -> (l: VerificationLevel)
        ensures
            l == level_of_score(evidence_score(self) as u8),
    {
        VerificationLevel::from_score(self.score())
    }
}

/// Registers confirmed to hold the target timing.
#[derive(Debug, Clone, Copy, PartialEq, Eq)]
pub struct VerifiedSampleTiming {
    pub dlpf: Dlpf,
    pub divider: u8,
    /// The nominal sample rate the registers give, in Hz.
    pub rate_hz: u32,
}

/// The step at which the timing configuration failed.
#[derive(Debug, Clone, Copy, PartialEq, Eq, Structural)]
pub enum SampleTimingError {
    DlpfWrite,
    DlpfRead,
    DlpfMismatch,
    DividerWrite,
    DividerRead,
    DividerMismatch,
    InvalidRate,
}

/// The number of steps completed before `e` stopped the configuration.
pub open spec fn timing_progress(e: SampleTimingError) -> u8 {
    match e {
        SampleTimingError::DlpfWrite => 0,
        SampleTimingError::DlpfRead => 1,
        SampleTimingError::DlpfMismatch => 2,
        SampleTimingError::DividerWrite => 3,
        SampleTimingError::DividerRead => 4,
        SampleTimingError::DividerMismatch => 5,
        SampleTimingError::InvalidRate => 6,
    }
}

/// The name of a timing error in the start-up log.
pub open spec fn timing_error_text(e: SampleTimingError) -> Seq<char> {
    match e {
        SampleTimingError::DlpfWrite => "dlpf_write_failed"@,
        SampleTimingError::DlpfRead => "dlpf_readback_failed"@,
        SampleTimingError::DlpfMismatch => "dlpf_readback_mismatch"@,
        SampleTimingError::DividerWrite => "divider_write_failed"@,
        SampleTimingError::DividerRead => "divider_readback_failed"@,
        SampleTimingError::DividerMismatch => "divider_readback_mismatch"@,
        SampleTimingError::InvalidRate => "sample_rate_calculation_invalid"@,
    }
}

impl SampleTimingError {
    /// The error's name in the start-up log.
    pub fn as_str(self) -> (s: &'static str)
        ensures
            s@ == timing_error_text(self),
    {
        match self {
            SampleTimingError::DlpfWrite => "dlpf_write_failed",
            SampleTimingError::DlpfRead => "dlpf_readback_failed",
            SampleTimingError::DlpfMismatch => "dlpf_readback_mismatch",
            SampleTimingError::DividerWrite => "divider_write_failed",
            SampleTimingError::DividerRead => "divider_readback_failed",
            SampleTimingError::DividerMismatch => "divider_readback_mismatch",
            SampleTimingError::InvalidRate => "sample_rate_calculation_invalid",
        }
    }

    /// The number of steps completed before this error.
    pub fn progress(self) -> (p: u8)
        ensures
            p == timing_progress(self),
    {
        match self {
            SampleTimingError::DlpfWrite => 0,
            SampleTimingError::DlpfRead => 1,
            SampleTimingError::DlpfMismatch => 2,
            SampleTimingError::DividerWrite => 3,
            SampleTimingError::DividerRead => 4,
            SampleTimingError::DividerMismatch => 5,
            SampleTimingError::InvalidRate => 6,
        }
    }
}

/// A failed timing configuration, with the values read back before it failed.
#[derive(Debug, Clone, Copy, PartialEq, Eq)]
pub struct SampleTimingFailure {
    pub error: SampleTimingError,
    pub dlpf: Option<Dlpf>,
    pub divider: Option<u8>,
}

impl SampleTimingFailure {
    /// A failure record.
    pub fn new(error: SampleTimingError, dlpf: Option<Dlpf>, divider: Option<u8>) -> (f:
        SampleTimingFailure)
        ensures
            f == (SampleTimingFailure { error, dlpf, divider }),
    {
        SampleTimingFailure { error, dlpf, divider }
    }
}

/// One operation of the sample-timing configuration, with what it returned.
pub ghost enum TimingCall {
    /// The filter setting was written (`true`) or the write failed.
    SetDlpf(Dlpf, bool),
    /// The filter setting read back, or nothing when the read failed.
    ReadDlpf(Option<Dlpf>),
    /// The divider was written (`true`) or the write failed.
    SetDivider(u8, bool),
    /// The divider read back, or nothing when the read failed.
    ReadDivider(Option<u8>),
}

/// The sensor operations that set and confirm the sample timing.
pub trait SampleTimingDevice {
    /// The timing operations made so far, oldest first, with their results.
    /// The default, an empty record, is one that no operation's contract can
    /// keep: an implementation that Verus checks must define it, and one that
    /// Verus does not check is trusted to keep the contracts.
    open spec fn timing_calls(&self) -> Seq<TimingCall> {
        Seq::empty()
    }

    /// `self` is the state the device is left in by the operation `call`,
    /// made from `earlier`: what is known of the device beyond the timing
    /// record. By default, nothing.
    open spec fn follows(&self, earlier: &Self, call: TimingCall) -> bool {
        true
    }

    /// Writes the filter setting; `false` on failure.
    fn set_dlpf(&mut self, dlpf: Dlpf) -> (ok: bool)
        ensures
            final(self).timing_calls() == old(self).timing_calls().push(TimingCall::SetDlpf(dlpf, ok)),
            final(self).follows(old(self), TimingCall::SetDlpf(dlpf, ok)),
    ;

    /// Reads the filter setting back; `None` on failure.
    fn dlpf(&mut self) -> (r: Option<Dlpf>)
        ensures
            final(self).timing_calls() == old(self).timing_calls().push(TimingCall::ReadDlpf(r)),
            final(self).follows(old(self), TimingCall::ReadDlpf(r)),
    ;

    /// Writes the sample-rate divider; `false` on failure.
    fn set_sample_rate_divider(&mut self, divider: u8) -> (ok: bool)
        ensures
            final(self).timing_calls() == old(self).timing_calls().push(
                TimingCall::SetDivider(divider, ok),
            ),
            final(self).follows(old(self), TimingCall::SetDivider(divider, ok)),
    ;

    /// Reads the sample-rate divider back; `None` on failure.
    fn sample_rate_divider(&mut self) -> (r: Option<u8>)
        ensures
            final(self).timing_calls() == old(self).timing_calls().push(TimingCall::ReadDivider(r)),
            final(self).follows(old(self), TimingCall::ReadDivider(r)),
    ;
}

/// A run of device states, each left by the matching operation of `calls`
/// made from the one before.
pub open spec fn continued<D: SampleTimingDevice>(states: Seq<D>, calls: Seq<TimingCall>) -> bool {
    &&& states.len() == calls.len() + 1
    &&& forall|i: int| 0 <= i < calls.len() ==> #[trigger] states[i + 1].follows(&states[i], calls[i])
}

/// `after` is reached from `before` by the operations `calls`, in order.
pub open spec fn reached<D: SampleTimingDevice>(before: D, after: D, calls: Seq<TimingCall>) -> bool {
    exists|states: Seq<D>|
        states[0] == before && #[trigger] states.last() == after && continued(states, calls)
}

/// One more operation extends a run.
proof fn lemma_reached_step<D: SampleTimingDevice>(
    states: Seq<D>,
    calls: Seq<TimingCall>,
    next: D,
    call: TimingCall,
)
    requires
        continued(states, calls),
        next.follows(&states.last(), call),
    ensures
        continued(states.push(next), calls.push(call)),
        states.push(next)[0] == states[0],
        states.push(next).last() == next,
{
    let s = states.push(next);
    let c = calls.push(call);
    assert forall|i: int| 0 <= i < c.len() implies #[trigger] s[i + 1].follows(&s[i], c[i]) by {
        if i < calls.len() {
            assert(s[i + 1] == states[i + 1] && s[i] == states[i] && c[i] == calls[i]);
        } else {
            assert(s[i] == states.last());
        }
    }
}

/// A run started at `before` and ending at `after`, whose operations are
/// what the record gained, reaches `after` by what was added.
proof fn lemma_run_reaches<D: SampleTimingDevice>(
    states: Seq<D>,
    calls: Seq<TimingCall>,
    before: D,
    after: D,
    t0: Seq<TimingCall>,
    t1: Seq<TimingCall>,
)
    requires
        continued(states, calls),
        states[0] == before,
        states.last() == after,
        t1 == t0 + calls,
    ensures
        reached(before, after, added(t0, t1)),
{
    assert(added(t0, t1) =~= calls);
}

/// How a record that grew by pushes relates to the one it started from.
proof fn lemma_added_calls<T>(before: Seq<T>, after: Seq<T>)
    requires
        before.len() <= after.len(),
        after.take(before.len() as int) =~= before,
    ensures
        grew(before, after),
        forall|i: int| 0 <= i < after.len() - before.len() ==> #[trigger] added(before, after)[i] == after[before.len() + i],
        added(before, after).len() == after.len() - before.len(),
{
}

/// A failed timing configuration as a result.
pub open spec fn timing_failed(error: SampleTimingError, dlpf: Option<Dlpf>, divider: Option<u8>) -> Result<
    VerifiedSampleTiming,
    SampleTimingFailure,
> {
    Err(SampleTimingFailure { error, dlpf, divider })
}

/// The exchange of the timing configuration and its result: the target filter
/// setting is written and read back, then the target divider is written and
/// read back; the first failed operation or mismatching readback ends it with
/// the matching error and the values read so far, and otherwise the target
/// timing is confirmed.
pub open spec fn timing_exchange(calls: Seq<TimingCall>, r: Result<VerifiedSampleTiming, SampleTimingFailure>) -> bool {
    calls.len() >= 1 && match calls[0] {
        TimingCall::SetDlpf(d0, ok0) => d0 == TARGET_DLPF && if !ok0 {
            calls.len() == 1 && r == timing_failed(SampleTimingError::DlpfWrite, None, None)
        } else {
            calls.len() >= 2 && match calls[1] {
                TimingCall::ReadDlpf(None) => calls.len() == 2 && r == timing_failed(
                    SampleTimingError::DlpfRead,
                    None,
                    None,
                ),
                TimingCall::ReadDlpf(Some(d)) => if d != TARGET_DLPF {
                    calls.len() == 2 && r == timing_failed(
                        SampleTimingError::DlpfMismatch,
                        Some(d),
                        None,
                    )
                } else {
                    calls.len() >= 3 && match calls[2] {
                        TimingCall::SetDivider(v0, ok2) => v0 == TARGET_SMPLRT_DIV && if !ok2 {
                            calls.len() == 3 && r == timing_failed(
                                SampleTimingError::DividerWrite,
                                Some(d),
                                None,
                            )
                        } else {
                            calls.len() == 4 && match calls[3] {
                                TimingCall::ReadDivider(None) => r == timing_failed(
                                    SampleTimingError::DividerRead,
                                    Some(d),
                                    None,
                                ),
                                TimingCall::ReadDivider(Some(v)) => if v != TARGET_SMPLRT_DIV {
                                    r == timing_failed(
                                        SampleTimingError::DividerMismatch,
                                        Some(d),
                                        Some(v),
                                    )
                                } else {
                                    r == Ok::<VerifiedSampleTiming, SampleTimingFailure>(
                                        VerifiedSampleTiming {
                                            dlpf: TARGET_DLPF,
                                            divider: TARGET_SMPLRT_DIV,
                                            rate_hz: EXPECTED_NOMINAL_SAMPLE_RATE_HZ,
                                        },
                                    )
                                },
                                _ => false,
                            }
                        },
                        _ => false,
                    }
                },
                _ => false,
            }
        },
        _ => false,
    }
}

/// The nominal rate `base / (1 + divider)` lies within 0.01 Hz of the expected
/// rate, computed exactly.
pub open spec fn rate_near_target(base: int, divider: int) -> bool {
    let diff = base - EXPECTED_NOMINAL_SAMPLE_RATE_HZ * (1 + divider);
    &&& 100 * diff <= 1 + divider
    &&& -100 * diff <= 1 + divider
}

/// The gyroscope output rate the filter setting gives, and so which divider
/// gives the expected 200 Hz: 8 kHz with the filter off (field value 0) and
/// 1 kHz for every other setting, so a divider of 4 gives 200 Hz exactly for
/// the settings with the filter on, and a divider of 39 exactly for the one
/// with it off.
pub proof fn lemma_base_rate_law(dlpf: Dlpf)
    ensures
        dlpf_base_rate(dlpf) == if dlpf_index(dlpf) == 0 {
            8000u32
        } else {
            1000u32
        },
        rate_near_target(dlpf_base_rate(dlpf) as int, 4) <==> dlpf_index(dlpf) != 0,
        rate_near_target(dlpf_base_rate(dlpf) as int, 39) <==> dlpf_index(dlpf) == 0,
{
}

/// Whether the filter's base rate divided by `1 + divider` is within 0.01 Hz
/// of the expected nominal rate.
pub fn nominal_rate_matches(dlpf: Dlpf, divider: u8) -> (r: bool)
    ensures
        r == rate_near_target(dlpf_base_rate(dlpf) as int, divider as int),
{
    let base = dlpf.base_rate_hz() as i64;
    let steps = 1 + divider as i64;
    let target = EXPECTED_NOMINAL_SAMPLE_RATE_HZ as i64;
    assert(target * steps <= 51200) by (nonlinear_arith)
        requires
            target == 200,
            1 <= steps <= 256,
    ;
    let diff = base - target * steps;
    assert(-51200 <= diff <= 8000);
    let neg = -diff;
    100 * diff <= steps && 100 * neg <= steps
}

/// The failure the timing configuration reports, or success: which step
/// stopped it is fixed by which readbacks it had, and a success always holds
/// the target registers and their 200 Hz rate.
pub open spec fn timing_result_consistent(r: Result<VerifiedSampleTiming, SampleTimingFailure>) -> bool {
    match r {
        Ok(t) => t == (VerifiedSampleTiming {
            dlpf: TARGET_DLPF,
            divider: TARGET_SMPLRT_DIV,
            rate_hz: EXPECTED_NOMINAL_SAMPLE_RATE_HZ,
        }),
        Err(f) => match f.error {
            SampleTimingError::DlpfWrite | SampleTimingError::DlpfRead => f.dlpf is None
                && f.divider is None,
            SampleTimingError::DlpfMismatch => {
                &&& f.dlpf matches Some(d) && d != TARGET_DLPF
                &&& f.divider is None
            },
            SampleTimingError::DividerWrite | SampleTimingError::DividerRead => f.dlpf == Some(
                TARGET_DLPF,
            ) && f.divider is None,
            SampleTimingError::DividerMismatch => {
                &&& f.dlpf == Some(TARGET_DLPF)
                &&& f.divider matches Some(v) && v != TARGET_SMPLRT_DIV
            },
            SampleTimingError::InvalidRate => false,
        },
    }
}

/// Writes the target filter setting and reads it back, then writes the target
/// divider and reads it back, stopping at the first failure or mismatch, and
/// finally checks the nominal rate they give.
pub fn configure_sample_timing<D: SampleTimingDevice>(device: &mut D) -> (r: Result<
    VerifiedSampleTiming,
    SampleTimingFailure,
>)
    ensures
        timing_result_consistent(r),
        grew(old(device).timing_calls(), final(device).timing_calls()),
        timing_exchange(added(old(device).timing_calls(), final(device).timing_calls()), r),
        reached(*old(device), *final(device), added(old(device).timing_calls(), final(device).timing_calls())),
{
    let ghost t0 = device.timing_calls();
    let ghost mut states = seq![*device];
    let ghost mut calls = Seq::<TimingCall>::empty();
    assert(continued(states, calls));
    assert(states.last() == *device);
    let set = device.set_dlpf(TARGET_DLPF);
    proof {
        lemma_reached_step(states, calls, *device, TimingCall::SetDlpf(TARGET_DLPF, set));
        states = states.push(*device);
        calls = calls.push(TimingCall::SetDlpf(TARGET_DLPF, set));
        assert(device.timing_calls() =~= t0 + calls);
        lemma_run_reaches(states, calls, *old(device), *device, t0, device.timing_calls());
    }
    if !set {
        proof {
            lemma_added_calls(t0, device.timing_calls());
        }
        return Err(SampleTimingFailure::new(SampleTimingError::DlpfWrite, None, None));
    }
    let read = device.dlpf();
    proof {
        lemma_reached_step(states, calls, *device, TimingCall::ReadDlpf(read));
        states = states.push(*device);
        calls = calls.push(TimingCall::ReadDlpf(read));
        assert(device.timing_calls() =~= t0 + calls);
        lemma_run_reaches(states, calls, *old(device), *device, t0, device.timing_calls());
    }
    let dlpf = match read {
        Some(d) => d,
        None => {
            proof {
                lemma_added_calls(t0, device.timing_calls());
            }
            return Err(SampleTimingFailure::new(SampleTimingError::DlpfRead, None, None));
        },
    };
    if dlpf != TARGET_DLPF {
        proof {
            lemma_added_calls(t0, device.timing_calls());
        }
        return Err(SampleTimingFailure::new(SampleTimingError::DlpfMismatch, Some(dlpf), None));
    }
    let set_divider = device.set_sample_rate_divider(TARGET_SMPLRT_DIV);
    proof {
        lemma_reached_step(states, calls, *device, TimingCall::SetDivider(TARGET_SMPLRT_DIV, set_divider));
        states = states.push(*device);
        calls = calls.push(TimingCall::SetDivider(TARGET_SMPLRT_DIV, set_divider));
        assert(device.timing_calls() =~= t0 + calls);
        lemma_run_reaches(states, calls, *old(device), *device, t0, device.timing_calls());
    }
    if !set_divider {
        proof {
            lemma_added_calls(t0, device.timing_calls());
        }
        return Err(SampleTimingFailure::new(SampleTimingError::DividerWrite, Some(dlpf), None));
    }
    let read_divider = device.sample_rate_divider();
    proof {
        lemma_reached_step(states, calls, *device, TimingCall::ReadDivider(read_divider));
        states = states.push(*device);
        calls = calls.push(TimingCall::ReadDivider(read_divider));
        assert(device.timing_calls() =~= t0 + calls);
        lemma_run_reaches(states, calls, *old(device), *device, t0, device.timing_calls());
    }
    let divider = match read_divider {
        Some(v) => v,
        None => {
            proof {
                lemma_added_calls(t0, device.timing_calls());
            }
            return Err(SampleTimingFailure::new(SampleTimingError::DividerRead, Some(dlpf), None));
        },
    };
    proof {
        lemma_added_calls(t0, device.timing_calls());
    }
    if divider != TARGET_SMPLRT_DIV {
        return Err(
            SampleTimingFailure::new(SampleTimingError::DividerMismatch, Some(dlpf), Some(divider)),
        );
    }
    if !nominal_rate_matches(dlpf, divider) {
        return Err(
            SampleTimingFailure::new(SampleTimingError::InvalidRate, Some(dlpf), Some(divider)),
        );
    }
    let rate_hz = dlpf.base_rate_hz() / (1 + divider as u32);
    Ok(VerifiedSampleTiming { dlpf, divider, rate_hz })
}

/// Streaming may start only when the final interrupt state is zero and the
/// timing registers were confirmed.
pub fn stream_startup_allowed(final_interrupts_zero: bool, timing_registers_confirmed: bool) -> (r:
    bool)
    ensures
        r == (final_interrupts_zero && timing_registers_confirmed),
{
    final_interrupts_zero && timing_registers_confirmed
}

/// The accelerometer range for a 2-bit `AFS_SEL` setting; larger values give
/// the widest range.
pub fn accel_range_from_setting(setting: u8) -> (r: AccelRange)
    ensures
        r == (if setting == 0 {
            AccelRange::G2
        } else if setting == 1 {
            AccelRange::G4
        } else if setting == 2 {
            AccelRange::G8
        } else {
            AccelRange::G16
        }),
{
    match setting {
        0 => AccelRange::G2,
        1 => AccelRange::G4,
        2 => AccelRange::G8,
        _ => AccelRange::G16,
    }
}

/// The gyroscope range for a 2-bit `FS_SEL` setting; larger values give the
/// widest range.
pub fn gyro_range_from_setting(setting: u8) -> (r: GyroRange)
    ensures
        r == (if setting == 0 {
            GyroRange::Dps250
        } else if setting == 1 {
            GyroRange::Dps500
        } else if setting == 2 {
            GyroRange::Dps1000
        } else {
            GyroRange::Dps2000
        }),
{
    match setting {
        0 => GyroRange::Dps250,
        1 => GyroRange::Dps500,
        2 => GyroRange::Dps1000,
        _ => GyroRange::Dps2000,
    }
}

/// The absolute value of `x`.
pub open spec fn abs_int(x: int) -> int {
    if x < 0 {
        -x
    } else {
        x
    }
}

/// The sum of the absolute values of three axis readings.
pub fn abs3_sum(x: i32, y: i32, z: i32) -> (r: i32)
    requires
        x > i32::MIN,
        y > i32::MIN,
        z > i32::MIN,
        abs_int(x as int) + abs_int(y as int) + abs_int(z as int) <= i32::MAX,
    ensures
        r == abs_int(x as int) + abs_int(y as int) + abs_int(z as int),
{
    let ax = if x < 0 { -x } else { x };
    let ay = if y < 0 { -y } else { y };
    let az = if z < 0 { -z } else { z };
    ax + ay + az
}

/// One read of `register` was made through `m`, and `ok` tells whether it
/// succeeded.
pub open spec fn single_read_ok<I2C: I2cBus>(
    m0: Mpu6050<I2C>,
    m1: Mpu6050<I2C>,
    register: u8,
    ok: bool,
) -> bool {
    let added = appended(m0.transcript(), m1.transcript());
    &&& m1.addr() == m0.addr()
    &&& extends(m0.transcript(), m1.transcript())
    &&& added.len() == 1
    &&& is_register_read(added[0], m0.bus_address(), register, 1)
    &&& ok == read_result(added[0]) is Ok
}

impl<I2C: I2cBus> DataReadyStartupDevice for Mpu6050<I2C> {
    open spec fn startup_calls(&self) -> Seq<StartupCall> {
        self.startup_record()
    }

    /// One `INT_STATUS` read; true when it succeeded.
    fn clear_int_status(&mut self) -> (ok: bool)
        ensures
            single_read_ok(*old(self), *final(self), INT_STATUS, ok),
    {
        let ok = self.int_status().is_ok();
        self.record_startup(Ghost(StartupCall::ClearStatus(ok)));
        ok
    }

    /// Sets the data-ready enable bit by read-modify-write; true when both
    /// transfers succeeded.
    fn enable_data_ready(&mut self) -> (ok: bool)
        ensures
            final(self).addr() == old(self).addr(),
            extends(old(self).transcript(), final(self).transcript()),
            exists|r: Result<(), I2C::Error>|
                #![trigger masked_write_trace(old(self).bus_address(), INT_ENABLE, 0x01, 0x01, appended(old(self).transcript(), final(self).transcript()), r)]
                masked_write_trace(
                    old(self).bus_address(),
                    INT_ENABLE,
                    0x01,
                    0x01,
                    appended(old(self).transcript(), final(self).transcript()),
                    r,
                ) && ok == r is Ok,
    {
        let r = self.enable_data_ready_interrupt();
        let ok = r.is_ok();
        self.record_startup(Ghost(StartupCall::EnableDataReady(ok)));
        ok
    }

    /// One `INT_ENABLE` read: whether the byte is exactly the data-ready bit.
    fn only_data_ready_enabled(&mut self) -> (r: Option<bool>)
        ensures
            single_read_ok(*old(self), *final(self), INT_ENABLE, r is Some),
            ({
                let added = appended(old(self).transcript(), final(self).transcript());
                r matches Some(exact) ==> byte_result(read_result(added[0])) matches Ok(b) && exact
                    == (b == 0x01)
            }),
    {
        let r = match self.interrupt_enable() {
            Ok(value) => Some(value.only_data_ready()),
            Err(_) => None,
        };
        self.record_startup(Ghost(StartupCall::ReadEnable(r)));
        r
    }
}

/// How many transfers the timing operation `call` makes, given the first
/// of them: a read-modify-write of `CONFIG` makes a second, the write, only
/// when its read succeeded; every other operation makes one.
pub open spec fn timing_step_len<E>(ops: Seq<BusOp<E>>, call: TimingCall) -> int {
    match call {
        TimingCall::SetDlpf(..) => if ops.len() >= 1 && read_result(ops[0]) is Ok {
            2
        } else {
            1
        },
        _ => 1,
    }
}

/// The transfers `ops` of one timing operation on the device at `address`,
/// and what it reported: the filter setting written into `CONFIG` by
/// read-modify-write; one `CONFIG` read, decoded; one write of `SMPLRT_DIV`;
/// one read of it.
pub open spec fn timing_step_trace<E>(address: u8, ops: Seq<BusOp<E>>, call: TimingCall) -> bool {
    match call {
        TimingCall::SetDlpf(d, ok) => exists|r: Result<(), E>|
            #![trigger masked_write_trace(address, CONFIG, DLPF_CFG_MASK, dlpf_index(d), ops, r)]
            masked_write_trace(address, CONFIG, DLPF_CFG_MASK, dlpf_index(d), ops, r) && ok == r is Ok,
        TimingCall::ReadDlpf(r) => {
            &&& ops.len() == 1
            &&& is_register_read(ops[0], address, CONFIG, 1)
            &&& r == match dlpf_read_result(ops[0]) {
                Ok(d) => Some(d),
                Err(_) => None,
            }
        },
        TimingCall::SetDivider(v, ok) => exists|r: Result<(), E>|
            #![trigger register_write_op(address, SMPLRT_DIV, v, r)]
            ops == seq![register_write_op(address, SMPLRT_DIV, v, r)] && ok == r is Ok,
        TimingCall::ReadDivider(r) => {
            &&& ops.len() == 1
            &&& is_register_read(ops[0], address, SMPLRT_DIV, 1)
            &&& r == match byte_result(read_result(ops[0])) {
                Ok(b) => Some(b),
                Err(_) => None,
            }
        },
    }
}

/// The transfers `ops` are those of the timing operations `calls`, in order,
/// on the device at `address`.
pub open spec fn timing_trace<E>(address: u8, ops: Seq<BusOp<E>>, calls: Seq<TimingCall>) -> bool
    decreases calls.len(),
{
    if calls.len() == 0 {
        ops.len() == 0
    } else {
        let n = timing_step_len(ops, calls[0]);
        &&& n <= ops.len()
        &&& timing_step_trace(address, ops.take(n), calls[0])
        &&& timing_trace(address, ops.skip(n), calls.drop_first())
    }
}

/// The transfers of one timing operation are as many as it makes.
proof fn lemma_step_len<E>(address: u8, ops: Seq<BusOp<E>>, call: TimingCall)
    requires
        timing_step_trace(address, ops, call),
    ensures
        timing_step_len(ops, call) == ops.len(),
        ops.len() >= 1,
{
    if let TimingCall::SetDivider(v, ok) = call {
        let r = choose|r: Result<(), E>| #[trigger] register_write_op(address, SMPLRT_DIV, v, r) == register_write_op(address, SMPLRT_DIV, v, r)
            && ops == seq![register_write_op(address, SMPLRT_DIV, v, r)] && ok == r is Ok;
    }
}

/// The transfers of some timing operations followed by those of one more are
/// the transfers of all of them.
proof fn lemma_trace_push<E>(
    address: u8,
    ops: Seq<BusOp<E>>,
    calls: Seq<TimingCall>,
    more: Seq<BusOp<E>>,
    call: TimingCall,
)
    requires
        timing_trace(address, ops, calls),
        timing_step_trace(address, more, call),
    ensures
        timing_trace(address, ops + more, calls.push(call)),
    decreases calls.len(),
{
    lemma_step_len(address, more, call);
    let all = ops + more;
    let cs = calls.push(call);
    if calls.len() == 0 {
        assert(all =~= more);
        assert(cs[0] == call);
        assert(more.take(more.len() as int) =~= more);
        assert(more.skip(more.len() as int).len() == 0);
        assert(cs.drop_first().len() == 0);
        assert(timing_trace(address, all.skip(more.len() as int), cs.drop_first()));
        assert(timing_step_trace(address, all.take(more.len() as int), cs[0]));
    } else {
        let n = timing_step_len(ops, calls[0]);
        assert(cs[0] == calls[0]);
        assert(ops.len() >= 1) by {
            if ops.len() == 0 {
                assert(n <= 0);
            }
        }
        assert(all[0] == ops[0]);
        assert(timing_step_len(all, cs[0]) == n);
        assert(all.take(n) =~= ops.take(n));
        lemma_trace_push(address, ops.skip(n), calls.drop_first(), more, call);
        assert(all.skip(n) =~= ops.skip(n) + more);
        assert(cs.drop_first() =~= calls.drop_first().push(call));
    }
}

impl<I2C: I2cBus> SampleTimingDevice for Mpu6050<I2C> {
    open spec fn timing_calls(&self) -> Seq<TimingCall> {
        self.timing_record()
    }

    /// The same device, its transcript extended by the transfers of `call`,
    /// and no wait made.
    open spec fn follows(&self, earlier: &Self, call: TimingCall) -> bool {
        &&& self.addr() == earlier.addr()
        &&& self.waits() == earlier.waits()
        &&& extends(earlier.transcript(), self.transcript())
        &&& timing_step_trace(
            earlier.bus_address(),
            appended(earlier.transcript(), self.transcript()),
            call,
        )
    }

    /// Sets `DLPF_CFG` by read-modify-write; true when both transfers succeeded.
    fn set_dlpf(&mut self, dlpf: Dlpf) -> (ok: bool) {
        let r = Mpu6050::set_dlpf(self, dlpf);
        let ok = r.is_ok();
        self.record_timing(Ghost(TimingCall::SetDlpf(dlpf, ok)));
        ok
    }

    /// One `CONFIG` read, decoded; `None` on a failed read or the reserved value.
    fn dlpf(&mut self) -> (r: Option<Dlpf>) {
        let r = match Mpu6050::dlpf(self) {
            Ok(d) => Some(d),
            Err(_) => None,
        };
        self.record_timing(Ghost(TimingCall::ReadDlpf(r)));
        r
    }

    /// Writes `SMPLRT_DIV`; true when the transfer succeeded.
    fn set_sample_rate_divider(&mut self, divider: u8) -> (ok: bool) {
        let r = Mpu6050::set_sample_rate_divider(self, divider);
        let ok = r.is_ok();
        self.record_timing(Ghost(TimingCall::SetDivider(divider, ok)));
        ok
    }

    /// One `SMPLRT_DIV` read; `None` on failure.
    fn sample_rate_divider(&mut self) -> (r: Option<u8>) {
        let r = match Mpu6050::sample_rate_divider(self) {
            Ok(v) => Some(v),
            Err(_) => None,
        };
        self.record_timing(Ghost(TimingCall::ReadDivider(r)));
        r
    }
}

/// A device reached from another through timing operations is the same
/// device, its transcript extended by exactly the transfers of those
/// operations, in order.
pub proof fn lemma_reached_device<I2C: I2cBus>(
    before: Mpu6050<I2C>,
    after: Mpu6050<I2C>,
    calls: Seq<TimingCall>,
)
    requires
        reached(before, after, calls),
    ensures
        after.addr() == before.addr(),
        after.waits() == before.waits(),
        extends(before.transcript(), after.transcript()),
        timing_trace(before.bus_address(), appended(before.transcript(), after.transcript()), calls),
{
    let states = choose|states: Seq<Mpu6050<I2C>>|
        states[0] == before && #[trigger] states.last() == after && continued(states, calls);
    lemma_continued_device(states, calls);
}

/// Along a run of device states, the device stays the same and its transcript
/// grows by the transfers of the run's operations.
proof fn lemma_continued_device<I2C: I2cBus>(states: Seq<Mpu6050<I2C>>, calls: Seq<TimingCall>)
    requires
        continued(states, calls),
    ensures
        states.last().addr() == states[0].addr(),
        states.last().waits() == states[0].waits(),
        extends(states[0].transcript(), states.last().transcript()),
        timing_trace(
            states[0].bus_address(),
            appended(states[0].transcript(), states.last().transcript()),
            calls,
        ),
    decreases calls.len(),
{
    if calls.len() == 0 {
        assert(states[0].transcript().subrange(0, states[0].transcript().len() as int) =~= states[0].transcript());
        assert(appended(states[0].transcript(), states[0].transcript()).len() == 0);
    } else {
        let p = states.drop_last();
        let pc = calls.drop_last();
        assert forall|i: int| 0 <= i < pc.len() implies #[trigger] p[i + 1].follows(&p[i], pc[i]) by {
            assert(p[i + 1] == states[i + 1] && p[i] == states[i] && pc[i] == calls[i]);
        }
        lemma_continued_device(p, pc);
        let k = calls.len() - 1;
        assert(states[k + 1].follows(&states[k], calls[k]));
        assert(p.last() == states[k]);
        assert(states.last() == states[k + 1]);
        crate::bus::lemma_extends_trans(
            states[0].transcript(),
            states[k].transcript(),
            states.last().transcript(),
        );
        lemma_trace_push(
            states[0].bus_address(),
            appended(states[0].transcript(), states[k].transcript()),
            pc,
            appended(states[k].transcript(), states.last().transcript()),
            calls[k],
        );
        assert(pc.push(calls[k]) =~= calls);
    }
}

} // verus!
