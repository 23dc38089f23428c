//! Data-ready event accounting and the service step of the acquisition loop.
use crate::bus::{appended, extends, is_register_read, I2cBus};
use crate::device::Mpu6050;
use crate::raw::{raw_result, RawAccelGyroTemp};
use crate::registers::{ACCEL_XOUT_H, INT_STATUS};
use crate::startup::{added, grew, single_read_ok};
use vstd::prelude::*;

verus! {

/// Data-ready events signalled by the interrupt handler and not yet serviced.
#[derive(Default, Debug, Clone, Copy, PartialEq, Eq, Structural)]
pub struct PendingEvents {
    pub pending: u32,
    pub max_pending: u32,
    pub total: u64,
    /// Events that could not be added to `pending` because it was already at
    /// `u32::MAX`. This counts saturation of the software counter, not FIFO
    /// overflow or lost sensor samples.
    pub events_unrecorded_due_to_pending_saturation: u64,
}

/// `a + b`, or `u64::MAX` where it would not fit.
pub open spec fn sat_add_u64(a: u64, b: u64) -> u64 {
    if a + b > u64::MAX {
        u64::MAX
    } else {
        (a + b) as u64
    }
}

/// `a + b`, or `u32::MAX` where it would not fit.
pub open spec fn sat_add_u32(a: u32, b: u32) -> u32 {
    if a + b > u32::MAX {
        u32::MAX
    } else {
        (a + b) as u32
    }
}

impl PendingEvents {
    /// Records one data-ready event. The total always counts it (saturating);
    /// the pending count takes it unless it is already at `u32::MAX`, in which
    /// case the event is counted as unrecorded instead.
    pub fn signal(&mut self)
        ensures
            final(self).total == sat_add_u64(old(self).total, 1),
            old(self).pending < u32::MAX ==> {
                &&& final(self).pending == old(self).pending + 1
                &&& final(self).max_pending == if old(self).max_pending > final(self).pending {
                    old(self).max_pending
                } else {
                    final(self).pending
                }
                &&& final(self).events_unrecorded_due_to_pending_saturation
                    == old(self).events_unrecorded_due_to_pending_saturation
            },
            old(self).pending == u32::MAX ==> {
                &&& final(self).pending == u32::MAX
                &&& final(self).max_pending == old(self).max_pending
                &&& final(self).events_unrecorded_due_to_pending_saturation == sat_add_u64(
                    old(self).events_unrecorded_due_to_pending_saturation,
                    1,
                )
            },
    {
        self.total = self.total.saturating_add(1);
        match self.pending.checked_add(1) {
            Some(next) => {
                self.pending = next;
                if next > self.max_pending {
                    self.max_pending = next;
                }
            },
            None => {
                self.events_unrecorded_due_to_pending_saturation =
                    self.events_unrecorded_due_to_pending_saturation.saturating_add(1);
            },
        }
    }

    /// Takes every pending event at once: returns the count and clears it.
    pub fn take_all(&mut self) -> (n: u32)
        ensures
            n == old(self).pending,
            *final(self) == (PendingEvents { pending: 0, ..*old(self) }),
    {
        let pending = self.pending;
        self.pending = 0;
        pending
    }
}

/// Events are not collapsed: signalling `n` times, with room below the
/// pending limit, then taking all returns `n` more than were pending.
pub proof fn lemma_signals_are_not_collapsed(p: PendingEvents, n: nat)
    requires
        p.pending + n <= u32::MAX,
    ensures
        signal_n(p, n).pending == p.pending + n,
        signal_n(p, n).events_unrecorded_due_to_pending_saturation
            == p.events_unrecorded_due_to_pending_saturation,
    decreases n,
{
    if n > 0 {
        lemma_signals_are_not_collapsed(p, (n - 1) as nat);
    }
}

/// The state after one [`PendingEvents::signal`].
pub open spec fn signal_once(p: PendingEvents) -> PendingEvents {
    if p.pending < u32::MAX {
        PendingEvents {
            pending: (p.pending + 1) as u32,
            max_pending: if p.max_pending > p.pending + 1 {
                p.max_pending
            } else {
                (p.pending + 1) as u32
            },
            total: sat_add_u64(p.total, 1),
            events_unrecorded_due_to_pending_saturation: p.events_unrecorded_due_to_pending_saturation,
        }
    } else {
        PendingEvents {
            total: sat_add_u64(p.total, 1),
            events_unrecorded_due_to_pending_saturation: sat_add_u64(
                p.events_unrecorded_due_to_pending_saturation,
                1,
            ),
            ..p
        }
    }
}

/// The state after `n` signals.
pub open spec fn signal_n(p: PendingEvents, n: nat) -> PendingEvents
    decreases n,
{
    if n == 0 {
        p
    } else {
        signal_once(signal_n(p, (n - 1) as nat))
    }
}

/// [`PendingEvents::signal`] moves to [`signal_once`].
pub proof fn lemma_signal_is_signal_once(before: PendingEvents, after: PendingEvents)
    requires
        after.total == sat_add_u64(before.total, 1),
        before.pending < u32::MAX ==> {
            &&& after.pending == before.pending + 1
            &&& after.max_pending == if before.max_pending > after.pending {
                before.max_pending
            } else {
                after.pending
            }
            &&& after.events_unrecorded_due_to_pending_saturation
                == before.events_unrecorded_due_to_pending_saturation
        },
        before.pending == u32::MAX ==> {
            &&& after.pending == u32::MAX
            &&& after.max_pending == before.max_pending
            &&& after.events_unrecorded_due_to_pending_saturation == sat_add_u64(
                before.events_unrecorded_due_to_pending_saturation,
                1,
            )
        },
    ensures
        after == signal_once(before),
{
}

/// Every signal is accounted for: it either raises the pending count or is
/// counted as unrecorded; and the pending count never passes its recorded
/// maximum.
pub proof fn lemma_every_signal_is_accounted(p: PendingEvents)
    requires
        p.events_unrecorded_due_to_pending_saturation < u64::MAX,
    ensures
        signal_once(p).pending + signal_once(p).events_unrecorded_due_to_pending_saturation
            == p.pending + p.events_unrecorded_due_to_pending_saturation + 1,
        p.pending <= p.max_pending ==> signal_once(p).pending <= signal_once(p).max_pending,
        signal_once(p).max_pending >= p.max_pending,
{
}

/// Number of 100 µs histogram bins of successful-sample intervals.
pub const INTERVAL_BINS: usize = 128;

/// Counters and timing of the acquisition loop.
#[derive(Debug, Clone, Copy)]
pub struct AcquisitionStats {
    pub consumed: u64,
    pub missed_or_coalesced_events: u64,
    pub successful_samples: u64,
    pub motion_i2c_errors: u64,
    pub status_ack_i2c_errors: u64,
    pub first_consumed_us: Option<u64>,
    pub last_consumed_us: Option<u64>,
    pub first_sample_us: Option<u64>,
    pub last_sample_us: Option<u64>,
    pub interval_count: u64,
    pub interval_min_us: Option<u64>,
    pub interval_max_us: Option<u64>,
    /// Successful-sample interval counts per 100 µs bin; the last bin holds
    /// everything from 12.7 ms up.
    pub interval_histogram: [u32; 128],
}

/// `a - b`, or 0 where it would be negative.
pub open spec fn sat_sub_u64(a: u64, b: u64) -> u64 {
    if a >= b {
        (a - b) as u64
    } else {
        0
    }
}

/// `first` if set, else `now`.
pub open spec fn first_or(first: Option<u64>, now: u64) -> Option<u64> {
    match first {
        Some(f) => Some(f),
        None => Some(now),
    }
}

/// The histogram bin of an interval: its 100 µs index, capped at the last bin.
pub open spec fn interval_bin(interval: u64) -> int {
    if interval / 100 >= 127 {
        127
    } else {
        (interval / 100) as int
    }
}

/// Sum of the first `n` bins.
pub open spec fn bins_sum(h: Seq<u32>, n: int) -> int
    decreases n,
{
    if n <= 0 {
        0
    } else {
        bins_sum(h, n - 1) + h[n - 1]
    }
}

/// The first bin at or after `b` whose cumulative count reaches half of
/// `count`.
pub open spec fn median_bin_from(h: Seq<u32>, count: u64, b: int) -> Option<int>
    decreases 128 - b,
{
    if b < 0 || b >= 128 {
        None
    } else if bins_sum(h, b + 1) * 2 >= count {
        Some(b)
    } else {
        median_bin_from(h, count, b + 1)
    }
}

impl AcquisitionStats {
    /// The interval histogram as a sequence.
    pub open spec fn histogram(&self) -> Seq<u32> {
        self.interval_histogram@
    }

    /// Counters at zero, nothing timed, an empty histogram.
    pub fn new() -> (s: AcquisitionStats)
        ensures
            s.consumed == 0 && s.missed_or_coalesced_events == 0 && s.successful_samples == 0,
            s.motion_i2c_errors == 0 && s.status_ack_i2c_errors == 0,
            s.first_consumed_us is None && s.last_consumed_us is None,
            s.first_sample_us is None && s.last_sample_us is None,
            s.interval_count == 0 && s.interval_min_us is None && s.interval_max_us is None,
            s.histogram() == Seq::new(128, |i: int| 0u32),
    {
        let s = AcquisitionStats {
            consumed: 0,
            missed_or_coalesced_events: 0,
            successful_samples: 0,
            motion_i2c_errors: 0,
            status_ack_i2c_errors: 0,
            first_consumed_us: None,
            last_consumed_us: None,
            first_sample_us: None,
            last_sample_us: None,
            interval_count: 0,
            interval_min_us: None,
            interval_max_us: None,
            interval_histogram: [0u32; 128],
        };
        proof {
            assert(s.histogram() =~= Seq::new(128, |i: int| 0u32));
        }
        s
    }

    /// Accounts for a batch of `count` events consumed at `now`: all of them are
    /// consumed, and all but one were missed or coalesced into one read.
    pub fn consumed_batch(&mut self, count: u32, now: u64)
        ensures
            batch_recorded(*old(self), *final(self), count, now),
            sample_fields_same(*old(self), *final(self)),
            final(self).motion_i2c_errors == old(self).motion_i2c_errors,
            final(self).status_ack_i2c_errors == old(self).status_ack_i2c_errors,
    {
        self.consumed = self.consumed.saturating_add(count as u64);
        let missed: u32 = if count > 0 { count - 1 } else { 0 };
        self.missed_or_coalesced_events = self.missed_or_coalesced_events.saturating_add(missed as u64);
        if self.first_consumed_us.is_none() {
            self.first_consumed_us = Some(now);
        }
        self.last_consumed_us = Some(now);
    }

    /// Accounts for a successful sample at `now`: the interval since the
    /// previous one, if any, updates the count, minimum, maximum and histogram.
    pub fn sample(&mut self, now: u64)
        requires
            old(self).successful_samples < u64::MAX,
            old(self).interval_count < u64::MAX,
        ensures
            sample_recorded(*old(self), *final(self), now),
            batch_fields_same(*old(self), *final(self)),
            final(self).motion_i2c_errors == old(self).motion_i2c_errors,
            final(self).status_ack_i2c_errors == old(self).status_ack_i2c_errors,
    {
        if let Some(previous) = self.last_sample_us {
            let interval = now.saturating_sub(previous);
            self.interval_count = self.interval_count + 1;
            self.interval_min_us = Some(
                match self.interval_min_us {
                    Some(v) => if v < interval { v } else { interval },
                    None => interval,
                },
            );
            self.interval_max_us = Some(
                match self.interval_max_us {
                    Some(v) => if v > interval { v } else { interval },
                    None => interval,
                },
            );
            let q = interval / 100;
            let bin: usize = if q >= 127 { 127 } else { q as usize };
            let c = self.interval_histogram[bin];
            self.interval_histogram[bin] = c.saturating_add(1);
        }
        if self.first_sample_us.is_none() {
            self.first_sample_us = Some(now);
        }
        self.last_sample_us = Some(now);
        self.successful_samples = self.successful_samples + 1;
    }

    /// The median successful-sample interval, to the 100 µs bin: the lower
    /// edge of the first bin whose cumulative count reaches half the interval
    /// count; `None` before any interval.
    pub fn interval_p50_us(&self) -> (r: Option<u64>)
        ensures
            self.interval_count == 0 ==> r is None,
            self.interval_count > 0 ==> match median_bin_from(self.histogram(), self.interval_count, 0) {
                Some(b) => r == Some((b * 100) as u64),
                None => r is None,
            },
    {
        if self.interval_count == 0 {
            return None;
        }
        let mut seen: u64 = 0;
        let mut bin: usize = 0;
        while bin < INTERVAL_BINS
            invariant
                bin <= 128,
                self.interval_count > 0,
                self.histogram().len() == 128,
                seen == bins_sum(self.histogram(), bin as int),
                seen <= bin * 0xffff_ffff,
                median_bin_from(self.histogram(), self.interval_count, 0) == median_bin_from(
                    self.histogram(),
                    self.interval_count,
                    bin as int,
                ),
            decreases 128 - bin,
        {
            seen = seen + self.interval_histogram[bin] as u64;
            if seen * 2 >= self.interval_count {
                return Some(bin as u64 * 100);
            }
            bin += 1;
        }
        None
    }
}

/// The batch counters of `s1` are those of `s0` after a batch of `count`
/// events consumed at `now`.
pub open spec fn batch_recorded(s0: AcquisitionStats, s1: AcquisitionStats, count: u32, now: u64) -> bool {
    &&& s1.consumed == sat_add_u64(s0.consumed, count as u64)
    &&& s1.missed_or_coalesced_events == sat_add_u64(
        s0.missed_or_coalesced_events,
        if count > 0 {
            (count - 1) as u64
        } else {
            0
        },
    )
    &&& s1.first_consumed_us == first_or(s0.first_consumed_us, now)
    &&& s1.last_consumed_us == Some(now)
}

/// The sample counters and timing of `s1` are those of `s0` after a
/// successful sample at `now`.
pub open spec fn sample_recorded(s0: AcquisitionStats, s1: AcquisitionStats, now: u64) -> bool {
    &&& s1.successful_samples == s0.successful_samples + 1
    &&& s1.first_sample_us == first_or(s0.first_sample_us, now)
    &&& s1.last_sample_us == Some(now)
    &&& match s0.last_sample_us {
        None => {
            &&& s1.interval_count == s0.interval_count
            &&& s1.interval_min_us == s0.interval_min_us
            &&& s1.interval_max_us == s0.interval_max_us
            &&& s1.histogram() == s0.histogram()
        },
        Some(previous) => {
            let interval = sat_sub_u64(now, previous);
            let bin = interval_bin(interval);
            &&& s1.interval_count == s0.interval_count + 1
            &&& s1.interval_min_us == Some(
                match s0.interval_min_us {
                    Some(v) => if v < interval { v } else { interval },
                    None => interval,
                },
            )
            &&& s1.interval_max_us == Some(
                match s0.interval_max_us {
                    Some(v) => if v > interval { v } else { interval },
                    None => interval,
                },
            )
            &&& s1.histogram() == s0.histogram().update(bin, sat_add_u32(s0.histogram()[bin], 1))
        },
    }
}

/// The interval bounds stay ordered: once there is an interval the minimum
/// and maximum are both set, with the minimum no larger than the maximum, and
/// recording a sample keeps it so.
pub proof fn lemma_interval_bounds_stay_ordered(s0: AcquisitionStats, s1: AcquisitionStats, now: u64)
    requires
        sample_recorded(s0, s1, now),
        s0.interval_min_us is Some <==> s0.interval_max_us is Some,
        s0.interval_min_us matches Some(lo) ==> s0.interval_max_us matches Some(hi) && lo <= hi,
    ensures
        s1.interval_min_us is Some <==> s1.interval_max_us is Some,
        s1.interval_min_us matches Some(lo) ==> s1.interval_max_us matches Some(hi) && lo <= hi,
{
}

/// The sample fields of `s1` equal those of `s0`.
pub open spec fn sample_fields_same(s0: AcquisitionStats, s1: AcquisitionStats) -> bool {
    &&& s1.successful_samples == s0.successful_samples
    &&& s1.first_sample_us == s0.first_sample_us
    &&& s1.last_sample_us == s0.last_sample_us
    &&& s1.interval_count == s0.interval_count
    &&& s1.interval_min_us == s0.interval_min_us
    &&& s1.interval_max_us == s0.interval_max_us
    &&& s1.histogram() == s0.histogram()
}

/// The batch fields of `s1` equal those of `s0`.
pub open spec fn batch_fields_same(s0: AcquisitionStats, s1: AcquisitionStats) -> bool {
    &&& s1.consumed == s0.consumed
    &&& s1.missed_or_coalesced_events == s0.missed_or_coalesced_events
    &&& s1.first_consumed_us == s0.first_consumed_us
    &&& s1.last_consumed_us == s0.last_consumed_us
}

impl Default for AcquisitionStats {
    fn default() -> (s: AcquisitionStats)
        ensures
            s.consumed == 0 && s.missed_or_coalesced_events == 0 && s.successful_samples == 0,
            s.motion_i2c_errors == 0 && s.status_ack_i2c_errors == 0,
            s.first_consumed_us is None && s.last_consumed_us is None,
            s.first_sample_us is None && s.last_sample_us is None,
            s.interval_count == 0 && s.interval_min_us is None && s.interval_max_us is None,
            s.histogram() == Seq::new(128, |i: int| 0u32),
    {
        AcquisitionStats::new()
    }
}

/// One operation of the acquisition loop, with what it returned.
pub ghost enum AcquisitionCall<S> {
    /// A motion read: the sample, or nothing when the read failed.
    ReadMotion(Option<S>),
    /// A status acknowledgement: whether it succeeded.
    AckStatus(bool),
}

/// The sensor as the acquisition loop uses it: one motion read per serviced
/// batch, then a status read that acknowledges the interrupt.
pub trait AcquisitionDevice {
    type Sample;

    /// The acquisition operations made so far, oldest first, with their
    /// results. The default, an empty record, is one that no operation's
    /// contract can keep: an implementation that Verus checks must define it,
    /// and one that Verus does not check is trusted to keep the contracts.
    open spec fn acquisition_calls(&self) -> Seq<AcquisitionCall<Self::Sample>> {
        Seq::empty()
    }

    /// Reads one motion sample; `None` when the read failed.
    fn read_motion(&mut self) -> (r: Option<Self::Sample>)
        ensures
            final(self).acquisition_calls() == old(self).acquisition_calls().push(
                AcquisitionCall::ReadMotion(r),
            ),
    ;

    /// Reads the interrupt status to acknowledge it; `false` when that failed.
    fn acknowledge_status(&mut self) -> (ok: bool)
        ensures
            final(self).acquisition_calls() == old(self).acquisition_calls().push(
                AcquisitionCall::AckStatus(ok),
            ),
    ;
}

/// The two operations of one serviced batch: the motion read that gave
/// `sample`, then an acknowledgement whose result `ack_errors` counts, as a
/// saturating increment of `errors0` when it failed.
pub open spec fn batch_exchange<S>(
    calls: Seq<AcquisitionCall<S>>,
    sample: Option<S>,
    errors0: u64,
    ack_errors: u64,
) -> bool {
    &&& calls.len() == 2
    &&& calls[0] == AcquisitionCall::ReadMotion(sample)
    &&& match calls[1] {
        AcquisitionCall::AckStatus(ok) => ack_errors == if ok {
            errors0
        } else {
            sat_add_u64(errors0, 1)
        },
        _ => false,
    }
}

/// What servicing one batch of pending events produced.
#[derive(Debug, Clone, Copy, PartialEq, Eq)]
pub struct ServiceBatchResult<S> {
    pub sample: Option<S>,
    /// Set exactly when `sample` is: the device-side time of the successful
    /// read.
    pub successful_sample_timestamp_us: Option<u64>,
}

/// Services a batch of `batch_count` pending events consumed at
/// `consumed_timestamp_us`: one motion read, then one status acknowledgement.
/// The timestamp source is called only after a successful read, and its value
/// is recorded as that sample's time.
pub fn service_pending_batch<D: AcquisitionDevice, F: FnOnce() -> u64>(
    device: &mut D,
    stats: &mut AcquisitionStats,
    batch_count: u32,
    consumed_timestamp_us: u64,
    successful_sample_timestamp_us: F,
) -> (r: ServiceBatchResult<D::Sample>)
    requires
        batch_count > 0,
        old(stats).successful_samples < u64::MAX,
        old(stats).interval_count < u64::MAX,
        successful_sample_timestamp_us.requires(()),
    ensures
        grew(old(device).acquisition_calls(), final(device).acquisition_calls()),
        batch_exchange(
            added(old(device).acquisition_calls(), final(device).acquisition_calls()),
            r.sample,
            old(stats).status_ack_i2c_errors,
            final(stats).status_ack_i2c_errors,
        ),
        batch_recorded(*old(stats), *final(stats), batch_count, consumed_timestamp_us),
        r.sample is Some <==> r.successful_sample_timestamp_us is Some,
        match r.successful_sample_timestamp_us {
            Some(t) => {
                &&& successful_sample_timestamp_us.ensures((), t)
                &&& sample_recorded(*old(stats), *final(stats), t)
                &&& final(stats).motion_i2c_errors == old(stats).motion_i2c_errors
            },
            None => {
                &&& sample_fields_same(*old(stats), *final(stats))
                &&& final(stats).motion_i2c_errors == sat_add_u64(old(stats).motion_i2c_errors, 1)
            },
        },
{
    let ghost t0 = device.acquisition_calls();
    stats.consumed_batch(batch_count, consumed_timestamp_us);
    let sample = device.read_motion();
    let ts = if sample.is_some() {
        let timestamp_us = successful_sample_timestamp_us();
        stats.sample(timestamp_us);
        Some(timestamp_us)
    } else {
        stats.motion_i2c_errors = stats.motion_i2c_errors.saturating_add(1);
        None
    };
    let ack = device.acknowledge_status();
    if !ack {
        stats.status_ack_i2c_errors = stats.status_ack_i2c_errors.saturating_add(1);
    }
    proof {
        let t1 = device.acquisition_calls();
        assert(t1.take(t0.len() as int) =~= t0);
        assert(added(t0, t1) =~= seq![
            AcquisitionCall::ReadMotion(sample),
            AcquisitionCall::AckStatus(ack),
        ]);
    }
    ServiceBatchResult { sample, successful_sample_timestamp_us: ts }
}

impl<I2C: I2cBus> AcquisitionDevice for Mpu6050<I2C> {
    type Sample = RawAccelGyroTemp;

    open spec fn acquisition_calls(&self) -> Seq<AcquisitionCall<RawAccelGyroTemp>> {
        self.acquisition_record()
    }

    /// One raw block read; `None` when it failed.
    fn read_motion(&mut self) -> (r: Option<RawAccelGyroTemp>)
        ensures
            final(self).addr() == old(self).addr(),
            extends(old(self).transcript(), final(self).transcript()),
            ({
                let added = appended(old(self).transcript(), final(self).transcript());
                &&& added.len() == 1
                &&& is_register_read(added[0], old(self).bus_address(), ACCEL_XOUT_H, 14)
                &&& r == match raw_result(added[0]) {
                    Ok(raw) => Some(raw),
                    Err(_) => None::<RawAccelGyroTemp>,
                }
            }),
    {
        let r = match self.read_raw_accel_gyro_temp() {
            Ok(raw) => Some(raw),
            Err(_) => None,
        };
        self.record_acquisition(Ghost(AcquisitionCall::ReadMotion(r)));
        r
    }

    /// One `INT_STATUS` read, which acknowledges the interrupt; true when it
    /// succeeded.
    fn acknowledge_status(&mut self) -> (ok: bool)
        ensures
            single_read_ok(*old(self), *final(self), INT_STATUS, ok),
    {
        let ok = self.int_status().is_ok();
        self.record_acquisition(Ghost(AcquisitionCall::AckStatus(ok)));
        ok
    }
}

} // verus!
