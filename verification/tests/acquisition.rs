use mpu6050_validation::acquisition::{
    service_pending_batch, AcquisitionDevice, AcquisitionStats, PendingEvents,
};

#[test]
fn pending_events_are_not_collapsed() {
    let mut pending = PendingEvents::default();
    pending.signal();
    pending.signal();
    pending.signal();
    assert_eq!(
        (pending.total, pending.pending, pending.max_pending),
        (3, 3, 3)
    );
    assert_eq!(pending.take_all(), 3);
    assert_eq!(pending.pending, 0);
    assert_eq!(pending.take_all(), 0);
}

#[test]
fn pending_events_saturate_and_record_unrepresented_event() {
    let mut pending = PendingEvents {
        pending: u32::MAX,
        max_pending: u32::MAX,
        total: 9,
        events_unrecorded_due_to_pending_saturation: 0,
    };
    pending.signal();
    assert_eq!(pending.pending, u32::MAX);
    assert_eq!(pending.total, 10);
    assert_eq!(pending.events_unrecorded_due_to_pending_saturation, 1);
}

struct FakeAcquisitionDevice {
    motion_reads: u32,
    status_acknowledgments: u32,
    motion: Option<u8>,
}

impl AcquisitionDevice for FakeAcquisitionDevice {
    type Sample = u8;

    fn read_motion(&mut self) -> Option<Self::Sample> {
        self.motion_reads += 1;
        self.motion
    }

    fn acknowledge_status(&mut self) -> bool {
        self.status_acknowledgments += 1;
        true
    }
}

#[test]
fn backlog_batch_reads_one_frame_and_counts_coalesced_events() {
    let mut device = FakeAcquisitionDevice {
        motion_reads: 0,
        status_acknowledgments: 0,
        motion: Some(42),
    };
    let mut stats = AcquisitionStats::default();

    let result = service_pending_batch(&mut device, &mut stats, 3, 100, || 110);

    assert_eq!(result.sample, Some(42));
    assert_eq!(result.successful_sample_timestamp_us, Some(110));
    assert_eq!(device.motion_reads, 1);
    assert_eq!(device.status_acknowledgments, 1);
    assert_eq!(stats.consumed, 3);
    assert_eq!(stats.successful_samples, 1);
    assert_eq!(stats.missed_or_coalesced_events, 2);
}

#[test]
fn sample_and_successful_sample_timestamp_remain_paired() {
    let mut device = FakeAcquisitionDevice {
        motion_reads: 0,
        status_acknowledgments: 0,
        motion: Some(7),
    };
    let mut stats = AcquisitionStats::default();
    let result = service_pending_batch(&mut device, &mut stats, 1, 50, || 99);
    assert_eq!(
        (result.sample, result.successful_sample_timestamp_us),
        (Some(7), Some(99))
    );
    assert_eq!(stats.last_sample_us, Some(99));
}

#[test]
fn failed_motion_read_has_no_successful_sample_timestamp() {
    let mut device = FakeAcquisitionDevice {
        motion_reads: 0,
        status_acknowledgments: 0,
        motion: None,
    };
    let mut stats = AcquisitionStats::default();
    let result = service_pending_batch(&mut device, &mut stats, 2, 50, || {
        panic!("timestamp must not be taken on failed motion read")
    });
    assert_eq!(result.sample, None);
    assert_eq!(result.successful_sample_timestamp_us, None);
    assert_eq!(stats.successful_samples, 0);
    assert_eq!(stats.motion_i2c_errors, 1);
    assert_eq!(stats.consumed, 2);
    assert_eq!(stats.missed_or_coalesced_events, 1);
    assert_eq!(device.motion_reads, 1);
    assert_eq!(device.status_acknowledgments, 1);
}

#[test]
fn zero_and_one_sample_interval_statistics_are_safe() {
    let mut stats = AcquisitionStats::default();
    assert_eq!(stats.interval_p50_us(), None);
    stats.consumed_batch(1, 10);
    stats.sample(10);
    assert_eq!(stats.first_sample_us, Some(10));
    assert_eq!(stats.last_sample_us, Some(10));
    assert_eq!(stats.interval_count, 0);
    assert_eq!(stats.interval_p50_us(), None);
}

#[test]
fn intervals_fill_histogram_and_median_bin() {
    let mut stats = AcquisitionStats::new();
    stats.sample(1_000);
    stats.sample(6_000);
    stats.sample(11_050);
    stats.sample(21_050);
    assert_eq!(stats.interval_count, 3);
    assert_eq!(stats.interval_min_us, Some(5_000));
    assert_eq!(stats.interval_max_us, Some(10_000));
    assert_eq!(stats.interval_p50_us(), Some(5_000));
}
