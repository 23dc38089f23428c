use mpu6050_validation::config::{AccelRange, Dlpf, GyroRange, Identity};
use mpu6050_validation::startup::{
    abs3_sum, accel_range_from_setting, configure_data_ready_startup, configure_sample_timing,
    gyro_range_from_setting, nominal_rate_matches, stream_startup_allowed, DataReadyStartupDevice,
    IdentityVerdict, SampleTimingDevice, SampleTimingError, SampleTimingFailure, StartupConditions,
    VerificationEvidence, VerificationLevel, VerifiedSampleTiming, TARGET_DLPF, TARGET_SMPLRT_DIV,
};

#[derive(Debug, Clone, Copy, PartialEq, Eq)]
enum TimingCall {
    SetDlpf,
    ReadDlpf,
    SetDivider,
    ReadDivider,
}

struct FakeTimingDevice {
    dlpf_write_ok: bool,
    dlpf_readback: Option<Dlpf>,
    divider_write_ok: bool,
    divider_readback: Option<u8>,
    calls: Vec<TimingCall>,
}

impl SampleTimingDevice for FakeTimingDevice {
    fn set_dlpf(&mut self, value: Dlpf) -> bool {
        assert_eq!(value, TARGET_DLPF);
        self.calls.push(TimingCall::SetDlpf);
        self.dlpf_write_ok
    }
    fn dlpf(&mut self) -> Option<Dlpf> {
        self.calls.push(TimingCall::ReadDlpf);
        self.dlpf_readback
    }
    fn set_sample_rate_divider(&mut self, value: u8) -> bool {
        assert_eq!(value, TARGET_SMPLRT_DIV);
        self.calls.push(TimingCall::SetDivider);
        self.divider_write_ok
    }
    fn sample_rate_divider(&mut self) -> Option<u8> {
        self.calls.push(TimingCall::ReadDivider);
        self.divider_readback
    }
}

fn assert_failure(
    device: FakeTimingDevice,
    error: SampleTimingError,
    readbacks: (Option<Dlpf>, Option<u8>),
    calls: Vec<TimingCall>,
) {
    let mut device = device;
    let failure = configure_sample_timing(&mut device).unwrap_err();
    assert_eq!(
        (failure.error, failure.dlpf, failure.divider),
        (error, readbacks.0, readbacks.1)
    );
    assert_eq!(device.calls, calls);
}

#[test]
fn target_timing_registers_and_ranges_are_unchanged() {
    assert_eq!(TARGET_DLPF, Dlpf::Cfg2);
    assert_eq!(TARGET_SMPLRT_DIV, 4);
    assert!(nominal_rate_matches(TARGET_DLPF, TARGET_SMPLRT_DIV));
    assert_eq!(accel_range_from_setting(0), AccelRange::G2);
    assert_eq!(gyro_range_from_setting(0), GyroRange::Dps250);
    assert!(!nominal_rate_matches(Dlpf::Cfg2, 5));
    assert!(nominal_rate_matches(Dlpf::Cfg0, 39));
}

#[test]
fn configure_sample_timing_succeeds_in_order() {
    let mut device = FakeTimingDevice {
        dlpf_write_ok: true,
        dlpf_readback: Some(Dlpf::Cfg2),
        divider_write_ok: true,
        divider_readback: Some(4),
        calls: Vec::new(),
    };
    assert_eq!(
        configure_sample_timing(&mut device),
        Ok(VerifiedSampleTiming {
            dlpf: Dlpf::Cfg2,
            divider: 4,
            rate_hz: 200
        })
    );
    assert_eq!(
        device.calls,
        vec![
            TimingCall::SetDlpf,
            TimingCall::ReadDlpf,
            TimingCall::SetDivider,
            TimingCall::ReadDivider
        ]
    );
}

#[test]
fn configure_sample_timing_reports_operation_failures_and_mismatches() {
    let cases = [
        (
            false,
            None,
            false,
            None,
            SampleTimingError::DlpfWrite,
            (None, None),
            vec![TimingCall::SetDlpf],
        ),
        (
            true,
            None,
            false,
            None,
            SampleTimingError::DlpfRead,
            (None, None),
            vec![TimingCall::SetDlpf, TimingCall::ReadDlpf],
        ),
        (
            true,
            Some(Dlpf::Cfg3),
            false,
            None,
            SampleTimingError::DlpfMismatch,
            (Some(Dlpf::Cfg3), None),
            vec![TimingCall::SetDlpf, TimingCall::ReadDlpf],
        ),
        (
            true,
            Some(Dlpf::Cfg2),
            false,
            None,
            SampleTimingError::DividerWrite,
            (Some(Dlpf::Cfg2), None),
            vec![TimingCall::SetDlpf, TimingCall::ReadDlpf, TimingCall::SetDivider],
        ),
        (
            true,
            Some(Dlpf::Cfg2),
            true,
            None,
            SampleTimingError::DividerRead,
            (Some(Dlpf::Cfg2), None),
            vec![
                TimingCall::SetDlpf,
                TimingCall::ReadDlpf,
                TimingCall::SetDivider,
                TimingCall::ReadDivider,
            ],
        ),
        (
            true,
            Some(Dlpf::Cfg2),
            true,
            Some(5),
            SampleTimingError::DividerMismatch,
            (Some(Dlpf::Cfg2), Some(5)),
            vec![
                TimingCall::SetDlpf,
                TimingCall::ReadDlpf,
                TimingCall::SetDivider,
                TimingCall::ReadDivider,
            ],
        ),
    ];
    for (dlpf_write_ok, dlpf_readback, divider_write_ok, divider_readback, error, readbacks, calls) in
        cases
    {
        assert_failure(
            FakeTimingDevice {
                dlpf_write_ok,
                dlpf_readback,
                divider_write_ok,
                divider_readback,
                calls: Vec::new(),
            },
            error,
            readbacks,
            calls,
        );
    }
}

#[test]
fn stream_startup_requires_interrupt_zero_and_verified_timing() {
    let ok: Option<Result<VerifiedSampleTiming, SampleTimingFailure>> =
        Some(Ok(VerifiedSampleTiming {
            dlpf: Dlpf::Cfg2,
            divider: 4,
            rate_hz: 200,
        }));
    let failed: Option<Result<VerifiedSampleTiming, SampleTimingFailure>> = Some(Err(
        SampleTimingFailure::new(SampleTimingError::DlpfWrite, None, None),
    ));
    let skipped: Option<Result<VerifiedSampleTiming, SampleTimingFailure>> = None;
    assert!(!stream_startup_allowed(false, matches!(ok, Some(Ok(_)))));
    assert!(!stream_startup_allowed(true, matches!(failed, Some(Ok(_)))));
    assert!(!stream_startup_allowed(true, matches!(skipped, Some(Ok(_)))));
    assert!(stream_startup_allowed(true, matches!(ok, Some(Ok(_)))));
}

#[test]
fn acquisition_requires_diagnostics_and_timing() {
    let complete = StartupConditions {
        diagnostics_complete: true,
        timing_confirmed: true,
        final_interrupts_zero: true,
        gpio_configured: true,
        stale_status_cleared: true,
        enable_success: true,
        exact_data_ready_readback: true,
    };
    assert!(complete.allows_acquisition());
    let mut missing = complete;
    missing.diagnostics_complete = false;
    assert!(!missing.allows_acquisition());
    missing = complete;
    missing.timing_confirmed = false;
    assert!(!missing.allows_acquisition());
}

#[test]
fn acquisition_requires_gpio_and_exact_readback_and_enable() {
    let complete = StartupConditions {
        diagnostics_complete: true,
        timing_confirmed: true,
        final_interrupts_zero: true,
        gpio_configured: true,
        stale_status_cleared: true,
        enable_success: true,
        exact_data_ready_readback: true,
    };
    for condition in [
        StartupConditions {
            gpio_configured: false,
            ..complete
        },
        StartupConditions {
            enable_success: false,
            ..complete
        },
        StartupConditions {
            exact_data_ready_readback: false,
            ..complete
        },
    ] {
        assert!(!condition.allows_acquisition());
    }
}

#[derive(Debug, Clone, Copy, PartialEq, Eq)]
enum StartupCall {
    Clear,
    Enable,
    Readback,
}

struct FakeDataReadyDevice {
    clear: bool,
    enable: bool,
    readback: Option<bool>,
    calls: Vec<StartupCall>,
}

impl DataReadyStartupDevice for FakeDataReadyDevice {
    fn clear_int_status(&mut self) -> bool {
        self.calls.push(StartupCall::Clear);
        self.clear
    }
    fn enable_data_ready(&mut self) -> bool {
        self.calls.push(StartupCall::Enable);
        self.enable
    }
    fn only_data_ready_enabled(&mut self) -> Option<bool> {
        self.calls.push(StartupCall::Readback);
        self.readback
    }
}

#[test]
fn data_ready_startup_stops_after_failed_stale_clear() {
    let mut device = FakeDataReadyDevice {
        clear: false,
        enable: true,
        readback: Some(true),
        calls: Vec::new(),
    };
    let conditions = configure_data_ready_startup(&mut device);
    assert!(!conditions.stale_status_cleared);
    assert_eq!(device.calls, vec![StartupCall::Clear]);
}

#[test]
fn data_ready_startup_stops_after_failed_enable() {
    let mut device = FakeDataReadyDevice {
        clear: true,
        enable: false,
        readback: Some(true),
        calls: Vec::new(),
    };
    let conditions = configure_data_ready_startup(&mut device);
    assert!(!conditions.enable_success);
    assert_eq!(device.calls, vec![StartupCall::Clear, StartupCall::Enable]);
}

#[test]
fn data_ready_startup_requires_readable_exact_readback() {
    for readback in [None, Some(false)] {
        let mut device = FakeDataReadyDevice {
            clear: true,
            enable: true,
            readback,
            calls: Vec::new(),
        };
        let conditions = configure_data_ready_startup(&mut device);
        assert!(!conditions.exact_data_ready_readback);
        assert_eq!(
            device.calls,
            vec![StartupCall::Clear, StartupCall::Enable, StartupCall::Readback]
        );
    }
}

#[test]
fn data_ready_startup_orders_clear_enable_then_exact_readback() {
    let mut device = FakeDataReadyDevice {
        clear: true,
        enable: true,
        readback: Some(true),
        calls: Vec::new(),
    };
    let conditions = configure_data_ready_startup(&mut device);
    assert!(
        conditions.stale_status_cleared
            && conditions.enable_success
            && conditions.exact_data_ready_readback
    );
    assert_eq!(
        device.calls,
        vec![StartupCall::Clear, StartupCall::Enable, StartupCall::Readback]
    );
}

#[test]
fn evidence_scores_map_to_levels_and_verdicts() {
    let full = VerificationEvidence {
        package_marking_matches: true,
        i2c_ack: true,
        identity: Some(Identity::Mpu6050),
        pwr_mgmt_1_readable: true,
        raw_block_readable: true,
    };
    assert_eq!(full.score(), 13);
    assert_eq!(full.level(), VerificationLevel::RegisterCompatible);
    assert_eq!(full.identity_verdict(), IdentityVerdict::ClassicMpu6050);
    assert_eq!(full.identity_verdict().as_str(), "ClassicMpu6050");
    let compatible = VerificationEvidence {
        identity: Some(Identity::Mpu6500Compatible),
        pwr_mgmt_1_readable: false,
        ..full
    };
    assert_eq!(compatible.score(), 8);
    assert_eq!(compatible.level(), VerificationLevel::I2cResponsive);
    assert_eq!(compatible.identity_verdict().as_str(), "Mpu6500CompatibleNonClassic");
    let none = VerificationEvidence {
        package_marking_matches: true,
        i2c_ack: false,
        identity: None,
        pwr_mgmt_1_readable: false,
        raw_block_readable: false,
    };
    assert_eq!(none.score(), 1);
    assert_eq!(none.level().as_str(), "MarkingOnly");
    assert_eq!(none.identity_verdict(), IdentityVerdict::Unknown);
    assert_eq!(VerificationLevel::from_score(23), VerificationLevel::MotionVerified);
    assert_eq!(VerificationLevel::from_score(36), VerificationLevel::AdvancedVerified);
    assert_eq!(SampleTimingError::DividerMismatch.progress(), 5);
    assert_eq!(SampleTimingError::DlpfRead.as_str(), "dlpf_readback_failed");
}

#[test]
fn axis_sums_and_range_settings() {
    assert_eq!(abs3_sum(-3, 4, -5), 12);
    assert_eq!(accel_range_from_setting(3), AccelRange::G16);
    assert_eq!(accel_range_from_setting(9), AccelRange::G16);
    assert_eq!(gyro_range_from_setting(2), GyroRange::Dps1000);
}

#[test]
fn data_ready_startup_line_lists_each_condition() {
    let mut conditions = StartupConditions::default();
    conditions.diagnostics_complete = true;
    conditions.enable_success = true;
    assert_eq!(
        conditions.data_ready_startup_line(),
        "data_ready_startup diagnostics_complete=true timing_confirmed=false final_interrupts_zero=false gpio_configured=false stale_status_cleared=false enable_success=true exact_data_ready_readback=false acquisition_started=false"
    );
    let all = StartupConditions {
        diagnostics_complete: true,
        timing_confirmed: true,
        final_interrupts_zero: true,
        gpio_configured: true,
        stale_status_cleared: true,
        enable_success: true,
        exact_data_ready_readback: true,
    };
    assert!(all.data_ready_startup_line().ends_with("acquisition_started=true"));
}
