use mpu6050_validation::config::Identity;
use mpu6050_validation::logcheck::check_log;
use mpu6050_validation::logtext::parse_log_text;
use mpu6050_validation::probe::ProbeResult;
use mpu6050_validation::report::verification_summary_lines;
use mpu6050_validation::startup::VerificationEvidence;
use mpu6050_validation::tool::ExpectedIdentity;

const C3_NOTE: &str = "pending_tests=six_face,accel_scale_range,gyro_scale_range,gyro_bias,temp_sanity,self_test,fifo_interrupt,timing_noise";
const P4_NOTE: &str = "advanced_tests=not_run_on_p4_bringup_without_register_read_evidence";

fn c3_evidence(probe: ProbeResult) -> VerificationEvidence {
    VerificationEvidence {
        package_marking_matches: true,
        i2c_ack: probe.who_am_i.is_some() || probe.pwr_mgmt_1.is_some(),
        identity: probe.identity,
        pwr_mgmt_1_readable: probe.pwr_mgmt_1.is_some(),
        raw_block_readable: probe.raw_block_readable,
    }
}

#[test]
fn verification_summary_lines_match_the_firmware_output() {
    let probe = ProbeResult {
        address: 0x68,
        who_am_i: Some(0x70),
        identity: Some(Identity::Mpu6500Compatible),
        pwr_mgmt_1: Some(0x40),
        raw_block_readable: true,
    };
    let lines = verification_summary_lines(probe, c3_evidence(probe), C3_NOTE);
    assert_eq!(
        lines,
        vec![
            "verification_summary_begin",
            "bus_address=0x68",
            "who_am_i=0x70",
            "pwr_mgmt_1=0x40",
            "identity_verdict=Mpu6500CompatibleNonClassic",
            "verification_score=11",
            "verification_level=I2cResponsiveCompatibleDevice",
            "non_classic_identity=true",
            C3_NOTE,
            "verification_summary_end",
        ]
    );
}

#[test]
fn unreadable_registers_are_written_as_unreadable() {
    let probe = ProbeResult {
        address: 0x05,
        who_am_i: None,
        identity: None,
        pwr_mgmt_1: None,
        raw_block_readable: false,
    };
    let lines = verification_summary_lines(probe, probe.evidence(), P4_NOTE);
    assert_eq!(lines[1], "bus_address=0x05");
    assert_eq!(lines[2], "who_am_i=unreadable");
    assert_eq!(lines[3], "pwr_mgmt_1=unreadable");
    assert_eq!(lines[4], "identity_verdict=Unknown");
    assert_eq!(lines[5], "verification_score=1");
    assert_eq!(lines[6], "verification_level=MarkingOnly");
    assert_eq!(lines[7], "non_classic_identity=false");
    assert_eq!(lines[8], P4_NOTE);
}

#[test]
fn host_check_accepts_the_printed_summary() {
    let probe = ProbeResult {
        address: 0x69,
        who_am_i: Some(0x68),
        identity: Some(Identity::Mpu6050),
        pwr_mgmt_1: Some(0x00),
        raw_block_readable: true,
    };
    let text = verification_summary_lines(probe, probe.evidence(), P4_NOTE).join("\n");
    let contents = parse_log_text(&text);
    let check = check_log(&contents, 0, 0x69, ExpectedIdentity::ClassicMpu6050);
    assert!(check.address_ok && check.who_ok && check.pwr_ok && check.passed);
    assert_eq!(check.identity_observed, Some(0x68));
    assert_eq!(check.samples, 0);
    let other = check_log(&contents, 0, 0x68, ExpectedIdentity::Mpu6500Compatible);
    assert!(!other.address_ok && !other.who_ok && !other.passed);

    let silent = ProbeResult {
        address: 0x68,
        who_am_i: None,
        identity: None,
        pwr_mgmt_1: None,
        raw_block_readable: false,
    };
    let text = verification_summary_lines(silent, c3_evidence(silent), C3_NOTE).join("\n");
    let check = check_log(&parse_log_text(&text), 0, 0x68, ExpectedIdentity::AnyKnown);
    assert!(check.address_ok && !check.who_ok && !check.pwr_ok && !check.passed);
    assert_eq!(check.identity_observed, None);
}

#[test]
fn identity_descriptions() {
    assert_eq!(Identity::Mpu6050.description(), "MPU-6050-class IMU");
    assert_eq!(
        Identity::Mpu6500Compatible.description(),
        "MPU-6500-compatible / clone / relabeled variant"
    );
    assert_eq!(Identity::Unknown(0x12).description(), "unknown IMU identity");
}
