use mpu6050_validation::logcheck::check_log;
use mpu6050_validation::logtext::{
    check_face_mapping, parse_log_text, parse_sixface_text, FaceMappingError,
};
use mpu6050_validation::raw::{RawAccelGyroTemp, RawSampleSuspicion};
use mpu6050_validation::rawline::parse_raw_fields;
use mpu6050_validation::telemetry::{
    integrity_event_line, motion_sample_line, raw_example_line, suspicious_sample_line,
};
use mpu6050_validation::tool::ExpectedIdentity;

const LOG: &str = "boot banner\r\n\
verification_summary_begin\r\n\
bus_address=0x68\r\n\
who_am_i=0x70\r\n\
  pwr_mgmt_1=unreadable  \r\n\
not a pair\r\n\
verification_summary_end\r\n\
who_am_i=0x68\r\n\
RAW 0x68: accel=(1, -2, 16384) temp_raw=42 gyro=(3, -4, 5) timestamp_us=10 sequence=7\r\n\
RAW 0x68: accel=(0, 0, 16380) temp_raw=40 gyro=(0, 0, 0)";

#[test]
fn log_text_keeps_summary_pairs_and_every_raw_line() {
    let contents = parse_log_text(LOG);
    let pairs: Vec<(&str, &str)> = contents
        .summary
        .iter()
        .map(|(k, v)| (k.as_str(), v.as_str()))
        .collect();
    assert_eq!(
        pairs,
        vec![
            ("bus_address", "0x68"),
            ("who_am_i", "0x70"),
            ("pwr_mgmt_1", "unreadable")
        ]
    );
    assert_eq!(contents.samples.len(), 2);
    assert_eq!(contents.samples[0].az, 16384);
    assert_eq!(contents.samples[0].sequence, Some(7));
    assert_eq!(contents.samples[1].sequence, None);
}

#[test]
fn log_check_reports_each_condition() {
    let contents = parse_log_text(LOG);
    let check = check_log(&contents, 2, 0x68, ExpectedIdentity::AnyKnown);
    assert_eq!(check.samples, 2);
    assert!(check.address_ok);
    assert_eq!(check.identity_observed, Some(0x70));
    assert_eq!(check.identity_profile(), "mpu6500_compatible_or_clone");
    assert!(check.who_ok);
    assert!(!check.pwr_ok);
    assert!(!check.passed);
    assert_eq!(check.score(), 0);
    assert_eq!(check.exit_code(), 1);

    let classic = check_log(&contents, 2, 0x68, ExpectedIdentity::ClassicMpu6050);
    assert!(!classic.who_ok);
    let other_address = check_log(&contents, 2, 0x69, ExpectedIdentity::AnyKnown);
    assert!(!other_address.address_ok);
}

#[test]
fn log_check_passes_a_complete_log() {
    let text = "verification_summary_begin\n\
bus_address=0X68\n\
who_am_i= +68 \n\
pwr_mgmt_1=unreadable\n\
pwr_mgmt_1=0x00\n\
verification_summary_end\n\
RAW 0x68: accel=(1, 2, 3) temp_raw=4 gyro=(5, 6, 7)\n";
    let check = check_log(&parse_log_text(text), 1, 0x68, ExpectedIdentity::ClassicMpu6050);
    assert!(check.address_ok && check.who_ok && check.pwr_ok);
    assert_eq!(check.identity_observed, Some(0x68));
    assert_eq!(check.identity_profile(), "classic_mpu6050");
    assert!(check.passed);
    assert_eq!(check.score(), 10);
    assert_eq!(check.exit_code(), 0);
    let too_few = check_log(&parse_log_text(text), 2, 0x68, ExpectedIdentity::ClassicMpu6050);
    assert!(!too_few.passed);
}

#[test]
fn log_check_reads_identities_as_hexadecimal_bytes() {
    let text = "verification_summary_begin\n\
who_am_i=0x170\n\
who_am_i=zz\n\
verification_summary_end\n";
    let check = check_log(&parse_log_text(text), 0, 0x68, ExpectedIdentity::AnyKnown);
    assert_eq!(check.identity_observed, None);
    assert_eq!(check.identity_profile(), "missing");
    assert!(!check.who_ok);
    assert!(!check.address_ok);
    let exact = "verification_summary_begin\nwho_am_i=0012\nverification_summary_end\n";
    let check = check_log(&parse_log_text(exact), 0, 0x68, ExpectedIdentity::Exact(0x12));
    assert_eq!(check.identity_observed, Some(0x12));
    assert_eq!(check.identity_profile(), "unknown");
    assert!(check.who_ok);
}

#[test]
fn log_check_writes_small_addresses_with_two_digits() {
    let text = "verification_summary_begin\nbus_address=0x05\nverification_summary_end\n";
    assert!(check_log(&parse_log_text(text), 0, 5, ExpectedIdentity::AnyKnown).address_ok);
    let wide = "verification_summary_begin\nbus_address=0x1a0\nverification_summary_end\n";
    assert!(check_log(&parse_log_text(wide), 0, 0x1a0, ExpectedIdentity::AnyKnown).address_ok);
}

#[test]
fn sixface_text_collects_raw_lines_per_face() {
    let text = "# face_begin +X\n\
# face_help +X keep still\n\
RAW 0x68: accel=(16384, 0, 0) temp_raw=1 gyro=(0, 0, 0)\n\
# face_end +X\n\
RAW 0x68: accel=(9, 9, 9) temp_raw=1 gyro=(0, 0, 0)\n\
  # face_begin -Z  \n\
RAW 0x68: accel=(0, 0, -16384) temp_raw=1 gyro=(0, 0, 0)\n\
RAW 0x68: accel=(0, 1, -16383) temp_raw=1 gyro=(0, 0, 0)\n\
# face_begin top\n\
RAW 0x68: accel=(7, 7, 7) temp_raw=1 gyro=(0, 0, 0)\n";
    let faces = parse_sixface_text(text);
    assert_eq!(faces.len(), 6);
    assert_eq!(faces[0].len(), 1);
    assert_eq!(faces[0][0].ax, 16384);
    for k in 1..5 {
        assert!(faces[k].is_empty());
    }
    assert_eq!(faces[5].len(), 2);
    assert_eq!(faces[5][1].az, -16383);
}

#[test]
fn motion_sample_line_matches_the_firmware_format_and_parses_back() {
    let raw = RawAccelGyroTemp::new([-1, 2, 16384], -300, [7, -8, 9]);
    let line = motion_sample_line(0x68, raw, 1234567, 42);
    assert_eq!(
        line,
        "RAW 0x68: accel=(-1, 2, 16384) temp_raw=-300 gyro=(7, -8, 9) timestamp_us=1234567 sequence=42 timestamp_source=device_instant"
    );
    let parsed = parse_raw_fields(&line).expect("parses");
    assert_eq!((parsed.address, parsed.ax, parsed.gz), (0x68, -1, 9));
    assert_eq!(parsed.sequence, Some(42));
    let low = motion_sample_line(0x05, raw, 0, 0);
    assert!(low.starts_with("RAW 0x05: "));
}

#[test]
fn integrity_event_line_adds_the_accepted_total_only_when_nonzero() {
    assert_eq!(
        integrity_event_line(28, "recovered", 1, RawSampleSuspicion::GyroAllMinusOne, 0),
        "raw_integrity_event seq=28 outcome=recovered reason=GyroAllMinusOne retries=1"
    );
    assert_eq!(
        integrity_event_line(3, "accepted", 2, RawSampleSuspicion::TempSentinel, 5),
        "raw_integrity_event seq=3 outcome=accepted reason=TempSentinel retries=2 accepted_total=5"
    );
}

#[test]
fn face_mapping_accepts_the_six_faces_and_refuses_the_first_bad_entry() {
    let good = vec![
        ("+X".to_string(), Some("-Y".to_string())),
        ("-Z".to_string(), Some("+Z".to_string())),
    ];
    assert_eq!(
        check_face_mapping(good),
        Ok(vec![
            ("+X".to_string(), "-Y".to_string()),
            ("-Z".to_string(), "+Z".to_string())
        ])
    );
    let bad_axis = vec![
        ("+X".to_string(), Some("+X".to_string())),
        ("+Y".to_string(), Some("up".to_string())),
        ("+Z".to_string(), None),
    ];
    assert_eq!(
        check_face_mapping(bad_axis),
        Err(FaceMappingError::Invalid {
            face: "+Y".to_string(),
            axis: "up".to_string()
        })
    );
    let not_string = vec![("+Z".to_string(), None), ("top".to_string(), Some("+X".to_string()))];
    assert_eq!(check_face_mapping(not_string), Err(FaceMappingError::NotString));
}

#[test]
fn suspicious_sample_line_is_printed_but_never_parsed_as_a_sample() {
    let raw = RawAccelGyroTemp::new([0, 0, 0], 0, [0, -1, 2]);
    let line = suspicious_sample_line("retry_suspicious_skipped", 0x68, 11, raw);
    assert_eq!(
        line,
        "RAW 0x68: suspicious sample retry_suspicious_skipped: accel=(0, 0, 0) temp_raw=0 gyro=(0, -1, 2) sequence=11"
    );
    assert!(parse_raw_fields(&line).is_none());
}

#[test]
fn raw_example_line_covers_only_the_first_samples() {
    let raw = RawAccelGyroTemp::new([1, -2, 3], 4, [-5, 6, -7]);
    let mut stats = mpu6050_validation::acquisition::AcquisitionStats::new();
    stats.consumed = 3;
    stats.successful_samples = 2;
    stats.last_sample_us = Some(900);
    assert_eq!(
        raw_example_line(&stats, raw, 1000).as_deref(),
        Some("RAW consumed_events=3 accel=(1, -2, 3) temp_raw=4 gyro=(-5, 6, -7) consumed_timestamp_us=1000 sample_timestamp_us=900")
    );
    stats.last_sample_us = None;
    let line = raw_example_line(&stats, raw, 5).unwrap();
    assert!(line.ends_with("consumed_timestamp_us=5 sample_timestamp_us=0"));
    assert!(parse_raw_fields(&line).is_none());
    stats.successful_samples = 9;
    assert_eq!(raw_example_line(&stats, raw, 1000), None);
}
