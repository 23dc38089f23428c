use mpu6050_validation::frame::{
    crc16_ccitt_false, encode_binary_frame, BinaryFrame, BinaryFrameDecoder, DecodeEvent,
    DecodeWarning,
};
use mpu6050_validation::integrity::{
    parse_raw_integrity_event, record_partial_text_line, IntegrityStats,
};
use mpu6050_validation::rawline::{key_value_fields, parse_raw_fields};
use mpu6050_validation::tool::{
    allan_sizes, cluster_sizes_log, orientation_bins_summary, orientation_covered,
    orientation_missing_faces,
    safe_label, stationary_suite_exit_code, ExpectedIdentity, ValidationMode,
};

#[test]
fn raw_integrity_event_parser_accepts_outcome_with_extra_fields() {
    let event = parse_raw_integrity_event(
        "raw_integrity_event seq=28 outcome=recovered retries=1 address=0x68",
    )
    .unwrap();
    assert_eq!(event.outcome, "recovered");

    assert_eq!(parse_raw_integrity_event("RAW 0x68: accel=(1, 2, 3)"), None);
    assert_eq!(parse_raw_integrity_event("raw_integrity_event seq=28"), None);
}

#[test]
fn raw_integrity_event_parser_normalizes_outcome_and_ignores_noise() {
    let event = parse_raw_integrity_event(
        "raw_integrity_event reason=GyroAllMinusOne outcome=RECOVERED retries=1",
    )
    .unwrap();
    assert_eq!(event.outcome, "recovered");

    assert_eq!(
        parse_raw_integrity_event("raw_integrity_event_extra outcome=recovered"),
        None
    );
    assert_eq!(parse_raw_integrity_event("raw_integrity_event outcome="), None);
    assert_eq!(parse_raw_integrity_event("raw_integrity_event outcome"), None);
}

#[test]
fn integrity_stats_counts_samples_events_and_summary() {
    let mut stats = IntegrityStats::default();
    let mut line_buf = String::new();
    stats.record_text(
        "RAW 0x68: accel=(1, 2, 3) temp_raw=4 gyro=(5, 6, 7)\nraw_integrity_event seq=1 outcome=recovered retries=1\nraw_integrity_event seq=2 outcome=rejected\n",
        &mut line_buf,
    );
    stats.record_line("raw_integrity_event seq=3 outcome=retry_error");
    stats.record_line("raw_integrity_event seq=4 outcome=accepted");
    stats.record_sample();

    assert_eq!(stats.total, 2);
    assert_eq!(stats.clean(), 0);
    assert_eq!(stats.suspicious(), 4);
    assert_eq!(
        stats.summary_line(),
        "integrity_stats samples=2 clean_samples=0 suspicious_events=4 recovered=1 rejected=1 retry_error=1 accepted=1"
    );
}

#[test]
fn integrity_stats_buffers_partial_lines_until_newline() {
    let mut stats = IntegrityStats::default();
    let mut line_buf = String::new();

    stats.record_text(
        "RAW 0x68: accel=(1, 2, 3) temp_raw=4 gyro=(5, 6, 7)",
        &mut line_buf,
    );
    assert_eq!(stats.total, 0);
    assert!(!line_buf.is_empty());

    stats.record_text(
        " timestamp_us=100 sequence=7 timestamp_source=device_instant\r\nraw_integrity_event seq=7 outcome=recovered retries=1\r\n",
        &mut line_buf,
    );
    assert_eq!(line_buf, "");
    assert_eq!(stats.total, 1);
    assert_eq!(stats.recovered, 1);
    assert_eq!(stats.clean(), 0);
}

#[test]
fn integrity_stats_counts_trimmed_final_partial_line() {
    let mut stats = IntegrityStats::default();
    let line_buf = "RAW 0x68: accel=(1, 2, 3) temp_raw=4 gyro=(5, 6, 7)   ";

    record_partial_text_line(&mut stats, line_buf);

    assert_eq!(stats.total, 1);
    assert_eq!(stats.clean(), 1);
}

#[test]
fn integrity_stats_ignores_unknown_outcomes_and_saturates_clean() {
    let mut stats = IntegrityStats::default();
    stats.record_sample();
    stats.record_line("raw_integrity_event seq=1 outcome=recovered retries=1");
    stats.record_line("raw_integrity_event seq=2 outcome=rejected retries=1");
    stats.record_line("raw_integrity_event seq=3 outcome=weird retries=1");

    assert_eq!(stats.total, 1);
    assert_eq!(stats.suspicious(), 2);
    assert_eq!(stats.clean(), 0);
    assert_eq!(
        stats.summary_line(),
        "integrity_stats samples=1 clean_samples=0 suspicious_events=2 recovered=1 rejected=1 retry_error=0 accepted=0"
    );
}

#[test]
fn integrity_stats_rejected_and_retry_error_do_not_reduce_clean_samples() {
    let mut stats = IntegrityStats::default();
    stats.record_sample();
    stats.record_sample();
    stats.record_line("raw_integrity_event seq=1 outcome=rejected retries=1");
    stats.record_line("raw_integrity_event seq=2 outcome=retry_error retries=1");

    assert_eq!(stats.suspicious(), 2);
    assert_eq!(stats.clean(), 2);
    assert_eq!(
        stats.summary_line(),
        "integrity_stats samples=2 clean_samples=2 suspicious_events=2 recovered=0 rejected=1 retry_error=1 accepted=0"
    );
}

#[test]
fn stationary_suite_exit_code_preserves_report_mode_behavior() {
    assert_eq!(
        stationary_suite_exit_code([0, 0, 0, 0, 0], ValidationMode::Report, true),
        0
    );
    assert_eq!(
        stationary_suite_exit_code([0, 0, 0, 0, 0], ValidationMode::Strict, true),
        1
    );
    assert_eq!(
        stationary_suite_exit_code([0, 0, 1, 0, 0], ValidationMode::Report, false),
        1
    );
}

fn frame(address: u8, accel: [i16; 3], temp: i16, gyro: [i16; 3], ts: u64, seq: u64) -> BinaryFrame {
    BinaryFrame {
        address,
        sequence: seq,
        timestamp_us: ts,
        accel,
        temp,
        gyro,
    }
}

#[test]
fn binary_frame_round_trips_raw_sample() {
    let s = frame(0x68, [1, -2, 16384], 99, [-4, 5, -6], 1_250_000, 7);
    let mut d = BinaryFrameDecoder::new();
    let ev = d.push(&s.encode());
    assert_eq!(ev, vec![DecodeEvent::Sample(s)]);
}

#[test]
fn regression_binary_decoder_warns_on_crc_valid_gyro_all_minus_one() {
    let s = frame(0x68, [1, 2, 3], 25, [-1, -1, -1], 1_000, 42);
    let ev = BinaryFrameDecoder::new().push(&encode_binary_frame(
        s.address, s.sequence, s.timestamp_us, s.accel, s.temp, s.gyro,
    ));
    assert!(
        ev.iter().any(|e| matches!(
            e,
            DecodeEvent::Warning(w)
                if w.message().contains("suspicious")
                    && w.message().contains("address=0x68")
                    && w.message().contains("sequence=42")
        )),
        "expected suspicious warning with address and sequence, got {ev:?}"
    );
    assert!(ev
        .iter()
        .any(|e| matches!(e, DecodeEvent::Sample(sample) if sample == &s)));
}

#[test]
fn regression_binary_decoder_warns_on_crc_valid_i16_sentinel_field() {
    let s = frame(0x69, [i16::MAX, 2, 3], 25, [4, i16::MIN, 6], 2_000, 43);
    let ev = BinaryFrameDecoder::new().push(&s.encode());
    assert!(
        ev.iter().any(|e| matches!(
            e,
            DecodeEvent::Warning(w)
                if w.message().contains("suspicious")
                    && w.message().contains("address=0x69")
                    && w.message().contains("sequence=43")
        )),
        "expected suspicious warning with address and sequence, got {ev:?}"
    );
    assert!(ev
        .iter()
        .any(|e| matches!(e, DecodeEvent::Sample(sample) if sample == &s)));
}

#[test]
fn binary_decoder_reports_crc_corruption_and_resyncs() {
    let s = frame(0x68, [1, 2, 3], 4, [5, 6, 7], 1_000, 0);
    let mut bad = s.encode();
    bad[22] ^= 0x55;
    let good = s.encode();
    let mut bytes = Vec::from(b"junk".as_slice());
    bytes.extend_from_slice(&bad);
    bytes.extend_from_slice(&good);
    let ev = BinaryFrameDecoder::new().push(&bytes);
    assert!(ev
        .iter()
        .any(|e| matches!(e, DecodeEvent::Warning(w) if w.message().contains("discarded"))));
    assert!(ev
        .iter()
        .any(|e| matches!(e, DecodeEvent::Warning(w) if w.message().contains("crc mismatch"))));
    assert!(ev.iter().any(|e| matches!(e, DecodeEvent::Sample(_))));
}

#[test]
fn binary_decoder_reports_sequence_gap() {
    let mut d = BinaryFrameDecoder::new();
    let a = frame(0x68, [0, 0, 16384], 0, [0, 0, 0], 0, 1);
    let b = frame(0x68, [0, 0, 16384], 0, [0, 0, 0], 100_000, 3);
    assert!(matches!(d.push(&a.encode()).as_slice(), [DecodeEvent::Sample(_)]));
    let ev = d.push(&b.encode());
    assert!(ev
        .iter()
        .any(|e| matches!(e, DecodeEvent::Warning(w) if w.message().contains("sequence gap"))));
}

#[test]
fn decode_warning_messages_match_the_tool_text() {
    assert_eq!(
        DecodeWarning::Discarded { count: 4 }.message(),
        "discarded 4 byte(s) before magic"
    );
    assert_eq!(
        DecodeWarning::CrcMismatch { got: 0x1a2, expected: 0xbeef }.message(),
        "crc mismatch got=0x01a2 expected=0xbeef"
    );
    assert_eq!(
        DecodeWarning::BadHeader { version: 2, length: 32 }.message(),
        "bad header version=2 length=32"
    );
    assert_eq!(
        DecodeWarning::Suspicious {
            address: 0x68,
            sequence: 9,
            gyro_all_minus_one: true,
            sentinel_field: true
        }
        .message(),
        "suspicious sample address=0x68 sequence=9: gyro all -1; sentinel i16 min/max field"
    );
}

#[test]
fn raw_line_fields_parse_without_timing() {
    let s = parse_raw_fields("RAW 0x68: accel=(1, -2, 16384) temp_raw=42 gyro=(3, -4, 5)").unwrap();
    assert_eq!(s.address, 0x68);
    assert_eq!((s.ax, s.ay, s.az, s.temp_raw, s.gx, s.gy, s.gz), (1, -2, 16384, 42, 3, -4, 5));
    assert_eq!(s.sequence, None);
    assert_eq!(s.trailing, "");
}

#[test]
fn raw_line_fields_keep_sequence_and_trailing_text() {
    let s = parse_raw_fields(
        "RAW 0x68: accel=(1, 2, 3) temp_raw=4 gyro=(5, 6, 7) timestamp_us=1234567 sequence=42",
    )
    .unwrap();
    assert_eq!(s.sequence, Some(42));
    assert_eq!(
        key_value_fields(&s.trailing),
        vec![
            ("timestamp_us".to_string(), "1234567".to_string()),
            ("sequence".to_string(), "42".to_string())
        ]
    );
    let bad = parse_raw_fields(
        "RAW 0x68: accel=(1, 2, 3) temp_raw=4 gyro=(5, 6, 7) timestamp_us=oops seq=-1 unknown=ok",
    )
    .unwrap();
    assert_eq!(bad.gx, 5);
    assert_eq!(bad.sequence, None);
    assert!(parse_raw_fields("RAW 0x68: accel=(1, 2, 99999999999) temp_raw=4 gyro=(5, 6, 7)").is_none());
    assert!(parse_raw_fields("RAW 0x6: accel=(1, 2, 3) temp_raw=4 gyro=(5, 6, 7)").is_none());
    assert!(parse_raw_fields("RAW 0x68: accel=(1, 2, 3) temp_raw=4 gyro=(5, 6, 7)\n").is_none());
}

#[test]
fn identity_expectations_match_known_parts() {
    assert!(ExpectedIdentity::ClassicMpu6050.matches(0x68));
    assert!(!ExpectedIdentity::ClassicMpu6050.matches(0x70));
    assert!(ExpectedIdentity::Mpu6500Compatible.matches(0x70));
    assert!(ExpectedIdentity::AnyKnown.matches(0x68));
    assert!(ExpectedIdentity::AnyKnown.matches(0x70));
    assert!(!ExpectedIdentity::AnyKnown.matches(0x71));
    assert!(ExpectedIdentity::Exact(0x12).matches(0x12));
}

#[test]
fn orientation_progress_and_missing_faces() {
    let counts = [10, 3, 0, 12, 10, 9];
    assert_eq!(
        orientation_bins_summary(&counts, 10),
        "+X OK -X 3/10 +Y 0/10 -Y OK +Z OK -Z 9/10"
    );
    assert_eq!(orientation_missing_faces(&counts, 10), vec!["-X", "+Y", "-Z"]);
}

#[test]
fn orientation_is_covered_only_when_every_face_has_enough_samples() {
    assert!(orientation_covered(&[10, 11, 10, 12, 10, 30], 10));
    assert!(!orientation_covered(&[10, 11, 10, 12, 10, 9], 10));
    assert!(orientation_covered(&[0; 6], 0));
    assert!(orientation_missing_faces(&[10, 11, 10, 12, 10, 30], 10).is_empty());
}

#[test]
fn run_labels_are_sanitized() {
    assert_eq!(safe_label("stationary run #1"), "stationary-run--1");
    assert_eq!(safe_label("--__--"), "__");
    assert_eq!(safe_label("///"), "run");
    assert_eq!(safe_label(""), "run");
    assert_eq!(safe_label("a.b-c_d"), "a.b-c_d");
}

#[test]
fn allan_cluster_sizes_grow_geometrically() {
    assert_eq!(allan_sizes(0), Vec::<usize>::new());
    assert_eq!(allan_sizes(3), vec![1]);
    assert_eq!(allan_sizes(20), vec![1, 2, 3, 4, 6, 9]);
    assert_eq!(cluster_sizes_log(20), vec![1, 2, 3, 5, 8]);
    assert_eq!(cluster_sizes_log(2), Vec::<usize>::new());
}

#[test]
fn frames_arriving_in_two_pieces_are_reassembled() {
    let a = frame(0x68, [1, 2, 3], 4, [5, 6, 7], 1_000, 10);
    let b = frame(0x68, [-1, -2, -3], -4, [-5, -6, -7], 2_000, 11);
    let mut stream = a.encode();
    stream.extend_from_slice(&b.encode());
    let whole = BinaryFrameDecoder::new().push(&stream);
    assert_eq!(whole, vec![DecodeEvent::Sample(a), DecodeEvent::Sample(b)]);
    for cut in [0usize, 2, 3, 20, 37, 38, 40, 75, 76] {
        let mut d = BinaryFrameDecoder::new();
        let mut ev = d.push(&stream[..cut]);
        ev.extend(d.push(&stream[cut..]));
        assert_eq!(ev, whole, "cut at {cut}");
    }
    // One byte into a frame, the lone first magic byte is dropped with the
    // buffer and that frame is lost.
    let mut d = BinaryFrameDecoder::new();
    let mut ev = d.push(&stream[..39]);
    ev.extend(d.push(&stream[39..]));
    assert_eq!(ev[0], DecodeEvent::Sample(a));
    assert_eq!(ev[1], DecodeEvent::Warning(DecodeWarning::Discarded { count: 1 }));
    assert!(!ev.contains(&DecodeEvent::Sample(b)));
}

#[test]
fn appending_the_crc_big_endian_leaves_a_zero_residue() {
    for data in [&b""[..], &b"123456789"[..], &[0xFF, 0x00, 0x49, 0x4D][..]] {
        let c = crc16_ccitt_false(data);
        let mut message = data.to_vec();
        message.extend_from_slice(&c.to_be_bytes());
        assert_eq!(crc16_ccitt_false(&message), 0);
    }
    assert_eq!(crc16_ccitt_false(b"123456789"), 0x29B1);
}

#[test]
fn cluster_sizes_grow_by_half_to_double_and_leave_an_overlap() {
    for n in [0usize, 1, 2, 3, 7, 100, 10_000] {
        let out = cluster_sizes_log(n);
        assert_eq!(out.is_empty(), n <= 2);
        if n >= 3 {
            assert_eq!(out[0], 1);
        }
        for w in out.windows(2) {
            assert!(w[0] < w[1] && 3 * w[0] <= 2 * w[1] && w[1] <= 2 * w[0]);
        }
        assert!(out.iter().all(|&m| n > 2 * m));
    }
}
