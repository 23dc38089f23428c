//! The verification summary the firmware prints after probing the device, and
//! what the host's log check reads back from it.
use crate::config::Identity;
use crate::fields::{is_ws, starts_with};
use crate::integrity::{leading_ws, trailing_ws, trim_ws};
use crate::logcheck::{
    address_reported, address_text, all_hex, hex_number, identity_reported,
    last_identity, last_value, pairs_view, power_readable, unsigned_part, who_is, who_value,
};
use crate::logtext::{
    contents_match, joined_lines, key_char, key_len, lemma_segments_of_joined, log_after, log_step,
    segments, summary_pair, LogContents, LogState,
};
use crate::tool::{identity_matches, ExpectedIdentity};
use crate::rawline::{hex_value, is_hex, lit_at, raw_core};
use crate::probe::ProbeResult;
use crate::startup::{
    evidence_score, level_name, level_of_score, verdict_name, verdict_of, IdentityVerdict,
    VerificationEvidence,
};
use crate::text::{decimal, flag_text, hex_fixed, push_decimal, push_hex_fixed, push_str};
use vstd::prelude::*;

verus! {

/// A register value as the summary writes it: `0x` and two lower-case
/// hexadecimal digits, or `unreadable`.
pub open spec fn register_text(v: Option<u8>) -> Seq<char> {
    match v {
        Some(b) => "0x"@ + hex_fixed(b as nat, 2),
        None => "unreadable"@,
    }
}

/// The verdict for the identity of the evidence, `Unknown` when none was read.
pub open spec fn evidence_verdict(e: VerificationEvidence) -> IdentityVerdict {
    match e.identity {
        Some(id) => verdict_of(id),
        None => IdentityVerdict::Unknown,
    }
}

/// The lines of the verification summary for `probe` and the evidence drawn
/// from it, with `note` as the last line before the closing marker.
pub open spec fn summary_lines(probe: ProbeResult, evidence: VerificationEvidence, note: Seq<
    char,
>) -> Seq<Seq<char>> {
    seq![
        "verification_summary_begin"@,
        "bus_address="@ + register_text(Some(probe.address)),
        "who_am_i="@ + register_text(probe.who_am_i),
        "pwr_mgmt_1="@ + register_text(probe.pwr_mgmt_1),
        "identity_verdict="@ + verdict_name(evidence_verdict(evidence)),
        "verification_score="@ + decimal(evidence_score(evidence) as nat),
        "verification_level="@ + level_name(level_of_score(evidence_score(evidence) as u8)),
        "non_classic_identity="@ + flag_text(probe.identity == Some(Identity::Mpu6500Compatible)),
        note,
        "verification_summary_end"@,
    ]
}

/// `key` followed by a register value.
fn register_line(key: &str, v: Option<u8>) -> (line: String)
    ensures
        line@ == key@ + register_text(v),
{
    let mut s = String::new();
    push_str(&mut s, key);
    match v {
        Some(b) => {
            let ghost k = s@;
            push_str(&mut s, "0x");
            push_hex_fixed(&mut s, b as u64, 2);
            assert(s@ =~= k + ("0x"@ + hex_fixed(b as nat, 2)));
        },
        None => push_str(&mut s, "unreadable"),
    }
    s
}

/// `key` followed by `value`.
fn text_line(key: &str, value: &str) -> (line: String)
    ensures
        line@ == key@ + value@,
{
    let mut s = String::new();
    push_str(&mut s, key);
    push_str(&mut s, value);
    s
}

/// The verification summary the firmware prints for `probe`, with the evidence
/// the board drew from it, closing with `note`: the bus address, `WHO_AM_I`
/// and `PWR_MGMT_1` as read, the identity verdict, the evidence score and
/// level, and whether the identity is the compatible, non-classic one.
pub fn verification_summary_lines(probe: ProbeResult, evidence: VerificationEvidence, note: &str) -> (lines:
    Vec<String>)
    ensures
        lines@.len() == summary_lines(probe, evidence, note@).len(),
        forall|i: int|
            0 <= i < lines@.len() ==> (#[trigger] lines@[i])@ == summary_lines(
                probe,
                evidence,
                note@,
            )[i],
{
    let mut lines: Vec<String> = Vec::new();
    lines.push(text_line("verification_summary_begin", ""));
    lines.push(register_line("bus_address=", Some(probe.address)));
    lines.push(register_line("who_am_i=", probe.who_am_i));
    lines.push(register_line("pwr_mgmt_1=", probe.pwr_mgmt_1));
    lines.push(text_line("identity_verdict=", evidence.identity_verdict().as_str()));
    let score = evidence.score();
    let mut score_line = String::new();
    push_str(&mut score_line, "verification_score=");
    push_decimal(&mut score_line, score as u64);
    lines.push(score_line);
    lines.push(text_line("verification_level=", evidence.level().as_str()));
    let non_classic = match probe.identity {
        Some(Identity::Mpu6500Compatible) => "true",
        _ => "false",
    };
    lines.push(text_line("non_classic_identity=", non_classic));
    lines.push(text_line(note, ""));
    lines.push(text_line("verification_summary_end", ""));
    proof {
        reveal_strlit("");
        let want = summary_lines(probe, evidence, note@);
        assert(lines@[0]@ =~= want[0]);
        assert(lines@[8]@ =~= want[8]);
        assert(lines@[9]@ =~= want[9]);
    }
    lines
}

/// A run of key characters ends where the first other character stands.
proof fn lemma_key_len(key: Seq<char>, rest: Seq<char>)
    requires
        forall|i: int| 0 <= i < key.len() ==> key_char(#[trigger] key[i]),
        rest.len() > 0,
        !key_char(rest[0]),
    ensures
        key_len(key + rest) == key.len(),
    decreases key.len(),
{
    if key.len() == 0 {
        assert((key + rest)[0] == rest[0]);
    } else {
        let tail = key.drop_first();
        assert forall|i: int| 0 <= i < tail.len() implies key_char(#[trigger] tail[i]) by {
            assert(tail[i] == key[i + 1]);
        }
        lemma_key_len(tail, rest);
        assert((key + rest).drop_first() =~= tail + rest);
        assert((key + rest)[0] == key[0]);
    }
}

/// A `key=value` line, with a key of key characters that does not start
/// like a raw sample line and a value that does not end in whitespace, is
/// its own trimmed form, is no raw sample line, and splits into its key and
/// value.
proof fn lemma_pair_line(key: Seq<char>, value: Seq<char>)
    requires
        key.len() > 0,
        forall|i: int| 0 <= i < key.len() ==> key_char(#[trigger] key[i]),
        key[0] != 'R',
        value.len() > 0,
        !is_ws(value.last()),
    ensures
        trim_ws(key + "="@ + value) == key + "="@ + value,
        raw_core(key + "="@ + value) is None,
        summary_pair(key + "="@ + value) == Some((key, value)),
{
    reveal_strlit("=");
    reveal_strlit("RAW 0x");
    let line = key + "="@ + value;
    let rest = "="@ + value;
    assert(line =~= key + rest);
    assert(rest[0] == '=');
    lemma_key_len(key, rest);
    assert(line[0] == key[0]);
    assert(key_char(key[0]));
    assert(!is_ws(line[0]));
    assert(line.last() == value.last());
    assert(leading_ws(line) == 0);
    assert(trailing_ws(line) == 0);
    assert(line.subrange(0, line.len() as int) =~= line);
    if lit_at(line, 0, "RAW 0x"@) {
        assert(line[0] == line.subrange(0, 6)[0]);
    }
    assert(line[key.len() as int] == '=');
    assert(line.take(key.len() as int) =~= key);
    assert(line.skip(key.len() as int + 1) =~= value);
}

/// A `key=value` line inside the summary adds its pair and nothing else.
proof fn lemma_pair_step(st: LogState, key: Seq<char>, value: Seq<char>)
    requires
        st.in_summary,
        key.len() > 0,
        forall|i: int| 0 <= i < key.len() ==> key_char(#[trigger] key[i]),
        key[0] != 'R',
        value.len() > 0,
        !is_ws(value.last()),
        key + "="@ + value != "verification_summary_begin"@,
        key + "="@ + value != "verification_summary_end"@,
    ensures
        log_step(st, trim_ws(key + "="@ + value)) == (LogState {
            pairs: st.pairs.push((key, value)),
            ..st
        }),
{
    lemma_pair_line(key, value);
}

/// A register value as the summary writes it is not empty and does not end
/// in whitespace.
proof fn lemma_register_text_plain(v: Option<u8>)
    ensures
        register_text(v).len() > 0,
        !is_ws(register_text(v).last()),
{
    reveal_strlit("0x");
    reveal_strlit("unreadable");
    match v {
        Some(b) => {
            reveal_with_fuel(hex_fixed, 3);
            crate::telemetry::lemma_hex_char_value((b % 16) as nat);
            assert(register_text(v).last() == crate::text::hex_char((b % 16) as nat));
        },
        None => {},
    }
}

/// The decimal digits of `n` are not empty and end in a digit.
proof fn lemma_decimal_plain(n: nat)
    ensures
        decimal(n).len() > 0,
        !is_ws(decimal(n).last()),
{
    crate::telemetry::lemma_digit_char_value(n % 10);
    if n < 10 {
        assert(decimal(n).last() == crate::text::digit_char(n));
    } else {
        assert(decimal(n).last() == crate::text::digit_char(n % 10));
    }
}

/// The pairs a summary's fixed lines give, in order.
pub open spec fn fixed_pairs(probe: ProbeResult, evidence: VerificationEvidence) -> Seq<
    (Seq<char>, Seq<char>),
> {
    seq![
        ("bus_address"@, register_text(Some(probe.address))),
        ("who_am_i"@, register_text(probe.who_am_i)),
        ("pwr_mgmt_1"@, register_text(probe.pwr_mgmt_1)),
        ("identity_verdict"@, verdict_name(evidence_verdict(evidence))),
        ("verification_score"@, decimal(evidence_score(evidence) as nat)),
        ("verification_level"@, level_name(level_of_score(evidence_score(evidence) as u8))),
        ("non_classic_identity"@, flag_text(probe.identity == Some(Identity::Mpu6500Compatible))),
    ]
}

/// The pairs the host reads from a summary: those of the fixed lines, then
/// the note's, if it is a `key=value` line.
pub open spec fn summary_read_pairs(probe: ProbeResult, evidence: VerificationEvidence, note: Seq<
    char,
>) -> Seq<(Seq<char>, Seq<char>)> {
    match summary_pair(note) {
        Some(p) => fixed_pairs(probe, evidence).push(p),
        None => fixed_pairs(probe, evidence),
    }
}

/// A note the summary can close with: a trimmed line that is neither a
/// summary marker nor a raw sample line.
pub open spec fn plain_note(note: Seq<char>) -> bool {
    &&& trim_ws(note) == note
    &&& raw_core(note) is None
    &&& note != "verification_summary_begin"@
    &&& note != "verification_summary_end"@
}

/// Line `k` of the summary, for `1 <= k <= 7`, is the `key=value` line of
/// fixed pair `k - 1`, and reading it inside the summary adds that pair.
proof fn lemma_fixed_step(
    probe: ProbeResult,
    evidence: VerificationEvidence,
    note: Seq<char>,
    k: int,
    st: LogState,
)
    requires
        1 <= k <= 7,
        st.in_summary,
    ensures
        log_step(st, trim_ws(summary_lines(probe, evidence, note)[k])) == (LogState {
            pairs: st.pairs.push(fixed_pairs(probe, evidence)[k - 1]),
            ..st
        }),
{
    let lines = summary_lines(probe, evidence, note);
    let fp = fixed_pairs(probe, evidence);
    let key = fp[k - 1].0;
    let value = fp[k - 1].1;
    let begin = "verification_summary_begin"@;
    let end = "verification_summary_end"@;
    reveal_strlit("verification_summary_begin");
    reveal_strlit("verification_summary_end");
    reveal_strlit("=");
    lemma_names_plain(probe, evidence);
    if k == 1 {
        reveal_strlit("bus_address=");
        reveal_strlit("bus_address");
        lemma_register_text_plain(Some(probe.address));
        assert(lines[k] =~= key + "="@ + value);
        assert(lines[k][0] != begin[0] && lines[k][0] != end[0]);
    } else if k == 2 {
        reveal_strlit("who_am_i=");
        reveal_strlit("who_am_i");
        lemma_register_text_plain(probe.who_am_i);
        assert(lines[k] =~= key + "="@ + value);
        assert(lines[k][0] != begin[0] && lines[k][0] != end[0]);
    } else if k == 3 {
        reveal_strlit("pwr_mgmt_1=");
        reveal_strlit("pwr_mgmt_1");
        lemma_register_text_plain(probe.pwr_mgmt_1);
        assert(lines[k] =~= key + "="@ + value);
        assert(lines[k][0] != begin[0] && lines[k][0] != end[0]);
    } else if k == 4 {
        reveal_strlit("identity_verdict=");
        reveal_strlit("identity_verdict");
        assert(lines[k] =~= key + "="@ + value);
        assert(lines[k][0] != begin[0] && lines[k][0] != end[0]);
    } else if k == 5 {
        reveal_strlit("verification_score=");
        reveal_strlit("verification_score");
        lemma_decimal_plain(evidence_score(evidence) as nat);
        assert(lines[k] =~= key + "="@ + value);
        assert(lines[k][14] != begin[14] && lines[k][14] != end[14]);
    } else if k == 6 {
        reveal_strlit("verification_level=");
        reveal_strlit("verification_level");
        assert(lines[k] =~= key + "="@ + value);
        assert(lines[k][14] != begin[14] && lines[k][14] != end[14]);
    } else {
        reveal_strlit("non_classic_identity=");
        reveal_strlit("non_classic_identity");
        assert(lines[k] =~= key + "="@ + value);
        assert(lines[k][0] != begin[0] && lines[k][0] != end[0]);
    }
    lemma_pair_step(st, key, value);
}

/// The host reads the summary's lines back as its pairs: reading the summary
/// alone leaves the summary closed, no raw samples, and exactly the pairs of
/// its `key=value` lines, in order.
pub proof fn lemma_summary_lines_read_back(
    probe: ProbeResult,
    evidence: VerificationEvidence,
    note: Seq<char>,
)
    requires
        plain_note(note),
    ensures
        ({
            let lines = summary_lines(probe, evidence, note);
            log_after(lines, lines.len() as int) == (LogState {
                in_summary: false,
                pairs: summary_read_pairs(probe, evidence, note),
                raw_lines: Seq::empty(),
            })
        }),
{
    let lines = summary_lines(probe, evidence, note);
    let fp = fixed_pairs(probe, evidence);
    let begin = "verification_summary_begin"@;
    let end = "verification_summary_end"@;
    reveal_strlit("verification_summary_begin");
    reveal_strlit("verification_summary_end");
    let s0 = LogState { in_summary: false, pairs: Seq::empty(), raw_lines: Seq::empty() };
    assert(leading_ws(begin) == 0);
    assert(trailing_ws(begin) == 0);
    assert(begin.subrange(0, begin.len() as int) =~= begin);
    assert(log_after(lines, 0) == s0);
    assert(lines[0] == begin);
    assert(trim_ws(begin) == begin);
    let s1 = LogState { in_summary: true, ..s0 };
    assert(log_after(lines, 1) == s1);
    lemma_fixed_step(probe, evidence, note, 1, s1);
    let s2 = LogState { pairs: s1.pairs.push(fp[0]), ..s1 };
    assert(log_after(lines, 2) == s2);
    lemma_fixed_step(probe, evidence, note, 2, s2);
    let s3 = LogState { pairs: s2.pairs.push(fp[1]), ..s2 };
    assert(log_after(lines, 3) == s3);
    lemma_fixed_step(probe, evidence, note, 3, s3);
    let s4 = LogState { pairs: s3.pairs.push(fp[2]), ..s3 };
    assert(log_after(lines, 4) == s4);
    lemma_fixed_step(probe, evidence, note, 4, s4);
    let s5 = LogState { pairs: s4.pairs.push(fp[3]), ..s4 };
    assert(log_after(lines, 5) == s5);
    lemma_fixed_step(probe, evidence, note, 5, s5);
    let s6 = LogState { pairs: s5.pairs.push(fp[4]), ..s5 };
    assert(log_after(lines, 6) == s6);
    lemma_fixed_step(probe, evidence, note, 6, s6);
    let s7 = LogState { pairs: s6.pairs.push(fp[5]), ..s6 };
    assert(log_after(lines, 7) == s7);
    lemma_fixed_step(probe, evidence, note, 7, s7);
    let s8 = LogState { pairs: s7.pairs.push(fp[6]), ..s7 };
    assert(log_after(lines, 8) == s8);
    assert(s8.pairs =~= fp);
    assert(log_after(lines, 9) == log_step(s8, note));
    assert(log_after(lines, 9).pairs == summary_read_pairs(probe, evidence, note));
    assert(leading_ws(end) == 0);
    assert(trailing_ws(end) == 0);
    assert(end.subrange(0, end.len() as int) =~= end);
    assert(trim_ws(end) == end);
}

/// The values of the fixed summary lines are not empty and do not end in
/// whitespace.
proof fn lemma_names_plain(probe: ProbeResult, evidence: VerificationEvidence)
    ensures
        verdict_name(evidence_verdict(evidence)).len() > 0,
        !is_ws(verdict_name(evidence_verdict(evidence)).last()),
        level_name(level_of_score(evidence_score(evidence) as u8)).len() > 0,
        !is_ws(level_name(level_of_score(evidence_score(evidence) as u8)).last()),
        flag_text(probe.identity == Some(Identity::Mpu6500Compatible)).len() > 0,
        !is_ws(flag_text(probe.identity == Some(Identity::Mpu6500Compatible)).last()),
{
    reveal_strlit("ClassicMpu6050");
    reveal_strlit("Mpu6500CompatibleNonClassic");
    reveal_strlit("Unknown");
    reveal_strlit("MarkingOnly");
    reveal_strlit("I2cResponsiveCompatibleDevice");
    reveal_strlit("FunctionalRegisterCompatibleImu");
    reveal_strlit("MotionVerifiedCompatibleImu");
    reveal_strlit("AdvancedVerifiedCompatibleImu");
    reveal_strlit("true");
    reveal_strlit("false");
}

/// A register value written by the summary reads back as that value, and
/// an unreadable one as none.
proof fn lemma_register_text_reads_back(v: Option<u8>)
    ensures
        who_value(register_text(v)) == v,
        (register_text(v) == "unreadable"@) == (v is None),
{
    reveal_strlit("0x");
    reveal_strlit("unreadable");
    lemma_register_text_plain(v);
    let t = register_text(v);
    assert(!is_ws(t[0]));
    assert(leading_ws(t) == 0);
    assert(trailing_ws(t) == 0);
    assert(t.subrange(0, t.len() as int) =~= t);
    assert(trim_ws(t) == t);
    match v {
        Some(b) => {
            reveal_with_fuel(hex_fixed, 3);
            let hi = (b / 16) as nat;
            let lo = (b % 16) as nat;
            crate::telemetry::lemma_hex_char_value(hi);
            crate::telemetry::lemma_hex_char_value(lo);
            let d = hex_fixed(b as nat, 2);
            assert(d =~= seq![crate::text::hex_char(hi), crate::text::hex_char(lo)]);
            assert(t.take(2) =~= "0x"@);
            assert(starts_with(t, "0x"@));
            assert(t.skip(2) =~= d);
            assert(unsigned_part(d) == d);
            assert(all_hex(d));
            assert(d.drop_last() =~= seq![crate::text::hex_char(hi)]);
            assert(d.drop_last().drop_last() =~= Seq::<char>::empty());
            assert(hex_number(d) == hex_number(d.drop_last()) * 16 + hex_value(d.last()));
            let h = d.drop_last();
            assert(h.drop_last() =~= Seq::<char>::empty());
            assert(hex_number(h.drop_last()) == 0);
            assert(h.last() == crate::text::hex_char(hi));
            assert(hex_number(h) == hex_number(h.drop_last()) * 16 + hex_value(h.last()));
            assert(hex_number(d.drop_last()) == hi);
            assert(hex_number(d) == b);
            assert(t.len() != "unreadable"@.len());
        },
        None => {
            assert(!starts_with(t, "0x"@)) by {
                if starts_with(t, "0x"@) {
                    assert(t[1] == t.take(2)[1]);
                }
            }
            assert(unsigned_part(t) == t);
            assert(!is_hex(t[0]));
            assert(!all_hex(t));
        },
    }
}

/// The summary writes the bus address as the host's check expects it.
proof fn lemma_address_text(a: u8)
    ensures
        address_text(a as i32) == "0x"@ + hex_fixed(a as nat, 2),
{
    reveal_strlit("0x");
    reveal_strlit("0x0");
    reveal_with_fuel(hex_fixed, 3);
    reveal_with_fuel(crate::text::hex_digits, 2);
    let n = ((a as i32) as u32) as nat;
    assert(n == a);
    if n < 16 {
        assert(hex_fixed(a as nat, 2) =~= seq!['0', crate::text::hex_char(n)]) by {
            assert(crate::text::hex_char(0) == '0');
        }
        assert("0x0"@ + crate::text::hex_digits(n) =~= "0x"@ + hex_fixed(a as nat, 2));
    } else {
        assert(n / 16 < 16);
        assert((n / 16) % 16 == n / 16);
        assert("0x"@ + crate::text::hex_digits(n) =~= "0x"@ + hex_fixed(a as nat, 2));
    }
}

/// The keys of the fixed pairs after the first three are none of the keys the
/// host's check looks at.
proof fn lemma_other_keys(probe: ProbeResult, evidence: VerificationEvidence, i: int)
    requires
        3 <= i < 7,
    ensures
        fixed_pairs(probe, evidence)[i].0 != "bus_address"@,
        fixed_pairs(probe, evidence)[i].0 != "who_am_i"@,
        fixed_pairs(probe, evidence)[i].0 != "pwr_mgmt_1"@,
{
    reveal_strlit("bus_address");
    reveal_strlit("who_am_i");
    reveal_strlit("pwr_mgmt_1");
    reveal_strlit("identity_verdict");
    reveal_strlit("verification_score");
    reveal_strlit("verification_level");
    reveal_strlit("non_classic_identity");
    let k = fixed_pairs(probe, evidence)[i].0;
    assert(k[0] != "bus_address"@[0]);
    assert(k[0] != "who_am_i"@[0]);
    assert(k[0] != "pwr_mgmt_1"@[0]);
}

/// What the host's check finds in the fixed pairs of a summary.
proof fn lemma_fixed_pairs_checks(
    probe: ProbeResult,
    evidence: VerificationEvidence,
    expected: ExpectedIdentity,
)
    ensures
        ({
            let fp = fixed_pairs(probe, evidence);
            &&& address_reported(fp, probe.address as i32)
            &&& last_identity(fp) == probe.who_am_i
            &&& identity_reported(fp, expected) == (probe.who_am_i matches Some(w)
                && identity_matches(expected, w))
            &&& last_value(fp, "pwr_mgmt_1"@) == Some(register_text(probe.pwr_mgmt_1))
        }),
{
    let fp = fixed_pairs(probe, evidence);
    reveal_strlit("bus_address");
    reveal_strlit("who_am_i");
    reveal_strlit("pwr_mgmt_1");
    lemma_other_keys(probe, evidence, 3);
    lemma_other_keys(probe, evidence, 4);
    lemma_other_keys(probe, evidence, 5);
    lemma_other_keys(probe, evidence, 6);
    assert("bus_address"@ != "who_am_i"@ && "bus_address"@ != "pwr_mgmt_1"@) by {
        assert("bus_address"@[0] != "who_am_i"@[0]);
        assert("bus_address"@[0] != "pwr_mgmt_1"@[0]);
    }
    assert("who_am_i"@ != "pwr_mgmt_1"@) by {
        assert("who_am_i"@[0] != "pwr_mgmt_1"@[0]);
    }
    // The address.
    lemma_address_text(probe.address);
    assert(address_reported(fp, probe.address as i32)) by {
        assert(fp[0].0 == "bus_address"@);
    }
    // Walking back from the end.
    lemma_register_text_reads_back(probe.who_am_i);
    lemma_register_text_reads_back(probe.pwr_mgmt_1);
    assert(fp.drop_last() =~= fp.take(6));
    assert(fp.take(6).drop_last() =~= fp.take(5));
    assert(fp.take(5).drop_last() =~= fp.take(4));
    assert(fp.take(4).drop_last() =~= fp.take(3));
    assert(fp.take(3).drop_last() =~= fp.take(2));
    assert(fp.take(2).drop_last() =~= fp.take(1));
    assert(fp.take(1).drop_last() =~= Seq::<(Seq<char>, Seq<char>)>::empty());
    assert(fp.take(1).last() == fp[0]);
    assert(last_identity(fp.take(1).drop_last()) == None::<u8>);
    assert(last_identity(fp.take(1)) == None::<u8>);
    assert(last_identity(fp.take(2)) == probe.who_am_i);
    assert(last_identity(fp.take(3)) == probe.who_am_i);
    assert(last_identity(fp.take(4)) == probe.who_am_i);
    assert(last_identity(fp.take(5)) == probe.who_am_i);
    assert(last_identity(fp.take(6)) == probe.who_am_i);
    assert(last_value(fp.take(3), "pwr_mgmt_1"@) == Some(register_text(probe.pwr_mgmt_1)));
    assert(last_value(fp.take(4), "pwr_mgmt_1"@) == Some(register_text(probe.pwr_mgmt_1)));
    assert(last_value(fp.take(5), "pwr_mgmt_1"@) == Some(register_text(probe.pwr_mgmt_1)));
    assert(last_value(fp.take(6), "pwr_mgmt_1"@) == Some(register_text(probe.pwr_mgmt_1)));
    // The identity check.
    if identity_reported(fp, expected) {
        let i = choose|i: int|
            0 <= i < fp.len() && (#[trigger] fp[i]).0 == "who_am_i"@ && who_is(fp[i].1, expected);
        if i >= 3 {
            lemma_other_keys(probe, evidence, i);
        }
        assert(i == 1);
    }
    if probe.who_am_i matches Some(w) && identity_matches(expected, w) {
        assert(fp[1].0 == "who_am_i"@ && who_is(fp[1].1, expected));
    }
}

/// A note whose key, if it has one, is none of the keys the host's check
/// looks at.
pub open spec fn note_key_apart(note: Seq<char>) -> bool {
    summary_pair(note) matches Some(p) ==> {
        &&& p.0 != "bus_address"@
        &&& p.0 != "who_am_i"@
        &&& p.0 != "pwr_mgmt_1"@
    }
}

/// What the host's check finds in the pairs it reads from a summary.
proof fn lemma_read_pairs_checks(
    probe: ProbeResult,
    evidence: VerificationEvidence,
    note: Seq<char>,
    expected: ExpectedIdentity,
)
    requires
        note_key_apart(note),
    ensures
        ({
            let pairs = summary_read_pairs(probe, evidence, note);
            &&& address_reported(pairs, probe.address as i32)
            &&& last_identity(pairs) == probe.who_am_i
            &&& identity_reported(pairs, expected) == (probe.who_am_i matches Some(w)
                && identity_matches(expected, w))
            &&& power_readable(pairs) == (probe.pwr_mgmt_1 is Some)
        }),
{
    let fp = fixed_pairs(probe, evidence);
    let pairs = summary_read_pairs(probe, evidence, note);
    lemma_fixed_pairs_checks(probe, evidence, expected);
    lemma_register_text_reads_back(probe.pwr_mgmt_1);
    match summary_pair(note) {
        Some(np) => {
            assert(pairs == fp.push(np));
            assert(pairs.drop_last() =~= fp);
            assert(pairs.last() == np);
            assert(pairs[0] == fp[0]);
            assert(address_reported(pairs, probe.address as i32)) by {
                let i = choose|i: int|
                    0 <= i < fp.len() && (#[trigger] fp[i]).0 == "bus_address"@ && crate::fields::to_ascii_lower(
                        fp[i].1,
                    ) == crate::fields::to_ascii_lower(address_text(probe.address as i32));
                assert(pairs[i] == fp[i]);
            }
            if identity_reported(pairs, expected) {
                let i = choose|i: int|
                    0 <= i < pairs.len() && (#[trigger] pairs[i]).0 == "who_am_i"@ && who_is(
                        pairs[i].1,
                        expected,
                    );
                assert(i < 7);
                assert(pairs[i] == fp[i]);
            }
            if identity_reported(fp, expected) {
                let i = choose|i: int|
                    0 <= i < fp.len() && (#[trigger] fp[i]).0 == "who_am_i"@ && who_is(fp[i].1, expected);
                assert(pairs[i] == fp[i]);
            }
        },
        None => {},
    }
}

/// The host's check accepts what the firmware's verification summary
/// reports: reading the summary gives no raw samples; the address check
/// passes for the probed address; the identity observed is the `WHO_AM_I`
/// value read, none when it was unreadable; the identity check passes exactly
/// when that value is the expected one; the power check passes exactly when
/// `PWR_MGMT_1` was read.
pub proof fn lemma_summary_passes_log_check(
    probe: ProbeResult,
    evidence: VerificationEvidence,
    note: Seq<char>,
    expected: ExpectedIdentity,
)
    requires
        plain_note(note),
        note_key_apart(note),
    ensures
        ({
            let lines = summary_lines(probe, evidence, note);
            let st = log_after(lines, lines.len() as int);
            &&& st.raw_lines.len() == 0
            &&& address_reported(st.pairs, probe.address as i32)
            &&& last_identity(st.pairs) == probe.who_am_i
            &&& identity_reported(st.pairs, expected) == (probe.who_am_i matches Some(w)
                && identity_matches(expected, w))
            &&& power_readable(st.pairs) == (probe.pwr_mgmt_1 is Some)
        }),
{
    lemma_summary_lines_read_back(probe, evidence, note);
    lemma_read_pairs_checks(probe, evidence, note, expected);
}

/// Two texts without a line break joined have none.
proof fn lemma_no_break_concat(a: Seq<char>, b: Seq<char>)
    requires
        !a.contains('\n'),
        !b.contains('\n'),
    ensures
        !(a + b).contains('\n'),
{
    if (a + b).contains('\n') {
        let i = choose|i: int| 0 <= i < (a + b).len() && (a + b)[i] == '\n';
        if i < a.len() {
            assert(a[i] == '\n');
        } else {
            assert(b[i - a.len()] == '\n');
        }
    }
}

/// The values the summary writes hold no line break.
proof fn lemma_values_no_break(probe: ProbeResult, evidence: VerificationEvidence)
    ensures
        forall|i: int| 0 <= i < 7 ==> !(#[trigger] fixed_pairs(probe, evidence)[i]).1.contains('\n'),
{
    let fp = fixed_pairs(probe, evidence);
    reveal_strlit("0x");
    reveal_strlit("unreadable");
    reveal_strlit("ClassicMpu6050");
    reveal_strlit("Mpu6500CompatibleNonClassic");
    reveal_strlit("Unknown");
    reveal_strlit("MarkingOnly");
    reveal_strlit("I2cResponsiveCompatibleDevice");
    reveal_strlit("FunctionalRegisterCompatibleImu");
    reveal_strlit("MotionVerifiedCompatibleImu");
    reveal_strlit("AdvancedVerifiedCompatibleImu");
    reveal_strlit("true");
    reveal_strlit("false");
    assert forall|v: Option<u8>| !(#[trigger] register_text(v)).contains('\n') by {
        match v {
            Some(b) => {
                reveal_with_fuel(hex_fixed, 3);
                crate::telemetry::lemma_hex_char_value((b / 16) as nat);
                crate::telemetry::lemma_hex_char_value((b % 16) as nat);
                let d = hex_fixed(b as nat, 2);
                assert(d =~= seq![
                    crate::text::hex_char((b / 16) as nat),
                    crate::text::hex_char((b % 16) as nat),
                ]);
                assert(!d.contains('\n'));
                assert(!"0x"@.contains('\n'));
                lemma_no_break_concat("0x"@, d);
            },
            None => {
                assert(!"unreadable"@.contains('\n'));
            },
        }
    }
    let n = evidence_score(evidence) as nat;
    crate::telemetry::lemma_decimal_value(n);
    assert(!decimal(n).contains('\n')) by {
        if decimal(n).contains('\n') {
            let i = choose|i: int| 0 <= i < decimal(n).len() && decimal(n)[i] == '\n';
            assert(crate::rawline::is_digit(decimal(n)[i]));
        }
    }
    assert(!fp[0].1.contains('\n'));
    assert(!fp[1].1.contains('\n'));
    assert(!fp[2].1.contains('\n'));
    assert(!fp[3].1.contains('\n'));
    assert(!fp[4].1.contains('\n'));
    assert(!fp[5].1.contains('\n'));
    assert(!fp[6].1.contains('\n'));
}

/// No line of the summary holds a line break, given that the note holds none.
proof fn lemma_lines_no_break(probe: ProbeResult, evidence: VerificationEvidence, note: Seq<char>)
    requires
        !note.contains('\n'),
    ensures
        forall|i: int|
            0 <= i < summary_lines(probe, evidence, note).len() ==> !(#[trigger] summary_lines(
                probe,
                evidence,
                note,
            )[i]).contains('\n'),
{
    let lines = summary_lines(probe, evidence, note);
    let fp = fixed_pairs(probe, evidence);
    lemma_values_no_break(probe, evidence);
    reveal_strlit("verification_summary_begin");
    reveal_strlit("verification_summary_end");
    reveal_strlit("bus_address=");
    reveal_strlit("who_am_i=");
    reveal_strlit("pwr_mgmt_1=");
    reveal_strlit("identity_verdict=");
    reveal_strlit("verification_score=");
    reveal_strlit("verification_level=");
    reveal_strlit("non_classic_identity=");
    assert(!"verification_summary_begin"@.contains('\n'));
    assert(!"verification_summary_end"@.contains('\n'));
    assert(!fp[0].1.contains('\n'));
    assert(!fp[1].1.contains('\n'));
    assert(!fp[2].1.contains('\n'));
    assert(!fp[3].1.contains('\n'));
    assert(!fp[4].1.contains('\n'));
    assert(!fp[5].1.contains('\n'));
    assert(!fp[6].1.contains('\n'));
    lemma_no_break_concat("bus_address="@, fp[0].1);
    lemma_no_break_concat("who_am_i="@, fp[1].1);
    lemma_no_break_concat("pwr_mgmt_1="@, fp[2].1);
    lemma_no_break_concat("identity_verdict="@, fp[3].1);
    lemma_no_break_concat("verification_score="@, fp[4].1);
    lemma_no_break_concat("verification_level="@, fp[5].1);
    lemma_no_break_concat("non_classic_identity="@, fp[6].1);
}

/// The verification summary as one text, its lines joined by line breaks.
pub open spec fn summary_text(probe: ProbeResult, evidence: VerificationEvidence, note: Seq<char>) -> Seq<
    char,
> {
    joined_lines(summary_lines(probe, evidence, note))
}

/// The host's log check accepts the firmware's verification summary as a
/// captured log: whatever the host reads from the summary's text holds no raw
/// sample; its pairs report the probed address; the identity observed is the
/// `WHO_AM_I` value read, none when it was unreadable; the identity check
/// passes exactly when that value is the expected one; the power check passes
/// exactly when `PWR_MGMT_1` was read.
pub proof fn lemma_summary_text_passes_log_check(
    probe: ProbeResult,
    evidence: VerificationEvidence,
    note: Seq<char>,
    expected: ExpectedIdentity,
    contents: LogContents,
)
    requires
        plain_note(note),
        note_key_apart(note),
        !note.contains('\n'),
        contents_match(
            contents,
            log_after(
                segments(summary_text(probe, evidence, note)),
                segments(summary_text(probe, evidence, note)).len() as int,
            ),
        ),
    ensures
        ({
            let pairs = pairs_view(contents.summary@);
            &&& contents.samples@.len() == 0
            &&& address_reported(pairs, probe.address as i32)
            &&& last_identity(pairs) == probe.who_am_i
            &&& identity_reported(pairs, expected) == (probe.who_am_i matches Some(w)
                && identity_matches(expected, w))
            &&& power_readable(pairs) == (probe.pwr_mgmt_1 is Some)
        }),
{
    let lines = summary_lines(probe, evidence, note);
    lemma_lines_no_break(probe, evidence, note);
    lemma_segments_of_joined(lines);
    lemma_summary_passes_log_check(probe, evidence, note, expected);
    let st = log_after(lines, lines.len() as int);
    assert(pairs_view(contents.summary@) =~= st.pairs);
}

} // verus!
