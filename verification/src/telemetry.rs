//! Firmware-side accounting of checked raw reads, and the integrity event
//! lines the firmware prints for the host tools.
use crate::fields::{
    fields, is_ws, joined, lemma_fields_of_joined, lemma_fields_of_joined_after, plain_word,
    to_ascii_lower,
};
use crate::integrity::{event_outcome, last_outcome};
use crate::bus::{appended, extends, I2cBus};
use crate::device::Mpu6050;
use crate::acquisition::AcquisitionStats;
use crate::raw::{
    all_block_reads, block_results, checked_read_outcome, checked_reads_complete, RawReadOutcome,
    RawRetryPolicy, RawSampleSuspicion,
};
use crate::rawline::{
    digit_value,
    digits_end, digits_value, hex_value, int_at, is_digit, is_hex, key_value,
    lemma_eq_pos, lit_at, lit_then_i32, raw_core, sequence_of, u64_of,
    unsigned_digits, all_digits,
};
use crate::raw::RawAccelGyroTemp;
use crate::text::{hex_char, hex_fixed, push_hex_fixed};
use crate::text::{decimal, digit_char, push_char, push_decimal, push_str};
use vstd::prelude::*;

verus! {

/// How many raw samples are logged in full at the start of a run.
pub const RAW_EXAMPLE_LIMIT: u64 = 8;

/// The period of the acquisition summary, in microseconds.
pub const SUMMARY_PERIOD_US: u64 = 1_000_000;

/// Counts of the outcomes of checked raw reads; each counter wraps.
#[derive(Debug, Default, Clone, Copy, PartialEq, Eq)]
pub struct RawIntegrityStats {
    pub total_reads: u64,
    pub clean: u64,
    pub suspicious_first: u64,
    pub recovered_by_retry: u64,
    pub rejected_suspicious: u64,
    pub accepted_suspicious: u64,
    pub retry_error: u64,
}

/// `a + 1`, wrapping.
pub open spec fn wrap_inc(a: u64) -> u64 {
    if a == u64::MAX {
        0
    } else {
        (a + 1) as u64
    }
}

/// The counts after one checked read with outcome `r`: every read counts;
/// a clean read counts as clean; any other successful outcome counts a
/// suspicious first sample and its own outcome; a failed read counts nothing
/// more.
pub open spec fn after_read<E>(s: RawIntegrityStats, r: Result<RawReadOutcome<E>, E>) -> RawIntegrityStats {
    let s1 = RawIntegrityStats { total_reads: wrap_inc(s.total_reads), ..s };
    match r {
        Ok(RawReadOutcome::Clean { .. }) => RawIntegrityStats { clean: wrap_inc(s1.clean), ..s1 },
        Ok(RawReadOutcome::Recovered { .. }) => RawIntegrityStats {
            suspicious_first: wrap_inc(s1.suspicious_first),
            recovered_by_retry: wrap_inc(s1.recovered_by_retry),
            ..s1
        },
        Ok(RawReadOutcome::RejectedSuspicious { .. }) => RawIntegrityStats {
            suspicious_first: wrap_inc(s1.suspicious_first),
            rejected_suspicious: wrap_inc(s1.rejected_suspicious),
            ..s1
        },
        Ok(RawReadOutcome::RetryError { .. }) => RawIntegrityStats {
            suspicious_first: wrap_inc(s1.suspicious_first),
            retry_error: wrap_inc(s1.retry_error),
            ..s1
        },
        Ok(RawReadOutcome::AcceptedSuspicious { .. }) => RawIntegrityStats {
            suspicious_first: wrap_inc(s1.suspicious_first),
            accepted_suspicious: wrap_inc(s1.accepted_suspicious),
            ..s1
        },
        Err(_) => s1,
    }
}

impl RawIntegrityStats {
    /// Counts one checked read by its outcome.
    pub fn record<E>(&mut self, outcome: &Result<RawReadOutcome<E>, E>)
        ensures
            *final(self) == after_read(*old(self), *outcome),
    {
        self.total_reads = self.total_reads.wrapping_add(1);
        match outcome {
            Ok(RawReadOutcome::Clean { .. }) => {
                self.clean = self.clean.wrapping_add(1);
            },
            Ok(RawReadOutcome::Recovered { .. }) => {
                self.suspicious_first = self.suspicious_first.wrapping_add(1);
                self.recovered_by_retry = self.recovered_by_retry.wrapping_add(1);
            },
            Ok(RawReadOutcome::RejectedSuspicious { .. }) => {
                self.suspicious_first = self.suspicious_first.wrapping_add(1);
                self.rejected_suspicious = self.rejected_suspicious.wrapping_add(1);
            },
            Ok(RawReadOutcome::RetryError { .. }) => {
                self.suspicious_first = self.suspicious_first.wrapping_add(1);
                self.retry_error = self.retry_error.wrapping_add(1);
            },
            Ok(RawReadOutcome::AcceptedSuspicious { .. }) => {
                self.suspicious_first = self.suspicious_first.wrapping_add(1);
                self.accepted_suspicious = self.accepted_suspicious.wrapping_add(1);
            },
            Err(_) => {},
        }
    }
}

/// The outcome an integrity event line reports.
#[derive(Debug, Clone, Copy, PartialEq, Eq, Structural)]
pub enum IntegrityOutcome {
    Recovered,
    Rejected,
    RetryError,
    Accepted,
}

/// The word an integrity event line prints for an outcome.
pub open spec fn outcome_text(o: IntegrityOutcome) -> Seq<char> {
    match o {
        IntegrityOutcome::Recovered => "recovered"@,
        IntegrityOutcome::Rejected => "rejected"@,
        IntegrityOutcome::RetryError => "retry_error"@,
        IntegrityOutcome::Accepted => "accepted"@,
    }
}

impl IntegrityOutcome {
    /// The word an integrity event line prints for this outcome.
    pub fn as_str(self) -> (s: &'static str)
        ensures
            s@ == outcome_text(self),
    {
        match self {
            IntegrityOutcome::Recovered => "recovered",
            IntegrityOutcome::Rejected => "rejected",
            IntegrityOutcome::RetryError => "retry_error",
            IntegrityOutcome::Accepted => "accepted",
        }
    }
}

/// What an integrity event line reports of a suspicious read: its outcome,
/// the retries made, and the suspicion it names.
#[derive(Debug, Clone, Copy, PartialEq, Eq, Structural)]
pub struct IntegrityNote {
    pub outcome: IntegrityOutcome,
    pub retries: usize,
    pub suspicion: RawSampleSuspicion,
}

/// The event a checked read raises: none for a clean or failed read; for a
/// recovered read or a failed retry the first suspicion, for a rejected or
/// accepted read the last one.
pub open spec fn note_of<E>(r: Result<RawReadOutcome<E>, E>) -> Option<IntegrityNote> {
    match r {
        Ok(RawReadOutcome::Recovered { first_suspicion, retries, .. }) => Some(
            IntegrityNote { outcome: IntegrityOutcome::Recovered, retries, suspicion: first_suspicion },
        ),
        Ok(RawReadOutcome::RejectedSuspicious { suspicion, retries, .. }) => Some(
            IntegrityNote { outcome: IntegrityOutcome::Rejected, retries, suspicion },
        ),
        Ok(RawReadOutcome::RetryError { first_suspicion, retries, .. }) => Some(
            IntegrityNote { outcome: IntegrityOutcome::RetryError, retries, suspicion: first_suspicion },
        ),
        Ok(RawReadOutcome::AcceptedSuspicious { suspicion, retries, .. }) => Some(
            IntegrityNote { outcome: IntegrityOutcome::Accepted, retries, suspicion },
        ),
        _ => None,
    }
}

/// The read passes a sample on to the stream: clean, recovered and accepted
/// reads do.
pub open spec fn emits<E>(r: Result<RawReadOutcome<E>, E>) -> bool {
    match r {
        Ok(RawReadOutcome::Clean { .. }) => true,
        Ok(RawReadOutcome::Recovered { .. }) => true,
        Ok(RawReadOutcome::AcceptedSuspicious { .. }) => true,
        _ => false,
    }
}

/// Accounts for one checked read: counts it in `stats`, moves the stream's
/// sample number `sequence` on by one (wrapping) when the read passes a sample
/// on, and gives the event the read raises.
pub fn account_read<E>(
    stats: &mut RawIntegrityStats,
    sequence: &mut u64,
    outcome: &Result<RawReadOutcome<E>, E>,
) -> (note: Option<IntegrityNote>)
    ensures
        *final(stats) == after_read(*old(stats), *outcome),
        *final(sequence) == if emits(*outcome) {
            wrap_inc(*old(sequence))
        } else {
            *old(sequence)
        },
        note == note_of(*outcome),
{
    stats.record(outcome);
    let note = match outcome {
        Ok(RawReadOutcome::Recovered { first_suspicion, retries, .. }) => Some(
            IntegrityNote { outcome: IntegrityOutcome::Recovered, retries: *retries, suspicion: *first_suspicion },
        ),
        Ok(RawReadOutcome::RejectedSuspicious { suspicion, retries, .. }) => Some(
            IntegrityNote { outcome: IntegrityOutcome::Rejected, retries: *retries, suspicion: *suspicion },
        ),
        Ok(RawReadOutcome::RetryError { first_suspicion, retries, .. }) => Some(
            IntegrityNote { outcome: IntegrityOutcome::RetryError, retries: *retries, suspicion: *first_suspicion },
        ),
        Ok(RawReadOutcome::AcceptedSuspicious { suspicion, retries, .. }) => Some(
            IntegrityNote { outcome: IntegrityOutcome::Accepted, retries: *retries, suspicion: *suspicion },
        ),
        _ => None,
    };
    let advance = match outcome {
        Ok(RawReadOutcome::Clean { .. }) => true,
        Ok(RawReadOutcome::Recovered { .. }) => true,
        Ok(RawReadOutcome::AcceptedSuspicious { .. }) => true,
        _ => false,
    };
    if advance {
        *sequence = sequence.wrapping_add(1);
    }
    note
}

/// One motion read as the firmware makes it, and what it reports.
pub struct MotionRead<E> {
    /// The outcome of the checked read.
    pub outcome: Result<RawReadOutcome<E>, E>,
    /// The sample number the read's sample or event carries.
    pub sequence: u64,
    /// The integrity event line to print, for a suspicious read.
    pub event_line: Option<String>,
    /// The diagnostic line of a suspicious read: for a sample recovered by
    /// the retry, printed before the event line; for a sample rejected after
    /// it, printed after the event line.
    pub notice: Option<String>,
}

/// The line printed when a retry recovered a suspicious sample.
pub open spec fn recovered_line_text(address: u8, sequence: u64) -> Seq<char> {
    "RAW 0x"@ + hex_fixed(address as nat, 2) + ": suspicious sample recovered by retry sequence="@
        + decimal(sequence as nat)
}

/// The line printed when a retry recovered a suspicious sample.
pub fn recovered_line(address: u8, sequence: u64) -> (line: String)
    ensures
        line@ == recovered_line_text(address, sequence),
{
    let mut s = String::new();
    push_str(&mut s, "RAW 0x");
    push_hex_fixed(&mut s, address as u64, 2);
    push_str(&mut s, ": suspicious sample recovered by retry sequence=");
    push_decimal(&mut s, sequence);
    s
}

/// One motion read as the firmware makes it: a checked block read retried
/// once when suspicious and rejected if still suspicious, counted in `stats`.
/// The stream's sample number `raw_sequence` moves on by one (wrapping) for a
/// clean, recovered or accepted sample; a suspicious read gives the event
/// line, with the sample number before the read and the accepted count after
/// it, and a recovered or rejected one its diagnostic line, for the device at
/// `address`.
pub fn read_motion_sample_retry_once<I2C: I2cBus>(
    mpu: &mut Mpu6050<I2C>,
    address: u8,
    raw_sequence: &mut u64,
    stats: &mut RawIntegrityStats,
) -> (r: MotionRead<I2C::Error>)
    ensures
        final(mpu).addr() == old(mpu).addr(),
        extends(old(mpu).transcript(), final(mpu).transcript()),
        ({
            let added = appended(old(mpu).transcript(), final(mpu).transcript());
            let policy = RawRetryPolicy::with(1, false);
            &&& all_block_reads(added, old(mpu).bus_address())
            &&& checked_reads_complete(policy, block_results(added))
            &&& r.outcome == checked_read_outcome(policy, block_results(added))
        }),
        *final(stats) == after_read(*old(stats), r.outcome),
        r.sequence == *old(raw_sequence),
        *final(raw_sequence) == if emits(r.outcome) {
            wrap_inc(*old(raw_sequence))
        } else {
            *old(raw_sequence)
        },
        match note_of(r.outcome) {
            Some(n) => r.event_line matches Some(l) && l@ == joined(
                event_words(
                    *old(raw_sequence),
                    outcome_text(n.outcome),
                    n.retries,
                    n.suspicion,
                    final(stats).accepted_suspicious,
                ),
            ),
            None => r.event_line is None,
        },
        match r.outcome {
            Ok(RawReadOutcome::Recovered { .. }) => r.notice matches Some(l) && l@
                == recovered_line_text(address, *old(raw_sequence)),
            Ok(RawReadOutcome::RejectedSuspicious { raw, .. }) => r.notice matches Some(l) && l@
                == suspicious_line_text("retry_suspicious_skipped"@, address, *old(raw_sequence), raw),
            _ => r.notice is None,
        },
{
    let outcome = mpu.read_raw_with_retry(RawRetryPolicy::reject_after_retries(1));
    let sequence = *raw_sequence;
    let note = account_read(stats, raw_sequence, &outcome);
    let event_line = match note {
        Some(n) => Some(
            integrity_event_line(
                sequence,
                n.outcome.as_str(),
                n.retries,
                n.suspicion,
                stats.accepted_suspicious,
            ),
        ),
        None => None,
    };
    let notice = match &outcome {
        Ok(RawReadOutcome::Recovered { .. }) => Some(recovered_line(address, sequence)),
        Ok(RawReadOutcome::RejectedSuspicious { raw, .. }) => {
            let reason = "retry_suspicious_skipped";
            proof {
                reveal_strlit("retry_suspicious_skipped");
            }
            Some(suspicious_sample_line(reason, address, sequence, *raw))
        },
        _ => None,
    };
    MotionRead { outcome, sequence, event_line, notice }
}

/// The sample a checked read passes on to the stream, if any: clean,
/// recovered and accepted samples are emitted; rejected samples and failures
/// are not.
pub fn emitted_sample<E>(outcome: &Result<RawReadOutcome<E>, E>) -> (r: Option<crate::raw::RawAccelGyroTemp>)
    ensures
        r == match *outcome {
            Ok(RawReadOutcome::Clean { raw }) => Some(raw),
            Ok(RawReadOutcome::Recovered { raw, .. }) => Some(raw),
            Ok(RawReadOutcome::AcceptedSuspicious { raw, .. }) => Some(raw),
            _ => None,
        },
{
    match outcome {
        Ok(RawReadOutcome::Clean { raw }) => Some(*raw),
        Ok(RawReadOutcome::Recovered { raw, .. }) => Some(*raw),
        Ok(RawReadOutcome::AcceptedSuspicious { raw, .. }) => Some(*raw),
        _ => None,
    }
}

/// The name of a suspicion, as the event lines print it.
pub open spec fn suspicion_text(s: RawSampleSuspicion) -> Seq<char> {
    match s {
        RawSampleSuspicion::AccelSentinel => "AccelSentinel"@,
        RawSampleSuspicion::GyroSentinel => "GyroSentinel"@,
        RawSampleSuspicion::TempSentinel => "TempSentinel"@,
        RawSampleSuspicion::AccelAllMinusOne => "AccelAllMinusOne"@,
        RawSampleSuspicion::GyroAllMinusOne => "GyroAllMinusOne"@,
        RawSampleSuspicion::GyroPartialMinusOne => "GyroPartialMinusOne"@,
        RawSampleSuspicion::GyroPowerOfTwoMinusOne => "GyroPowerOfTwoMinusOne"@,
    }
}

/// The name of a suspicion.
pub fn suspicion_name(s: RawSampleSuspicion) -> (r: &'static str)
    ensures
        r@ == suspicion_text(s),
{
    match s {
        RawSampleSuspicion::AccelSentinel => "AccelSentinel",
        RawSampleSuspicion::GyroSentinel => "GyroSentinel",
        RawSampleSuspicion::TempSentinel => "TempSentinel",
        RawSampleSuspicion::AccelAllMinusOne => "AccelAllMinusOne",
        RawSampleSuspicion::GyroAllMinusOne => "GyroAllMinusOne",
        RawSampleSuspicion::GyroPartialMinusOne => "GyroPartialMinusOne",
        RawSampleSuspicion::GyroPowerOfTwoMinusOne => "GyroPowerOfTwoMinusOne",
    }
}

/// The field `key=value`.
pub open spec fn kv_word(key: Seq<char>, value: Seq<char>) -> Seq<char> {
    key + seq!['='] + value
}

/// The fields of an integrity event line.
pub open spec fn event_words(
    sequence: u64,
    outcome: Seq<char>,
    retries: usize,
    suspicion: RawSampleSuspicion,
    accepted_total: u64,
) -> Seq<Seq<char>> {
    let base = seq![
        "raw_integrity_event"@,
        kv_word("seq"@, decimal(sequence as nat)),
        kv_word("outcome"@, outcome),
        kv_word("reason"@, suspicion_text(suspicion)),
        kv_word("retries"@, decimal(retries as nat)),
    ];
    if accepted_total == 0 {
        base
    } else {
        base.push(kv_word("accepted_total"@, decimal(accepted_total as nat)))
    }
}

/// Appends ` key=` to `s`.
fn push_key(s: &mut String, key: &str)
    ensures
        final(s)@ == old(s)@ + seq![' '] + key@ + seq!['='],
{
    push_char(s, ' ');
    push_str(s, key);
    push_char(s, '=');
    assert(final(s)@ =~= old(s)@ + seq![' '] + key@ + seq!['=']);
}

/// The line the firmware prints for a suspicious read: its sequence number,
/// outcome, reason and retries, and the running count of accepted suspicious
/// samples once there is one.
pub fn integrity_event_line(
    sequence: u64,
    outcome: &str,
    retries: usize,
    suspicion: RawSampleSuspicion,
    accepted_total: u64,
) -> (line: String)
    ensures
        line@ == joined(event_words(sequence, outcome@, retries, suspicion, accepted_total)),
{
    let ghost w = event_words(sequence, outcome@, retries, suspicion, accepted_total);
    let mut s = String::new();
    push_str(&mut s, "raw_integrity_event");
    let ghost s0 = s@;
    push_key(&mut s, "seq");
    push_decimal(&mut s, sequence);
    let ghost s1 = s@;
    push_key(&mut s, "outcome");
    push_str(&mut s, outcome);
    let ghost s2 = s@;
    push_key(&mut s, "reason");
    push_str(&mut s, suspicion_name(suspicion));
    let ghost s3 = s@;
    push_key(&mut s, "retries");
    push_decimal(&mut s, retries as u64);
    let ghost s4 = s@;
    proof {
        let base = w.take(5);
        assert(joined(base.take(1)) =~= s0);
        assert(base.take(2).drop_last() =~= base.take(1));
        assert(joined(base.take(2)) =~= s1);
        assert(base.take(3).drop_last() =~= base.take(2));
        assert(joined(base.take(3)) =~= s2);
        assert(base.take(4).drop_last() =~= base.take(3));
        assert(joined(base.take(4)) =~= s3);
        assert(base.take(5).drop_last() =~= base.take(4));
        assert(joined(base.take(5)) =~= s4);
    }
    if accepted_total != 0 {
        push_key(&mut s, "accepted_total");
        push_decimal(&mut s, accepted_total);
        proof {
            assert(w.drop_last() =~= w.take(5));
            assert(w.len() == 6);
            assert(joined(w) == joined(w.drop_last()) + seq![' '] + w.last());
            assert(w.last() == kv_word("accepted_total"@, decimal(accepted_total as nat)));
            assert(joined(w) =~= s@);
        }
    } else {
        assert(w.take(5) =~= w);
    }
    s
}

/// Every character of a decimal is a digit.
pub proof fn lemma_decimal_digits(n: nat)
    ensures
        decimal(n).len() > 0,
        forall|i: int| 0 <= i < decimal(n).len() ==> '0' <= #[trigger] decimal(n)[i] <= '9',
    decreases n,
{
    if n >= 10 {
        lemma_decimal_digits(n / 10);
    }
    assert('0' <= digit_char(n % 10) <= '9') by {
        assert((48 + n % 10) as u8 as char == digit_char(n % 10));
    }
}

/// A `key=value` field whose key has no `=` splits into that key and value.
proof fn lemma_key_value_of(key: Seq<char>, value: Seq<char>)
    requires
        forall|i: int| 0 <= i < key.len() ==> key[i] != '=',
    ensures
        key_value(kv_word(key, value)) == Some((key, value)),
{
    let f = kv_word(key, value);
    lemma_eq_pos(f, key.len() as int);
    assert(f.take(key.len() as int) =~= key);
    assert(f.skip(key.len() as int + 1) =~= value);
}

/// An integrity event line, read back by the host parser, gives the outcome it
/// was printed with, whenever that outcome is a non-empty word of lower-case
/// letters and underscores (as the firmware's outcomes are).
pub proof fn lemma_event_line_parses(
    sequence: u64,
    outcome: Seq<char>,
    retries: usize,
    suspicion: RawSampleSuspicion,
    accepted_total: u64,
)
    requires
        outcome.len() > 0,
        forall|i: int| 0 <= i < outcome.len() ==> ('a' <= #[trigger] outcome[i] <= 'z' || outcome[i] == '_'),
        joined(event_words(sequence, outcome, retries, suspicion, accepted_total)).len() <= usize::MAX,
    ensures
        event_outcome(joined(event_words(sequence, outcome, retries, suspicion, accepted_total)))
            == Some(outcome),
{
    let w = event_words(sequence, outcome, retries, suspicion, accepted_total);
    reveal_strlit("raw_integrity_event");
    reveal_strlit("seq");
    reveal_strlit("outcome");
    reveal_strlit("reason");
    reveal_strlit("retries");
    reveal_strlit("accepted_total");
    reveal_strlit("AccelSentinel");
    reveal_strlit("GyroSentinel");
    reveal_strlit("TempSentinel");
    reveal_strlit("AccelAllMinusOne");
    reveal_strlit("GyroAllMinusOne");
    reveal_strlit("GyroPartialMinusOne");
    reveal_strlit("GyroPowerOfTwoMinusOne");
    lemma_decimal_digits(sequence as nat);
    lemma_decimal_digits(retries as nat);
    lemma_decimal_digits(accepted_total as nat);
    assert forall|i: int| 0 <= i < w.len() implies plain_word(#[trigger] w[i]) by {
        let wi = w[i];
        assert forall|k: int| 0 <= k < wi.len() implies !is_ws(#[trigger] wi[k]) by {
            if i >= 1 {
                let key_len: int = if i == 1 {
                    3
                } else if i == 2 {
                    7
                } else if i == 3 {
                    6
                } else if i == 4 {
                    7
                } else {
                    14
                };
                if k > key_len && i == 3 {
                    assert(suspicion_text(suspicion)[k - key_len - 1] == wi[k]);
                }
            }
        }
    }
    lemma_fields_of_joined(w);
    let fs = fields(joined(w));
    assert(fs == w);
    let rest = fs.drop_first();
    lemma_key_value_of("seq"@, decimal(sequence as nat));
    lemma_key_value_of("outcome"@, outcome);
    lemma_key_value_of("reason"@, suspicion_text(suspicion));
    lemma_key_value_of("retries"@, decimal(retries as nat));
    lemma_key_value_of("accepted_total"@, decimal(accepted_total as nat));
    assert(to_ascii_lower(outcome) =~= outcome);
    let r4 = rest.take(4);
    assert(r4.drop_last() =~= rest.take(3));
    assert(rest.take(3).drop_last() =~= rest.take(2));
    assert(rest.take(2).drop_last() =~= rest.take(1));
    assert("retries"@[0] != "outcome"@[0]);
    assert("reason"@[0] != "outcome"@[0]);
    assert("accepted_total"@[0] != "outcome"@[0]);
    assert("seq"@[0] != "outcome"@[0]);
    assert(rest.take(2).last() == kv_word("outcome"@, outcome));
    assert(last_outcome(rest.take(2)) == Some(outcome));
    assert(rest.take(3).last() == kv_word("reason"@, suspicion_text(suspicion)));
    assert(last_outcome(rest.take(3)) == Some(outcome));
    assert(r4.last() == kv_word("retries"@, decimal(retries as nat)));
    assert(last_outcome(r4) == Some(outcome));
    if accepted_total == 0 {
        assert(rest =~= r4);
    } else {
        assert(rest.drop_last() =~= r4);
        assert(rest.last() == kv_word("accepted_total"@, decimal(accepted_total as nat)));
        assert(last_outcome(rest) == Some(outcome));
    }
}

/// `v` in decimal, with a leading `-` when negative.
pub open spec fn signed_decimal(v: int) -> Seq<char> {
    if v < 0 {
        seq!['-'] + decimal((-v) as nat)
    } else {
        decimal(v as nat)
    }
}

/// Appends `v` in decimal.
fn push_signed(s: &mut String, v: i16)
    ensures
        final(s)@ == old(s)@ + signed_decimal(v as int),
{
    if v < 0 {
        push_char(s, '-');
        let m = -(v as i32);
        push_decimal(s, m as u64);
        assert(final(s)@ =~= old(s)@ + signed_decimal(v as int));
    } else {
        push_decimal(s, v as u64);
    }
}

/// The pieces joined end to end.
pub open spec fn concat_all(ps: Seq<Seq<char>>) -> Seq<char>
    decreases ps.len(),
{
    if ps.len() == 0 {
        Seq::empty()
    } else {
        ps[0] + concat_all(ps.drop_first())
    }
}

/// One more piece at the end.
proof fn lemma_concat_push(ps: Seq<Seq<char>>, x: Seq<char>)
    ensures
        concat_all(ps.push(x)) == concat_all(ps) + x,
    decreases ps.len(),
{
    if ps.len() == 0 {
        let q = ps.push(x);
        assert(q[0] == x);
        assert(q.drop_first() =~= Seq::<Seq<char>>::empty());
        assert(concat_all(q.drop_first()) == Seq::<char>::empty());
        assert(concat_all(q) == x + Seq::<char>::empty());
        assert(concat_all(ps) + x =~= x);
        assert(x + Seq::<char>::empty() =~= x);
    } else {
        lemma_concat_push(ps.drop_first(), x);
        assert(ps.push(x).drop_first() =~= ps.drop_first().push(x));
        assert(ps[0] + (concat_all(ps.drop_first()) + x) =~= (ps[0] + concat_all(ps.drop_first()))
            + x);
    }
}

/// Where piece `k` starts.
pub open spec fn offset(ps: Seq<Seq<char>>, k: int) -> int {
    concat_all(ps.take(k)).len() as int
}

/// The joined pieces hold piece `k` at its offset, and everything after the
/// last piece's offset is that piece.
proof fn lemma_piece_at(ps: Seq<Seq<char>>, k: int)
    requires
        0 <= k < ps.len(),
    ensures
        offset(ps, k) + ps[k].len() <= concat_all(ps).len(),
        concat_all(ps).subrange(offset(ps, k), offset(ps, k) + ps[k].len()) == ps[k],
        offset(ps, k + 1) == offset(ps, k) + ps[k].len(),
        concat_all(ps) == concat_all(ps.take(k)) + concat_all(ps.skip(k)),
    decreases ps.len(),
{
    lemma_concat_split(ps, k);
    lemma_concat_split(ps, k + 1);
    let rest = ps.skip(k);
    assert(rest[0] == ps[k]);
    assert(rest.drop_first() =~= ps.skip(k + 1));
    assert(ps.take(k + 1) =~= ps.take(k).push(ps[k]));
    lemma_concat_push(ps.take(k), ps[k]);
    assert(concat_all(ps).subrange(offset(ps, k), offset(ps, k) + ps[k].len()) =~= ps[k]);
}

/// Joining splits at any piece boundary.
proof fn lemma_concat_split(ps: Seq<Seq<char>>, k: int)
    requires
        0 <= k <= ps.len(),
    ensures
        concat_all(ps) == concat_all(ps.take(k)) + concat_all(ps.skip(k)),
    decreases k,
{
    if k == 0 {
        assert(ps.skip(0) =~= ps);
        assert(ps.take(0) =~= Seq::<Seq<char>>::empty());
        assert(Seq::<char>::empty() + concat_all(ps) =~= concat_all(ps));
    } else {
        lemma_concat_split(ps, k - 1);
        let r = ps.skip(k - 1);
        assert(r.drop_first() =~= ps.skip(k));
        assert(ps.take(k) =~= ps.take(k - 1).push(ps[k - 1]));
        lemma_concat_push(ps.take(k - 1), ps[k - 1]);
        assert(concat_all(ps.take(k - 1)) + concat_all(r) =~= concat_all(ps.take(k)) + concat_all(
            ps.skip(k),
        ));
    }
}

/// The optional fields the firmware prints after a raw sample.
pub open spec fn motion_trailing_words(timestamp_us: u64, sequence: u64) -> Seq<Seq<char>> {
    seq![
        kv_word("timestamp_us"@, decimal(timestamp_us as nat)),
        kv_word("sequence"@, decimal(sequence as nat)),
        kv_word("timestamp_source"@, "device_instant"@),
    ]
}

/// The pieces of the raw sample line the firmware prints.
pub open spec fn motion_line_pieces(
    address: u8,
    raw: RawAccelGyroTemp,
    timestamp_us: u64,
    sequence: u64,
) -> Seq<Seq<char>> {
    seq![
        "RAW 0x"@,
        hex_fixed(address as nat, 2),
        ": accel=("@,
        signed_decimal(raw.accel[0] as int),
        ", "@,
        signed_decimal(raw.accel[1] as int),
        ", "@,
        signed_decimal(raw.accel[2] as int),
        ") temp_raw="@,
        signed_decimal(raw.temp as int),
        " gyro=("@,
        signed_decimal(raw.gyro[0] as int),
        ", "@,
        signed_decimal(raw.gyro[1] as int),
        ", "@,
        signed_decimal(raw.gyro[2] as int),
        ")"@,
        seq![' '] + joined(motion_trailing_words(timestamp_us, sequence)),
    ]
}

/// The raw sample line the firmware prints.
pub open spec fn motion_line_text(
    address: u8,
    raw: RawAccelGyroTemp,
    timestamp_us: u64,
    sequence: u64,
) -> Seq<char> {
    concat_all(motion_line_pieces(address, raw, timestamp_us, sequence))
}

/// Appends piece `k` of `ps`, given that the first `k` are already there.
proof fn lemma_extend(ps: Seq<Seq<char>>, k: int, before: Seq<char>, after: Seq<char>)
    requires
        0 <= k < ps.len(),
        before == concat_all(ps.take(k)),
        after == before + ps[k],
    ensures
        after == concat_all(ps.take(k + 1)),
{
    assert(ps.take(k + 1) =~= ps.take(k).push(ps[k]));
    lemma_concat_push(ps.take(k), ps[k]);
}

/// The raw sample line for `raw`, read at `timestamp_us` as sample number
/// `sequence` from the device at `address`.
pub fn motion_sample_line(address: u8, raw: RawAccelGyroTemp, timestamp_us: u64, sequence: u64) -> (line:
    String)
    ensures
        line@ == motion_line_text(address, raw, timestamp_us, sequence),
{
    let ghost ps = motion_line_pieces(address, raw, timestamp_us, sequence);
    let mut s = String::new();
    assert(ps.take(0) =~= Seq::<Seq<char>>::empty());
    let ghost b = s@;
    push_str(&mut s, "RAW 0x");
    proof { lemma_extend(ps, 0, b, s@); }
    let ghost b = s@;
    push_hex_fixed(&mut s, address as u64, 2);
    proof { lemma_extend(ps, 1, b, s@); }
    let ghost b = s@;
    push_str(&mut s, ": accel=(");
    proof { lemma_extend(ps, 2, b, s@); }
    let ghost b = s@;
    push_signed(&mut s, raw.accel[0]);
    proof { lemma_extend(ps, 3, b, s@); }
    let ghost b = s@;
    push_str(&mut s, ", ");
    proof { lemma_extend(ps, 4, b, s@); }
    let ghost b = s@;
    push_signed(&mut s, raw.accel[1]);
    proof { lemma_extend(ps, 5, b, s@); }
    let ghost b = s@;
    push_str(&mut s, ", ");
    proof { lemma_extend(ps, 6, b, s@); }
    let ghost b = s@;
    push_signed(&mut s, raw.accel[2]);
    proof { lemma_extend(ps, 7, b, s@); }
    let ghost b = s@;
    push_str(&mut s, ") temp_raw=");
    proof { lemma_extend(ps, 8, b, s@); }
    let ghost b = s@;
    push_signed(&mut s, raw.temp);
    proof { lemma_extend(ps, 9, b, s@); }
    let ghost b = s@;
    push_str(&mut s, " gyro=(");
    proof { lemma_extend(ps, 10, b, s@); }
    let ghost b = s@;
    push_signed(&mut s, raw.gyro[0]);
    proof { lemma_extend(ps, 11, b, s@); }
    let ghost b = s@;
    push_str(&mut s, ", ");
    proof { lemma_extend(ps, 12, b, s@); }
    let ghost b = s@;
    push_signed(&mut s, raw.gyro[1]);
    proof { lemma_extend(ps, 13, b, s@); }
    let ghost b = s@;
    push_str(&mut s, ", ");
    proof { lemma_extend(ps, 14, b, s@); }
    let ghost b = s@;
    push_signed(&mut s, raw.gyro[2]);
    proof { lemma_extend(ps, 15, b, s@); }
    let ghost b = s@;
    push_str(&mut s, ")");
    proof { lemma_extend(ps, 16, b, s@); }
    let ghost b = s@;
    push_key(&mut s, "timestamp_us");
    push_decimal(&mut s, timestamp_us);
    let ghost t1 = s@;
    push_key(&mut s, "sequence");
    push_decimal(&mut s, sequence);
    let ghost t2 = s@;
    push_key(&mut s, "timestamp_source");
    push_str(&mut s, "device_instant");
    proof {
        let w = motion_trailing_words(timestamp_us, sequence);
        assert(w.take(2).drop_last() =~= w.take(1));
        assert(w.drop_last() =~= w.take(2));
        assert(joined(w.take(1)) == w[0]);
        assert(joined(w.take(2)) == joined(w.take(1)) + seq![' '] + w[1]);
        assert(joined(w) == joined(w.take(2)) + seq![' '] + w[2]);
        assert(s@ =~= b + (seq![' '] + joined(w)));
        lemma_extend(ps, 17, b, s@);
        assert(ps.take(18) =~= ps);
    }
    s
}

/// A decimal digit character reads back as its digit.
pub(crate) proof fn lemma_digit_char_value(d: nat)
    requires
        d < 10,
    ensures
        is_digit(digit_char(d)),
        digit_value(digit_char(d)) == d,
{
    assert(((48 + d) as u8) as char as u32 == 48 + d);
}

/// A hexadecimal digit character reads back as its digit.
pub(crate) proof fn lemma_hex_char_value(d: nat)
    requires
        d < 16,
    ensures
        is_hex(hex_char(d)),
        hex_value(hex_char(d)) == d,
{
    if d < 10 {
        lemma_digit_char_value(d);
    } else {
        assert(((87 + d) as u8) as char as u32 == 87 + d);
    }
}

/// The decimal representation of `n` reads back as `n`.
pub(crate) proof fn lemma_decimal_value(n: nat)
    ensures
        digits_value(decimal(n)) == n,
        all_digits(decimal(n)),
        decimal(n).len() > 0,
    decreases n,
{
    lemma_decimal_digits(n);
    lemma_digit_char_value(n % 10);
    if n >= 10 {
        lemma_decimal_value(n / 10);
        assert(decimal(n).drop_last() =~= decimal(n / 10));
        assert(decimal(n).last() == digit_char(n % 10));
        assert(digits_value(decimal(n)) == 10 * digits_value(decimal(n / 10)) + digit_value(
            digit_char(n % 10),
        ));
        assert(10 * (n / 10) + n % 10 == n);
    } else {
        assert(decimal(n).drop_last() =~= Seq::<char>::empty());
        assert(decimal(n).last() == digit_char(n));
        assert(digits_value(Seq::<char>::empty()) == 0);
        assert(n % 10 == n);
    }
}

/// A run of `n` digits from `start`, followed by a non-digit or the end,
/// ends at `start + n`.
proof fn lemma_digits_end(s: Seq<char>, start: int, n: int)
    requires
        0 <= start,
        0 <= n,
        start + n <= s.len(),
        forall|i: int| start <= i < start + n ==> is_digit(#[trigger] s[i]),
        start + n == s.len() || !is_digit(s[start + n]),
    ensures
        digits_end(s, start) == start + n,
    decreases n,
{
    if n > 0 {
        lemma_digits_end(s, start + 1, n - 1);
    }
}

/// A signed decimal in `s` at `p`, followed by a non-digit or the end, reads
/// back as its value.
proof fn lemma_int_at_signed(s: Seq<char>, p: int, v: int)
    requires
        0 <= p,
        p + signed_decimal(v).len() <= s.len(),
        s.subrange(p, p + signed_decimal(v).len()) == signed_decimal(v),
        p + signed_decimal(v).len() == s.len() || !is_digit(s[p + signed_decimal(v).len()]),
    ensures
        int_at(s, p) == Some((v, p + signed_decimal(v).len())),
{
    let sd = signed_decimal(v);
    let end = p + sd.len();
    if v < 0 {
        let d = decimal((-v) as nat);
        lemma_decimal_value((-v) as nat);
        assert(sd[0] == '-');
        assert(s[p] == sd[0]);
        assert forall|i: int| p + 1 <= i < end implies is_digit(#[trigger] s[i]) by {
            assert(s[i] == sd[i - p]);
            assert(sd[i - p] == d[i - p - 1]);
        }
        lemma_digits_end(s, p + 1, sd.len() - 1);
        assert forall|i: int| 0 <= i < d.len() implies #[trigger] s.subrange(p + 1, end)[i]
            == d[i] by {
            assert(s.subrange(p + 1, end)[i] == s[p + 1 + i]);
            assert(s[p + 1 + i] == s.subrange(p, end)[1 + i]);
            assert(sd[1 + i] == d[i]);
        }
        assert(s.subrange(p + 1, end) =~= d);
    } else {
        let d = decimal(v as nat);
        lemma_decimal_value(v as nat);
        assert(s[p] == d[0]);
        assert(is_digit(d[0]));
        assert forall|i: int| p <= i < end implies is_digit(#[trigger] s[i]) by {
            assert(s[i] == sd[i - p]);
        }
        lemma_digits_end(s, p, sd.len() as int);
        assert(s.subrange(p, end) =~= d);
    }
}

/// Words without whitespace, joined by spaces, hold no line break.
proof fn lemma_joined_no_newline(words: Seq<Seq<char>>)
    requires
        forall|i: int| 0 <= i < words.len() ==> plain_word(#[trigger] words[i]),
    ensures
        forall|k: int| 0 <= k < joined(words).len() ==> joined(words)[k] != '\n',
    decreases words.len(),
{
    if words.len() == 1 {
        assert(plain_word(words[0]));
        assert forall|k: int| 0 <= k < joined(words).len() implies joined(words)[k] != '\n' by {
            assert(!is_ws(words[0][k]));
        }
    } else if words.len() > 1 {
        let init = words.drop_last();
        assert forall|i: int| 0 <= i < init.len() implies plain_word(#[trigger] init[i]) by {
            assert(init[i] == words[i]);
        }
        lemma_joined_no_newline(init);
        let a = joined(init);
        let w = words.last();
        assert(plain_word(words[words.len() - 1]));
        assert forall|k: int| 0 <= k < joined(words).len() implies joined(words)[k] != '\n' by {
            if k < a.len() {
                assert(joined(words)[k] == a[k]);
            } else if k > a.len() {
                assert(joined(words)[k] == w[k - a.len() - 1]);
                assert(!is_ws(w[k - a.len() - 1]));
            }
        }
    }
}

/// A decimal as `u64::from_str` reads it gives back its value.
proof fn lemma_u64_of_decimal(n: u64)
    ensures
        u64_of(decimal(n as nat)) == Some(n as int),
{
    let d = decimal(n as nat);
    lemma_decimal_value(n as nat);
    assert(is_digit(d[0]));
    assert(unsigned_digits(d) == d);
}

/// The `i32` field of piece `k` of a motion line, after the literal of piece
/// `k - 1`, reads back as `v`, ending where piece `k + 1` starts.
proof fn lemma_motion_field(ps: Seq<Seq<char>>, k: int, v: int)
    requires
        1 <= k,
        k + 1 < ps.len(),
        ps[k] == signed_decimal(v),
        i32::MIN <= v <= i32::MAX,
        ps[k + 1].len() > 0,
        !is_digit(ps[k + 1][0]),
    ensures
        lit_then_i32(concat_all(ps), offset(ps, k - 1), ps[k - 1]) == Some(
            (v, offset(ps, k + 1)),
        ),
{
    let s = concat_all(ps);
    lemma_piece_at(ps, k - 1);
    lemma_piece_at(ps, k);
    lemma_piece_at(ps, k + 1);
    assert(s[offset(ps, k + 1)] == s.subrange(
        offset(ps, k + 1),
        offset(ps, k + 1) + ps[k + 1].len(),
    )[0]);
    lemma_int_at_signed(s, offset(ps, k), v);
}

/// A `key=value` word of lower-case letters, digits and `_` around the `=` is
/// a plain word.
proof fn lemma_kv_plain(key: Seq<char>, value: Seq<char>)
    requires
        forall|i: int|
            0 <= i < key.len() ==> ('a' <= #[trigger] key[i] <= 'z' || key[i] == '_'),
        forall|i: int|
            0 <= i < value.len() ==> ('a' <= #[trigger] value[i] <= 'z' || value[i] == '_' || '0'
                <= value[i] <= '9'),
    ensures
        plain_word(kv_word(key, value)),
{
    let w = kv_word(key, value);
    assert forall|i: int| 0 <= i < w.len() implies !is_ws(#[trigger] w[i]) by {
        if i < key.len() {
            assert(w[i] == key[i]);
        } else if i > key.len() {
            assert(w[i] == value[i - key.len() - 1]);
        }
    }
}

/// The start of a motion line: `RAW 0x`, the two hexadecimal digits of the
/// address, then the accelerometer literal at offset 8.
proof fn lemma_motion_prefix(address: u8, raw: RawAccelGyroTemp, timestamp_us: u64, sequence: u64)
    ensures
        ({
            let ps = motion_line_pieces(address, raw, timestamp_us, sequence);
            let s = concat_all(ps);
            &&& lit_at(s, 0, "RAW 0x"@)
            &&& s.len() >= 8
            &&& is_hex(s[6])
            &&& is_hex(s[7])
            &&& 16 * hex_value(s[6]) + hex_value(s[7]) == address
            &&& offset(ps, 2) == 8
        }),
{
    let ps = motion_line_pieces(address, raw, timestamp_us, sequence);
    let s = concat_all(ps);
    reveal_strlit("RAW 0x");
    assert(ps.take(0) =~= Seq::<Seq<char>>::empty());
    lemma_piece_at(ps, 0);
    lemma_piece_at(ps, 1);
    let hi = (address / 16) as nat;
    let lo = (address % 16) as nat;
    reveal_with_fuel(hex_fixed, 3);
    assert(ps[1] =~= seq![hex_char(hi), hex_char(lo)]);
    lemma_hex_char_value(hi);
    lemma_hex_char_value(lo);
    assert(s[6] == s.subrange(6, 8)[0]);
    assert(s[7] == s.subrange(6, 8)[1]);
}

/// The seven readings of a motion line, each after its literal, read back in
/// order; the closing `)` follows the last.
proof fn lemma_motion_readings(address: u8, raw: RawAccelGyroTemp, timestamp_us: u64, sequence: u64)
    ensures
        ({
            let ps = motion_line_pieces(address, raw, timestamp_us, sequence);
            let s = concat_all(ps);
            &&& lit_then_i32(s, offset(ps, 2), ": accel=("@) == Some(
                (raw.accel[0] as int, offset(ps, 4)),
            )
            &&& lit_then_i32(s, offset(ps, 4), ", "@) == Some((raw.accel[1] as int, offset(ps, 6)))
            &&& lit_then_i32(s, offset(ps, 6), ", "@) == Some((raw.accel[2] as int, offset(ps, 8)))
            &&& lit_then_i32(s, offset(ps, 8), ") temp_raw="@) == Some(
                (raw.temp as int, offset(ps, 10)),
            )
            &&& lit_then_i32(s, offset(ps, 10), " gyro=("@) == Some(
                (raw.gyro[0] as int, offset(ps, 12)),
            )
            &&& lit_then_i32(s, offset(ps, 12), ", "@) == Some((raw.gyro[1] as int, offset(ps, 14)))
            &&& lit_then_i32(s, offset(ps, 14), ", "@) == Some((raw.gyro[2] as int, offset(ps, 16)))
            &&& lit_at(s, offset(ps, 16), ")"@)
            &&& offset(ps, 17) == offset(ps, 16) + 1
        }),
{
    let ps = motion_line_pieces(address, raw, timestamp_us, sequence);
    reveal_strlit(", ");
    reveal_strlit(") temp_raw=");
    reveal_strlit(" gyro=(");
    reveal_strlit(")");
    lemma_motion_field(ps, 3, raw.accel[0] as int);
    lemma_motion_field(ps, 5, raw.accel[1] as int);
    lemma_motion_field(ps, 7, raw.accel[2] as int);
    lemma_motion_field(ps, 9, raw.temp as int);
    lemma_motion_field(ps, 11, raw.gyro[0] as int);
    lemma_motion_field(ps, 13, raw.gyro[1] as int);
    lemma_motion_field(ps, 15, raw.gyro[2] as int);
    lemma_piece_at(ps, 16);
}

/// What follows the readings of a motion line: one space and the optional
/// fields, with no line break, whose sequence number is the sample's.
proof fn lemma_motion_tail(address: u8, raw: RawAccelGyroTemp, timestamp_us: u64, sequence: u64)
    requires
        motion_line_text(address, raw, timestamp_us, sequence).len() <= usize::MAX,
    ensures
        ({
            let ps = motion_line_pieces(address, raw, timestamp_us, sequence);
            let tail = concat_all(ps).skip(offset(ps, 17));
            &&& !tail.contains('\n')
            &&& sequence_of(fields(tail)) == Some(sequence as int)
        }),
{
    let ps = motion_line_pieces(address, raw, timestamp_us, sequence);
    let s = concat_all(ps);
    reveal_strlit("timestamp_us");
    reveal_strlit("sequence");
    reveal_strlit("timestamp_source");
    reveal_strlit("device_instant");
    reveal_strlit("seq");
    lemma_piece_at(ps, 17);
    let rest = ps.skip(17);
    assert(rest =~= seq![ps[17]]);
    assert(rest.drop_first() =~= Seq::<Seq<char>>::empty());
    assert(concat_all(rest.drop_first()) == Seq::<char>::empty());
    assert(rest[0] == ps[17]);
    assert(concat_all(rest) == ps[17] + Seq::<char>::empty());
    assert(ps[17] + Seq::<char>::empty() =~= ps[17]);
    let tail = s.skip(offset(ps, 17));
    assert(tail =~= ps[17]);
    let words = motion_trailing_words(timestamp_us, sequence);
    lemma_decimal_digits(timestamp_us as nat);
    lemma_decimal_digits(sequence as nat);
    lemma_kv_plain("timestamp_us"@, decimal(timestamp_us as nat));
    lemma_kv_plain("sequence"@, decimal(sequence as nat));
    lemma_kv_plain("timestamp_source"@, "device_instant"@);
    assert forall|i: int| 0 <= i < words.len() implies plain_word(#[trigger] words[i]) by {}
    lemma_joined_no_newline(words);
    assert forall|i: int| 0 <= i < tail.len() implies tail[i] != '\n' by {
        if i > 0 {
            assert(tail[i] == joined(words)[i - 1]);
        }
    }
    lemma_fields_of_joined_after(seq![' '], words);
    assert(fields(tail) == words);
    lemma_key_value_of("timestamp_source"@, "device_instant"@);
    lemma_key_value_of("sequence"@, decimal(sequence as nat));
    lemma_u64_of_decimal(sequence);
    assert(words.drop_last().last() == words[1]);
    assert("timestamp_source"@ != "sequence"@);
    assert("timestamp_source"@ != "seq"@);
    assert(sequence_of(words.drop_last()) == Some(sequence as int));
}

/// The host reads back what the firmware prints: the raw sample line of a
/// sample parses, with the sample's address, its accelerometer, temperature
/// and gyroscope readings in order, and its sequence number.
pub proof fn lemma_motion_line_parses(
    address: u8,
    raw: RawAccelGyroTemp,
    timestamp_us: u64,
    sequence: u64,
)
    requires
        motion_line_text(address, raw, timestamp_us, sequence).len() <= usize::MAX,
    ensures
        ({
            let s = motion_line_text(address, raw, timestamp_us, sequence);
            &&& raw_core(s) matches Some(core)
            &&& core.address == address as int
            &&& core.values == seq![
                raw.accel[0] as int,
                raw.accel[1] as int,
                raw.accel[2] as int,
                raw.temp as int,
                raw.gyro[0] as int,
                raw.gyro[1] as int,
                raw.gyro[2] as int,
            ]
            &&& sequence_of(fields(s.skip(core.end))) == Some(sequence as int)
        }),
{
    let ps = motion_line_pieces(address, raw, timestamp_us, sequence);
    lemma_motion_prefix(address, raw, timestamp_us, sequence);
    lemma_motion_readings(address, raw, timestamp_us, sequence);
    lemma_motion_tail(address, raw, timestamp_us, sequence);
}

/// The pieces of the line printed for a sample that was read but not emitted.
pub open spec fn suspicious_line_pieces(
    reason: Seq<char>,
    address: u8,
    sequence: u64,
    raw: RawAccelGyroTemp,
) -> Seq<Seq<char>> {
    seq![
        "RAW 0x"@,
        hex_fixed(address as nat, 2),
        ": suspicious sample "@,
        reason,
        ": accel=("@,
        signed_decimal(raw.accel[0] as int),
        ", "@,
        signed_decimal(raw.accel[1] as int),
        ", "@,
        signed_decimal(raw.accel[2] as int),
        ") temp_raw="@,
        signed_decimal(raw.temp as int),
        " gyro=("@,
        signed_decimal(raw.gyro[0] as int),
        ", "@,
        signed_decimal(raw.gyro[1] as int),
        ", "@,
        signed_decimal(raw.gyro[2] as int),
        ") sequence="@,
        decimal(sequence as nat),
    ]
}

/// The line printed for a sample that was read but not emitted.
pub open spec fn suspicious_line_text(
    reason: Seq<char>,
    address: u8,
    sequence: u64,
    raw: RawAccelGyroTemp,
) -> Seq<char> {
    concat_all(suspicious_line_pieces(reason, address, sequence, raw))
}

/// The line the firmware prints for a sample it read but did not emit, with
/// the reason it was held back.
pub fn suspicious_sample_line(reason: &str, address: u8, sequence: u64, raw: RawAccelGyroTemp) -> (line:
    String)
    ensures
        line@ == suspicious_line_text(reason@, address, sequence, raw),
{
    let ghost ps = suspicious_line_pieces(reason@, address, sequence, raw);
    let mut s = String::new();
    assert(ps.take(0) =~= Seq::<Seq<char>>::empty());
    let ghost b = s@;
    push_str(&mut s, "RAW 0x");
    proof { lemma_extend(ps, 0, b, s@); }
    let ghost b = s@;
    push_hex_fixed(&mut s, address as u64, 2);
    proof { lemma_extend(ps, 1, b, s@); }
    let ghost b = s@;
    push_str(&mut s, ": suspicious sample ");
    proof { lemma_extend(ps, 2, b, s@); }
    let ghost b = s@;
    push_str(&mut s, reason);
    proof { lemma_extend(ps, 3, b, s@); }
    let ghost b = s@;
    push_str(&mut s, ": accel=(");
    proof { lemma_extend(ps, 4, b, s@); }
    let ghost b = s@;
    push_signed(&mut s, raw.accel[0]);
    proof { lemma_extend(ps, 5, b, s@); }
    let ghost b = s@;
    push_str(&mut s, ", ");
    proof { lemma_extend(ps, 6, b, s@); }
    let ghost b = s@;
    push_signed(&mut s, raw.accel[1]);
    proof { lemma_extend(ps, 7, b, s@); }
    let ghost b = s@;
    push_str(&mut s, ", ");
    proof { lemma_extend(ps, 8, b, s@); }
    let ghost b = s@;
    push_signed(&mut s, raw.accel[2]);
    proof { lemma_extend(ps, 9, b, s@); }
    let ghost b = s@;
    push_str(&mut s, ") temp_raw=");
    proof { lemma_extend(ps, 10, b, s@); }
    let ghost b = s@;
    push_signed(&mut s, raw.temp);
    proof { lemma_extend(ps, 11, b, s@); }
    let ghost b = s@;
    push_str(&mut s, " gyro=(");
    proof { lemma_extend(ps, 12, b, s@); }
    let ghost b = s@;
    push_signed(&mut s, raw.gyro[0]);
    proof { lemma_extend(ps, 13, b, s@); }
    let ghost b = s@;
    push_str(&mut s, ", ");
    proof { lemma_extend(ps, 14, b, s@); }
    let ghost b = s@;
    push_signed(&mut s, raw.gyro[1]);
    proof { lemma_extend(ps, 15, b, s@); }
    let ghost b = s@;
    push_str(&mut s, ", ");
    proof { lemma_extend(ps, 16, b, s@); }
    let ghost b = s@;
    push_signed(&mut s, raw.gyro[2]);
    proof { lemma_extend(ps, 17, b, s@); }
    let ghost b = s@;
    push_str(&mut s, ") sequence=");
    proof { lemma_extend(ps, 18, b, s@); }
    let ghost b = s@;
    push_decimal(&mut s, sequence);
    proof {
        lemma_extend(ps, 19, b, s@);
        assert(ps.take(20) =~= ps);
    }
    s
}

/// A sample held back as suspicious never reaches the host as a sample: its
/// line is not a raw sample line.
pub proof fn lemma_suspicious_line_is_not_a_sample(
    reason: Seq<char>,
    address: u8,
    sequence: u64,
    raw: RawAccelGyroTemp,
)
    ensures
        raw_core(suspicious_line_text(reason, address, sequence, raw)) is None,
{
    let ps = suspicious_line_pieces(reason, address, sequence, raw);
    let s = concat_all(ps);
    reveal_strlit("RAW 0x");
    reveal_strlit(": suspicious sample ");
    reveal_strlit(": accel=(");
    assert(ps.take(0) =~= Seq::<Seq<char>>::empty());
    lemma_piece_at(ps, 0);
    lemma_piece_at(ps, 1);
    lemma_piece_at(ps, 2);
    reveal_with_fuel(hex_fixed, 3);
    assert(offset(ps, 2) == 8);
    assert(s[10] == s.subrange(8, 28)[2]);
    assert(s[10] == 's');
    if lit_at(s, 8, ": accel=("@) {
        assert(s[10] == s.subrange(8, 17)[2]);
    }
}

/// The pieces of a raw example line.
pub open spec fn example_line_pieces(
    consumed: u64,
    raw: RawAccelGyroTemp,
    consumed_timestamp_us: u64,
    sample_timestamp_us: u64,
) -> Seq<Seq<char>> {
    seq![
        "RAW consumed_events="@,
        decimal(consumed as nat),
        " accel=("@,
        signed_decimal(raw.accel[0] as int),
        ", "@,
        signed_decimal(raw.accel[1] as int),
        ", "@,
        signed_decimal(raw.accel[2] as int),
        ") temp_raw="@,
        signed_decimal(raw.temp as int),
        " gyro=("@,
        signed_decimal(raw.gyro[0] as int),
        ", "@,
        signed_decimal(raw.gyro[1] as int),
        ", "@,
        signed_decimal(raw.gyro[2] as int),
        ") consumed_timestamp_us="@,
        decimal(consumed_timestamp_us as nat),
        " sample_timestamp_us="@,
        decimal(sample_timestamp_us as nat),
    ]
}

/// The raw example line for the events consumed so far, the sample, when its
/// events were consumed and when it was read.
pub open spec fn example_line_text(
    consumed: u64,
    raw: RawAccelGyroTemp,
    consumed_timestamp_us: u64,
    sample_timestamp_us: u64,
) -> Seq<char> {
    concat_all(example_line_pieces(consumed, raw, consumed_timestamp_us, sample_timestamp_us))
}

/// The raw example line the firmware prints for each of the first
/// [`RAW_EXAMPLE_LIMIT`] successful samples, and nothing after them. The
/// sample time is that of the last successful sample, 0 if there is none.
pub fn raw_example_line(
    stats: &AcquisitionStats,
    raw: RawAccelGyroTemp,
    consumed_timestamp_us: u64,
) -> (line: Option<String>)
    ensures
        stats.successful_samples > RAW_EXAMPLE_LIMIT ==> line is None,
        stats.successful_samples <= RAW_EXAMPLE_LIMIT ==> (line matches Some(l) && l@
            == example_line_text(
            stats.consumed,
            raw,
            consumed_timestamp_us,
            match stats.last_sample_us {
                Some(t) => t,
                None => 0,
            },
        )),
{
    if stats.successful_samples > RAW_EXAMPLE_LIMIT {
        return None;
    }
    let sample_timestamp_us = match stats.last_sample_us {
        Some(t) => t,
        None => 0,
    };
    let ghost ps = example_line_pieces(stats.consumed, raw, consumed_timestamp_us, sample_timestamp_us);
    let mut s = String::new();
    assert(ps.take(0) =~= Seq::<Seq<char>>::empty());
    let ghost b = s@;
    push_str(&mut s, "RAW consumed_events=");
    proof { lemma_extend(ps, 0, b, s@); }
    let ghost b = s@;
    push_decimal(&mut s, stats.consumed);
    proof { lemma_extend(ps, 1, b, s@); }
    let ghost b = s@;
    push_str(&mut s, " accel=(");
    proof { lemma_extend(ps, 2, b, s@); }
    let ghost b = s@;
    push_signed(&mut s, raw.accel[0]);
    proof { lemma_extend(ps, 3, b, s@); }
    let ghost b = s@;
    push_str(&mut s, ", ");
    proof { lemma_extend(ps, 4, b, s@); }
    let ghost b = s@;
    push_signed(&mut s, raw.accel[1]);
    proof { lemma_extend(ps, 5, b, s@); }
    let ghost b = s@;
    push_str(&mut s, ", ");
    proof { lemma_extend(ps, 6, b, s@); }
    let ghost b = s@;
    push_signed(&mut s, raw.accel[2]);
    proof { lemma_extend(ps, 7, b, s@); }
    let ghost b = s@;
    push_str(&mut s, ") temp_raw=");
    proof { lemma_extend(ps, 8, b, s@); }
    let ghost b = s@;
    push_signed(&mut s, raw.temp);
    proof { lemma_extend(ps, 9, b, s@); }
    let ghost b = s@;
    push_str(&mut s, " gyro=(");
    proof { lemma_extend(ps, 10, b, s@); }
    let ghost b = s@;
    push_signed(&mut s, raw.gyro[0]);
    proof { lemma_extend(ps, 11, b, s@); }
    let ghost b = s@;
    push_str(&mut s, ", ");
    proof { lemma_extend(ps, 12, b, s@); }
    let ghost b = s@;
    push_signed(&mut s, raw.gyro[1]);
    proof { lemma_extend(ps, 13, b, s@); }
    let ghost b = s@;
    push_str(&mut s, ", ");
    proof { lemma_extend(ps, 14, b, s@); }
    let ghost b = s@;
    push_signed(&mut s, raw.gyro[2]);
    proof { lemma_extend(ps, 15, b, s@); }
    let ghost b = s@;
    push_str(&mut s, ") consumed_timestamp_us=");
    proof { lemma_extend(ps, 16, b, s@); }
    let ghost b = s@;
    push_decimal(&mut s, consumed_timestamp_us);
    proof { lemma_extend(ps, 17, b, s@); }
    let ghost b = s@;
    push_str(&mut s, " sample_timestamp_us=");
    proof { lemma_extend(ps, 18, b, s@); }
    let ghost b = s@;
    push_decimal(&mut s, sample_timestamp_us);
    proof {
        lemma_extend(ps, 19, b, s@);
        assert(ps.take(20) =~= ps);
    }
    Some(s)
}

/// A raw example line is never read back as a sample.
pub proof fn lemma_example_line_is_not_a_sample(
    consumed: u64,
    raw: RawAccelGyroTemp,
    consumed_timestamp_us: u64,
    sample_timestamp_us: u64,
)
    ensures
        raw_core(example_line_text(consumed, raw, consumed_timestamp_us, sample_timestamp_us)) is None,
{
    let ps = example_line_pieces(consumed, raw, consumed_timestamp_us, sample_timestamp_us);
    let s = concat_all(ps);
    reveal_strlit("RAW consumed_events=");
    reveal_strlit("RAW 0x");
    assert(ps.take(0) =~= Seq::<Seq<char>>::empty());
    lemma_piece_at(ps, 0);
    assert(s[4] == s.subrange(0, 20)[4]);
    if lit_at(s, 0, "RAW 0x"@) {
        assert(s[4] == s.subrange(0, 6)[4]);
    }
}

} // verus!
