//! Raw accel/temp/gyro block reads, suspicious-sample screening and the
//! retry policy around them.
use crate::bus::{
    appended, extends, is_register_read, lemma_extends_trans, lemma_push_appended, read_result,
    BusOp, I2cBus,
};
use crate::device::Mpu6050;
use crate::registers::ACCEL_XOUT_H;
use vstd::prelude::*;

verus! {

/// Raw register block read from `ACCEL_XOUT_H`: three accelerometer axes, the
/// temperature and three gyroscope axes, as signed 16-bit counts.
#[derive(Clone, Copy, Debug, PartialEq, Eq)]
pub struct RawAccelGyroTemp {
    pub accel: [i16; 3],
    pub temp: i16,
    pub gyro: [i16; 3],
}

/// Reason a raw sample was classified as suspicious.
#[derive(Clone, Copy, Debug, PartialEq, Eq, Structural)]
pub enum RawSampleSuspicion {
    AccelSentinel,
    GyroSentinel,
    TempSentinel,
    AccelAllMinusOne,
    GyroAllMinusOne,
    GyroPartialMinusOne,
    GyroPowerOfTwoMinusOne,
}

/// A count pinned at the end of the `i16` range.
pub open spec fn is_i16_sentinel(v: i16) -> bool {
    v == i16::MIN || v == i16::MAX
}

/// Some axis is pinned at the end of the `i16` range.
pub open spec fn has_i16_sentinel(values: [i16; 3]) -> bool {
    is_i16_sentinel(values[0]) || is_i16_sentinel(values[1]) || is_i16_sentinel(values[2])
}

/// Every axis reads -1.
pub open spec fn all_minus_one_spec(values: [i16; 3]) -> bool {
    values[0] == -1 && values[1] == -1 && values[2] == -1
}

/// Some, but not every, axis reads -1.
pub open spec fn partial_minus_one_spec(values: [i16; 3]) -> bool {
    (values[0] == -1 || values[1] == -1 || values[2] == -1) && !all_minus_one_spec(values)
}

/// A count of 8191 or 16383, values observed on a failing bus.
pub open spec fn is_power_of_two_minus_one(v: i16) -> bool {
    v == 8191 || v == 16383
}

/// Some axis reads 8191 or 16383.
pub open spec fn has_power_of_two_minus_one(values: [i16; 3]) -> bool {
    is_power_of_two_minus_one(values[0]) || is_power_of_two_minus_one(values[1])
        || is_power_of_two_minus_one(values[2])
}

/// Why a sample is suspicious, checking in this order: accelerometer
/// sentinels, gyroscope sentinels, temperature sentinels, accelerometer all -1,
/// gyroscope all -1, gyroscope 8191/16383, gyroscope partly -1.
pub open spec fn suspicion_of(raw: RawAccelGyroTemp) -> Option<RawSampleSuspicion> {
    if has_i16_sentinel(raw.accel) {
        Some(RawSampleSuspicion::AccelSentinel)
    } else if has_i16_sentinel(raw.gyro) {
        Some(RawSampleSuspicion::GyroSentinel)
    } else if is_i16_sentinel(raw.temp) {
        Some(RawSampleSuspicion::TempSentinel)
    } else if all_minus_one_spec(raw.accel) {
        Some(RawSampleSuspicion::AccelAllMinusOne)
    } else if all_minus_one_spec(raw.gyro) {
        Some(RawSampleSuspicion::GyroAllMinusOne)
    } else if has_power_of_two_minus_one(raw.gyro) {
        Some(RawSampleSuspicion::GyroPowerOfTwoMinusOne)
    } else if partial_minus_one_spec(raw.gyro) {
        Some(RawSampleSuspicion::GyroPartialMinusOne)
    } else {
        None
    }
}

/// A count pinned at either end of the `i16` range.
pub open spec fn pinned(v: i16) -> bool {
    v == i16::MIN || v == i16::MAX
}

/// None of the seven counts of `raw` is pinned.
pub open spec fn no_pinned_count(raw: RawAccelGyroTemp) -> bool {
    &&& !pinned(raw.accel[0]) && !pinned(raw.accel[1]) && !pinned(raw.accel[2])
    &&& !pinned(raw.gyro[0]) && !pinned(raw.gyro[1]) && !pinned(raw.gyro[2])
    &&& !pinned(raw.temp)
}

/// Which samples are suspicious, and why: a sample is clean exactly when none
/// of its seven counts is pinned at an end of the `i16` range, the
/// accelerometer does not read -1 on all three axes, and no gyroscope axis
/// reads -1, 8191 or 16383. A pinned count is reported for the first sensor
/// that has one, accelerometer, then gyroscope, then temperature; so a pinned
/// temperature with the motion axes free of pinned counts is always reported
/// as a temperature sentinel, whatever else the sample holds. With no pinned
/// count, the reason is the first that holds of: accelerometer all -1,
/// gyroscope all -1, a gyroscope axis at 8191 or 16383, a gyroscope axis at -1.
pub proof fn lemma_suspicion_law(raw: RawAccelGyroTemp)
    ensures
        suspicion_of(raw) is None <==> {
            &&& forall|i: int|
                0 <= i < 3 ==> !pinned(#[trigger] raw.accel[i]) && !pinned(raw.gyro[i])
                    && raw.gyro[i] != -1 && raw.gyro[i] != 8191 && raw.gyro[i] != 16383
            &&& !pinned(raw.temp)
            &&& !(raw.accel[0] == -1 && raw.accel[1] == -1 && raw.accel[2] == -1)
        },
        (exists|i: int| 0 <= i < 3 && pinned(#[trigger] raw.accel[i])) ==> suspicion_of(raw)
            == Some(RawSampleSuspicion::AccelSentinel),
        (forall|i: int| 0 <= i < 3 ==> !pinned(#[trigger] raw.accel[i])) && (exists|i: int|
            0 <= i < 3 && pinned(#[trigger] raw.gyro[i])) ==> suspicion_of(raw) == Some(
            RawSampleSuspicion::GyroSentinel,
        ),
        (forall|i: int| 0 <= i < 3 ==> !pinned(#[trigger] raw.accel[i]) && !pinned(raw.gyro[i]))
            && pinned(raw.temp) ==> suspicion_of(raw) == Some(RawSampleSuspicion::TempSentinel),
        suspicion_of(raw) == Some(RawSampleSuspicion::TempSentinel) ==> pinned(raw.temp),
        no_pinned_count(raw) && raw.accel[0] == -1 && raw.accel[1] == -1 && raw.accel[2] == -1
            ==> suspicion_of(raw) == Some(RawSampleSuspicion::AccelAllMinusOne),
        no_pinned_count(raw) && !(raw.accel[0] == -1 && raw.accel[1] == -1 && raw.accel[2] == -1)
            && raw.gyro[0] == -1 && raw.gyro[1] == -1 && raw.gyro[2] == -1 ==> suspicion_of(raw)
            == Some(RawSampleSuspicion::GyroAllMinusOne),
        no_pinned_count(raw) && !(raw.accel[0] == -1 && raw.accel[1] == -1 && raw.accel[2] == -1)
            && !(raw.gyro[0] == -1 && raw.gyro[1] == -1 && raw.gyro[2] == -1) && (exists|i: int|
            0 <= i < 3 && (#[trigger] raw.gyro[i] == 8191 || raw.gyro[i] == 16383)) ==> suspicion_of(raw)
            == Some(RawSampleSuspicion::GyroPowerOfTwoMinusOne),
        no_pinned_count(raw) && !(raw.accel[0] == -1 && raw.accel[1] == -1 && raw.accel[2] == -1)
            && (forall|i: int| 0 <= i < 3 ==> #[trigger] raw.gyro[i] != 8191 && raw.gyro[i] != 16383)
            && (exists|i: int| 0 <= i < 3 && #[trigger] raw.gyro[i] == -1) && !(raw.gyro[0] == -1
            && raw.gyro[1] == -1 && raw.gyro[2] == -1) ==> suspicion_of(raw) == Some(
            RawSampleSuspicion::GyroPartialMinusOne,
        ),
{
    let a = raw.accel;
    let g = raw.gyro;
    assert(pinned(a[0]) == is_i16_sentinel(a[0]));
    if forall|i: int| 0 <= i < 3 ==> !pinned(#[trigger] a[i]) && !pinned(g[i]) && g[i] != -1
        && g[i] != 8191 && g[i] != 16383 {
        assert(!pinned(a[0]) && !pinned(g[0]) && g[0] != -1 && g[0] != 8191 && g[0] != 16383);
        assert(!pinned(a[1]) && !pinned(g[1]) && g[1] != -1 && g[1] != 8191 && g[1] != 16383);
        assert(!pinned(a[2]) && !pinned(g[2]) && g[2] != -1 && g[2] != 8191 && g[2] != 16383);
    }
    if suspicion_of(raw) is None {
        assert forall|i: int| 0 <= i < 3 implies !pinned(#[trigger] a[i]) && !pinned(g[i]) && g[i]
            != -1 && g[i] != 8191 && g[i] != 16383 by {
            if i == 0 {
            } else if i == 1 {
            } else {
            }
        }
    }
    if exists|i: int| 0 <= i < 3 && pinned(#[trigger] a[i]) {
        let i = choose|i: int| 0 <= i < 3 && pinned(#[trigger] a[i]);
        assert(i == 0 || i == 1 || i == 2);
    }
    if forall|i: int| 0 <= i < 3 ==> !pinned(#[trigger] a[i]) {
        assert(!pinned(a[0]) && !pinned(a[1]) && !pinned(a[2]));
        if exists|i: int| 0 <= i < 3 && pinned(#[trigger] g[i]) {
            let i = choose|i: int| 0 <= i < 3 && pinned(#[trigger] g[i]);
            assert(i == 0 || i == 1 || i == 2);
        }
    }
    if exists|i: int| 0 <= i < 3 && (#[trigger] g[i] == 8191 || g[i] == 16383) {
        let i = choose|i: int| 0 <= i < 3 && (#[trigger] g[i] == 8191 || g[i] == 16383);
        assert(i == 0 || i == 1 || i == 2);
    }
    if exists|i: int| 0 <= i < 3 && #[trigger] g[i] == -1 {
        let i = choose|i: int| 0 <= i < 3 && #[trigger] g[i] == -1;
        assert(i == 0 || i == 1 || i == 2);
    }
    if forall|i: int| 0 <= i < 3 ==> #[trigger] g[i] != 8191 && g[i] != 16383 {
        assert(g[0] != 8191 && g[0] != 16383 && g[1] != 8191 && g[1] != 16383 && g[2] != 8191
            && g[2] != 16383);
    }
    if forall|i: int| 0 <= i < 3 ==> !pinned(#[trigger] a[i]) && !pinned(g[i]) {
        assert(!pinned(a[0]) && !pinned(g[0]));
        assert(!pinned(a[1]) && !pinned(g[1]));
        assert(!pinned(a[2]) && !pinned(g[2]));
    }
}

fn contains_i16_sentinel(values: [i16; 3]) -> (r: bool)
    ensures
        r == has_i16_sentinel(values),
{
    values[0] == i16::MIN || values[0] == i16::MAX || values[1] == i16::MIN || values[1]
        == i16::MAX || values[2] == i16::MIN || values[2] == i16::MAX
}

fn all_minus_one(values: [i16; 3]) -> (r: bool)
    ensures
        r == all_minus_one_spec(values),
{
    values[0] == -1 && values[1] == -1 && values[2] == -1
}

fn partial_minus_one(values: [i16; 3]) -> (r: bool)
    ensures
        r == partial_minus_one_spec(values),
{
    (values[0] == -1 || values[1] == -1 || values[2] == -1) && !all_minus_one(values)
}

fn is_power_of_two_minus_one_sentinel(value: i16) -> (r: bool)
    ensures
        r == is_power_of_two_minus_one(value),
{
    value == 8191 || value == 16383
}

fn contains_power_of_two_minus_one_sentinel(values: [i16; 3]) -> (r: bool)
    ensures
        r == has_power_of_two_minus_one(values),
{
    is_power_of_two_minus_one_sentinel(values[0]) || is_power_of_two_minus_one_sentinel(values[1])
        || is_power_of_two_minus_one_sentinel(values[2])
}

impl RawSampleSuspicion {
    /// Classifies a raw sample; see [`suspicion_of`].
    pub fn classify(raw: RawAccelGyroTemp) -> (r: Option<RawSampleSuspicion>)
        ensures
            r == suspicion_of(raw),
    {
        if contains_i16_sentinel(raw.accel) {
            Some(RawSampleSuspicion::AccelSentinel)
        } else if contains_i16_sentinel(raw.gyro) {
            Some(RawSampleSuspicion::GyroSentinel)
        } else if raw.temp == i16::MIN || raw.temp == i16::MAX {
            Some(RawSampleSuspicion::TempSentinel)
        } else if all_minus_one(raw.accel) {
            Some(RawSampleSuspicion::AccelAllMinusOne)
        } else if all_minus_one(raw.gyro) {
            Some(RawSampleSuspicion::GyroAllMinusOne)
        } else if contains_power_of_two_minus_one_sentinel(raw.gyro) {
            Some(RawSampleSuspicion::GyroPowerOfTwoMinusOne)
        } else if partial_minus_one(raw.gyro) {
            Some(RawSampleSuspicion::GyroPartialMinusOne)
        } else {
            None
        }
    }
}

impl RawAccelGyroTemp {
    /// A block from its parts.
    pub fn new(accel: [i16; 3], temp: i16, gyro: [i16; 3]) -> (r: RawAccelGyroTemp)
        ensures
            r == (RawAccelGyroTemp { accel, temp, gyro }),
    {
        RawAccelGyroTemp { accel, temp, gyro }
    }

    /// Whether [`RawSampleSuspicion::classify`] finds a reason to distrust it.
    pub fn is_suspicious(self) -> (r: bool)
        ensures
            r == suspicion_of(self) is Some,
    {
        RawSampleSuspicion::classify(self).is_some()
    }
}

/// The signed 16-bit value of a big-endian byte pair.
pub open spec fn be_i16_spec(msb: u8, lsb: u8) -> i16 {
    (msb as u16 * 256 + lsb as u16) as i16
}

/// `i16::from_be_bytes([msb, lsb])`.
pub fn be_i16(msb: u8, lsb: u8) -> (r: i16)
    ensures
        r == be_i16_spec(msb, lsb),
{
    let w: u16 = ((msb as u16) << 8u16) | (lsb as u16);
    assert(((msb as u16) << 8u16) | (lsb as u16) == msb as u16 * 256 + lsb as u16) by (bit_vector);
    w as i16
}

/// The block that 14 bytes read from `ACCEL_XOUT_H` encode.
pub open spec fn raw_from_block(b: Seq<u8>) -> RawAccelGyroTemp {
    RawAccelGyroTemp {
        accel: [be_i16_spec(b[0], b[1]), be_i16_spec(b[2], b[3]), be_i16_spec(b[4], b[5])],
        temp: be_i16_spec(b[6], b[7]),
        gyro: [be_i16_spec(b[8], b[9]), be_i16_spec(b[10], b[11]), be_i16_spec(b[12], b[13])],
    }
}

/// The two bytes of `v`, most significant first, as `i16::to_be_bytes` gives
/// them.
pub open spec fn be_bytes(v: i16) -> Seq<u8> {
    seq![((v as u16) >> 8u16) as u8, ((v as u16) & 0xffu16) as u8]
}

/// The 14 bytes a device sends for `raw`: the three accelerations, the
/// temperature and the three rates, each most significant byte first.
pub open spec fn block_of(raw: RawAccelGyroTemp) -> Seq<u8> {
    be_bytes(raw.accel[0]) + be_bytes(raw.accel[1]) + be_bytes(raw.accel[2]) + be_bytes(raw.temp)
        + be_bytes(raw.gyro[0]) + be_bytes(raw.gyro[1]) + be_bytes(raw.gyro[2])
}

/// A big-endian byte pair decodes to the value it encodes.
proof fn lemma_be_round_trip(v: i16)
    ensures
        be_i16_spec(be_bytes(v)[0], be_bytes(v)[1]) == v,
{
    let hi = ((v as u16) >> 8u16) as u8;
    let lo = ((v as u16) & 0xffu16) as u8;
    assert((hi as u16 * 256 + lo as u16) as i16 == v) by (bit_vector)
        requires
            hi == ((v as u16) >> 8u16) as u8,
            lo == ((v as u16) & 0xffu16) as u8,
    ;
}

/// Decoding the 14 bytes of any sample, suspicious or not, gives that sample
/// back unchanged, so a block read that received them reports exactly it.
pub proof fn lemma_block_round_trip<E>(raw: RawAccelGyroTemp, op: BusOp<E>)
    ensures
        raw_from_block(block_of(raw)) == raw,
        read_result(op) == Ok::<Seq<u8>, E>(block_of(raw)) ==> raw_result(op) == Ok::<RawAccelGyroTemp, E>(raw),
{
    lemma_be_round_trip(raw.accel[0]);
    lemma_be_round_trip(raw.accel[1]);
    lemma_be_round_trip(raw.accel[2]);
    lemma_be_round_trip(raw.temp);
    lemma_be_round_trip(raw.gyro[0]);
    lemma_be_round_trip(raw.gyro[1]);
    lemma_be_round_trip(raw.gyro[2]);
    let b = block_of(raw);
    let d = raw_from_block(b);
    assert(d.accel =~= raw.accel);
    assert(d.gyro =~= raw.gyro);
}

/// What a block read reports, given its transfer.
pub open spec fn raw_result<E>(op: BusOp<E>) -> Result<RawAccelGyroTemp, E> {
    match read_result(op) {
        Ok(b) => Ok(raw_from_block(b)),
        Err(e) => Err(e),
    }
}

/// How many suspicious reads are retried, and whether the last suspicious
/// sample is accepted or rejected once the retries are used up.
#[derive(Clone, Copy, Debug, PartialEq, Eq, Structural)]
pub struct RawRetryPolicy {
    retries: usize,
    accept_after_retries: bool,
}

impl RawRetryPolicy {
    /// The number of retries allowed after a suspicious first read.
    pub closed spec fn retry_limit(self) -> usize {
        self.retries
    }

    /// Whether a sample still suspicious after the last retry is accepted.
    pub closed spec fn accepts_exhausted(self) -> bool {
        self.accept_after_retries
    }

    /// The policy with the given limit and choice for an exhausted retry run.
    pub closed spec fn with(retries: usize, accept: bool) -> RawRetryPolicy {
        RawRetryPolicy { retries, accept_after_retries: accept }
    }

    /// The parts of [`RawRetryPolicy::with`] are those it was given.
    pub proof fn lemma_with(retries: usize, accept: bool)
        ensures
            Self::with(retries, accept).retry_limit() == retries,
            Self::with(retries, accept).accepts_exhausted() == accept,
    {
    }

    /// Retry up to `retries` times, then reject a still-suspicious sample.
    pub fn reject_after_retries(retries: usize) -> (p: RawRetryPolicy)
        ensures
            p == Self::with(retries, false),
            p.retry_limit() == retries,
            !p.accepts_exhausted(),
    {
        RawRetryPolicy { retries, accept_after_retries: false }
    }

    /// Retry up to `retries` times, then accept a still-suspicious sample.
    pub fn accept_after_retries(retries: usize) -> (p: RawRetryPolicy)
        ensures
            p == Self::with(retries, true),
            p.retry_limit() == retries,
            p.accepts_exhausted(),
    {
        RawRetryPolicy { retries, accept_after_retries: true }
    }
}

/// Result of a checked raw read, with the retry details.
#[derive(Clone, Copy, Debug, PartialEq, Eq)]
pub enum RawReadOutcome<E> {
    /// The first read was not suspicious.
    Clean { raw: RawAccelGyroTemp },
    /// A retry produced a sample that is not suspicious.
    Recovered { raw: RawAccelGyroTemp, first_suspicion: RawSampleSuspicion, retries: usize },
    /// Still suspicious after the allowed retries, and rejected.
    RejectedSuspicious { raw: RawAccelGyroTemp, suspicion: RawSampleSuspicion, retries: usize },
    /// Still suspicious after the allowed retries, and accepted.
    AcceptedSuspicious { raw: RawAccelGyroTemp, suspicion: RawSampleSuspicion, retries: usize },
    /// A retry failed on the bus; the first sample and its reason are kept.
    RetryError {
        first_raw: RawAccelGyroTemp,
        first_suspicion: RawSampleSuspicion,
        retries: usize,
        error: E,
    },
}

/// The sample that is current after `k` retries: the first sample, or the
/// sample of the `k`-th retry.
pub open spec fn sample_after<E>(first: RawAccelGyroTemp, retries: Seq<Result<RawAccelGyroTemp, E>>, k: nat) -> RawAccelGyroTemp {
    if k == 0 {
        first
    } else {
        match retries[k - 1] {
            Ok(raw) => raw,
            Err(_) => first,
        }
    }
}

/// The outcome of a checked read whose first sample `first` was suspicious
/// for `first_suspicion`, given the results of the retries that were made,
/// evaluated from retry number `k` on.
pub open spec fn retry_outcome<E>(
    policy: RawRetryPolicy,
    first: RawAccelGyroTemp,
    first_suspicion: RawSampleSuspicion,
    retries: Seq<Result<RawAccelGyroTemp, E>>,
    k: nat,
) -> RawReadOutcome<E>
    decreases policy.retry_limit() - k,
{
    if k < policy.retry_limit() && k < retries.len() {
        match retries[k as int] {
            Err(e) => RawReadOutcome::RetryError {
                first_raw: first,
                first_suspicion,
                retries: (k + 1) as usize,
                error: e,
            },
            Ok(raw) => match suspicion_of(raw) {
                None => RawReadOutcome::Recovered {
                    raw,
                    first_suspicion,
                    retries: (k + 1) as usize,
                },
                Some(_) => retry_outcome(policy, first, first_suspicion, retries, k + 1),
            },
        }
    } else {
        let raw = sample_after(first, retries, k);
        let suspicion = match suspicion_of(raw) {
            Some(s) => s,
            None => first_suspicion,
        };
        if policy.accepts_exhausted() {
            RawReadOutcome::AcceptedSuspicious { raw, suspicion, retries: k as usize }
        } else {
            RawReadOutcome::RejectedSuspicious { raw, suspicion, retries: k as usize }
        }
    }
}

/// The retries made after a suspicious first read are exactly those the
/// policy calls for: every retry but the last produced a suspicious sample, and
/// unless the limit was reached the last one failed or produced a clean sample.
pub open spec fn retries_complete<E>(policy: RawRetryPolicy, retries: Seq<Result<RawAccelGyroTemp, E>>) -> bool {
    &&& retries.len() <= policy.retry_limit()
    &&& forall|i: int|
        0 <= i < retries.len() - 1 ==> (#[trigger] retries[i] matches Ok(raw) && suspicion_of(raw) is Some)
    &&& retries.len() < policy.retry_limit() ==> {
        &&& retries.len() > 0
        &&& (retries.last() matches Ok(raw) ==> suspicion_of(raw) is None)
    }
}

/// The outcome of a checked read, given the results of all its block reads,
/// and the number of block reads it makes.
pub open spec fn checked_read_outcome<E>(policy: RawRetryPolicy, reads: Seq<Result<RawAccelGyroTemp, E>>) -> Result<RawReadOutcome<E>, E> {
    match reads[0] {
        Err(e) => Err(e),
        Ok(first) => match suspicion_of(first) {
            None => Ok(RawReadOutcome::Clean { raw: first }),
            Some(s) => Ok(retry_outcome(policy, first, s, reads.drop_first(), 0)),
        },
    }
}

/// `reads` are the block reads a checked read makes: one, and, if it produced a
/// suspicious sample, the complete run of retries.
pub open spec fn checked_reads_complete<E>(policy: RawRetryPolicy, reads: Seq<Result<RawAccelGyroTemp, E>>) -> bool {
    &&& reads.len() >= 1
    &&& match reads[0] {
        Ok(first) if suspicion_of(first) is Some => retries_complete(policy, reads.drop_first()),
        _ => reads.len() == 1,
    }
}

/// The transfers appended by a checked read are block reads at `address`.
pub open spec fn all_block_reads<E>(ops: Seq<BusOp<E>>, address: u8) -> bool {
    forall|i: int| 0 <= i < ops.len() ==> is_register_read(#[trigger] ops[i], address, ACCEL_XOUT_H, 14)
}

/// The results of a run of block reads.
pub open spec fn block_results<E>(ops: Seq<BusOp<E>>) -> Seq<Result<RawAccelGyroTemp, E>> {
    ops.map_values(|op: BusOp<E>| raw_result(op))
}

/// Retries that all produced suspicious samples do not change the outcome:
/// evaluating from the start or from after them gives the same result.
pub proof fn lemma_retry_outcome_skip<E>(
    policy: RawRetryPolicy,
    first: RawAccelGyroTemp,
    first_suspicion: RawSampleSuspicion,
    retries: Seq<Result<RawAccelGyroTemp, E>>,
    k: nat,
)
    requires
        k <= policy.retry_limit(),
        k <= retries.len(),
        forall|i: int| 0 <= i < k ==> (#[trigger] retries[i] matches Ok(raw) && suspicion_of(raw) is Some),
    ensures
        retry_outcome(policy, first, first_suspicion, retries, 0) == retry_outcome(policy, first, first_suspicion, retries, k),
    decreases k,
{
    if k > 0 {
        lemma_retry_outcome_skip(policy, first, first_suspicion, retries, (k - 1) as nat);
        assert(retries[k - 1] matches Ok(raw) && suspicion_of(raw) is Some);
    }
}

/// Evaluated from retry `k` on, after `k` suspicious retries, a complete run of
/// retries ends in one of three ways: a clean retry recovers the sample, a
/// failed retry ends the run, or the limit is reached with every retry
/// suspicious; and the run has exactly as many retries as the outcome counts.
proof fn lemma_retry_classes<E>(
    policy: RawRetryPolicy,
    first: RawAccelGyroTemp,
    s: RawSampleSuspicion,
    retries: Seq<Result<RawAccelGyroTemp, E>>,
    k: nat,
)
    requires
        retries_complete(policy, retries),
        suspicion_of(first) == Some(s),
        k <= policy.retry_limit(),
        k <= retries.len(),
        forall|i: int| 0 <= i < k ==> (#[trigger] retries[i] matches Ok(raw) && suspicion_of(raw) is Some),
    ensures
        match retry_outcome(policy, first, s, retries, k) {
            RawReadOutcome::Clean { .. } => false,
            RawReadOutcome::Recovered { raw, first_suspicion, retries: n } => {
                &&& first_suspicion == s
                &&& suspicion_of(raw) is None
                &&& 1 <= n <= policy.retry_limit()
                &&& n == retries.len()
            },
            RawReadOutcome::RetryError { first_raw, first_suspicion, retries: n, .. } => {
                &&& first_raw == first
                &&& first_suspicion == s
                &&& 1 <= n <= policy.retry_limit()
                &&& n == retries.len()
            },
            RawReadOutcome::RejectedSuspicious { raw, suspicion, retries: n } => {
                &&& !policy.accepts_exhausted()
                &&& suspicion_of(raw) == Some(suspicion)
                &&& n == policy.retry_limit()
                &&& n == retries.len()
            },
            RawReadOutcome::AcceptedSuspicious { raw, suspicion, retries: n } => {
                &&& policy.accepts_exhausted()
                &&& suspicion_of(raw) == Some(suspicion)
                &&& n == policy.retry_limit()
                &&& n == retries.len()
            },
        },
    decreases policy.retry_limit() - k,
{
    if k < policy.retry_limit() && k < retries.len() {
        match retries[k as int] {
            Err(e) => {
                if k + 1 < retries.len() {
                    assert(retries[k as int] matches Ok(raw) && suspicion_of(raw) is Some);
                }
            },
            Ok(raw) => match suspicion_of(raw) {
                None => {
                    if k + 1 < retries.len() {
                        assert(retries[k as int] matches Ok(raw) && suspicion_of(raw) is Some);
                    }
                },
                Some(_) => {
                    lemma_retry_classes(policy, first, s, retries, k + 1);
                },
            },
        }
    } else {
        if k < policy.retry_limit() {
            assert(k == retries.len());
            assert(retries.len() > 0);
            let last = retries.len() - 1;
            assert(retries[last] matches Ok(raw) && suspicion_of(raw) is Some);
        }
        assert(k == policy.retry_limit());
        if k > 0 {
            assert(retries[k - 1] matches Ok(raw) && suspicion_of(raw) is Some);
        }
    }
}

/// The outcomes of a checked read, against the block reads it made: a failed
/// first read is returned as it is, after that one read; a clean first sample
/// is passed on as read, after one read; a suspicious first sample is
/// recovered by a clean retry, ends in a failed retry that keeps the first
/// sample, or, after exactly the allowed retries all suspicious, is rejected
/// or accepted as the policy says. Every suspicious outcome counts the
/// retries made, and no more than `1 + retry_limit` reads are ever made.
pub proof fn lemma_checked_read_classes<E>(
    policy: RawRetryPolicy,
    reads: Seq<Result<RawAccelGyroTemp, E>>,
)
    requires
        checked_reads_complete(policy, reads),
    ensures
        reads.len() <= 1 + policy.retry_limit(),
        match checked_read_outcome(policy, reads) {
            Err(e) => reads.len() == 1 && reads[0] == Err::<RawAccelGyroTemp, E>(e),
            Ok(RawReadOutcome::Clean { raw }) => {
                &&& reads.len() == 1
                &&& reads[0] == Ok::<RawAccelGyroTemp, E>(raw)
                &&& suspicion_of(raw) is None
            },
            Ok(RawReadOutcome::Recovered { raw, first_suspicion, retries }) => {
                &&& reads[0] matches Ok(r0) && suspicion_of(r0) == Some(first_suspicion)
                &&& suspicion_of(raw) is None
                &&& 1 <= retries <= policy.retry_limit()
                &&& reads.len() == 1 + retries
            },
            Ok(RawReadOutcome::RetryError { first_raw, first_suspicion, retries, .. }) => {
                &&& reads[0] == Ok::<RawAccelGyroTemp, E>(first_raw)
                &&& suspicion_of(first_raw) == Some(first_suspicion)
                &&& 1 <= retries <= policy.retry_limit()
                &&& reads.len() == 1 + retries
            },
            Ok(RawReadOutcome::RejectedSuspicious { raw, suspicion, retries }) => {
                &&& reads[0] matches Ok(r0) && suspicion_of(r0) is Some
                &&& !policy.accepts_exhausted()
                &&& suspicion_of(raw) == Some(suspicion)
                &&& retries == policy.retry_limit()
                &&& reads.len() == 1 + retries
            },
            Ok(RawReadOutcome::AcceptedSuspicious { raw, suspicion, retries }) => {
                &&& reads[0] matches Ok(r0) && suspicion_of(r0) is Some
                &&& policy.accepts_exhausted()
                &&& suspicion_of(raw) == Some(suspicion)
                &&& retries == policy.retry_limit()
                &&& reads.len() == 1 + retries
            },
        },
{
    if let Ok(first) = reads[0] {
        if let Some(s) = suspicion_of(first) {
            lemma_retry_classes(policy, first, s, reads.drop_first(), 0);
        }
    }
}

impl<I2C: I2cBus> Mpu6050<I2C> {
    /// Reads the 14-byte accel/temp/gyro block starting at `ACCEL_XOUT_H` in one
    /// transfer.
    pub fn read_raw_accel_gyro_temp(&mut self) -> (r: Result<RawAccelGyroTemp, I2C::Error>)
        ensures
            final(self).addr() == old(self).addr(),
            final(self).records() == old(self).records(),
            extends(old(self).transcript(), final(self).transcript()),
            ({
                let added = appended(old(self).transcript(), final(self).transcript());
                &&& added.len() == 1
                &&& is_register_read(added[0], old(self).bus_address(), ACCEL_XOUT_H, 14)
                &&& r == raw_result(added[0])
            }),
    {
        let ghost t0 = self.transcript();
        let r = self.read_block(ACCEL_XOUT_H);
        proof {
            lemma_push_appended(t0, self.transcript().last());
        }
        match r {
            Err(e) => Err(e),
            Ok(b) => {
                let raw = RawAccelGyroTemp {
                    accel: [be_i16(b[0], b[1]), be_i16(b[2], b[3]), be_i16(b[4], b[5])],
                    temp: be_i16(b[6], b[7]),
                    gyro: [be_i16(b[8], b[9]), be_i16(b[10], b[11]), be_i16(b[12], b[13])],
                };
                proof {
                    assert(raw == raw_from_block(b@));
                }
                Ok(raw)
            },
        }
    }

    /// One block read with no retry: a suspicious sample is rejected.
    pub fn read_raw_checked(&mut self) -> (r: Result<RawReadOutcome<I2C::Error>, I2C::Error>)
        ensures
            final(self).addr() == old(self).addr(),
            final(self).records() == old(self).records(),
            extends(old(self).transcript(), final(self).transcript()),
            ({
                let added = appended(old(self).transcript(), final(self).transcript());
                let policy = RawRetryPolicy::with(0, false);
                &&& all_block_reads(added, old(self).bus_address())
                &&& checked_reads_complete(policy, block_results(added))
                &&& r == checked_read_outcome(policy, block_results(added))
            }),
    {
        self.read_raw_with_retry(RawRetryPolicy::reject_after_retries(0))
    }

    /// Reads a block; if it is suspicious, reads again up to the policy's limit
    /// until a sample is clean, a retry fails on the bus, or the limit is
    /// reached. A bus error on the first read is returned as `Err`.
    pub fn read_raw_with_retry(&mut self, policy: RawRetryPolicy) -> (r: Result<
        RawReadOutcome<I2C::Error>,
        I2C::Error,
    >)
        ensures
            final(self).addr() == old(self).addr(),
            final(self).records() == old(self).records(),
            extends(old(self).transcript(), final(self).transcript()),
            ({
                let added = appended(old(self).transcript(), final(self).transcript());
                &&& all_block_reads(added, old(self).bus_address())
                &&& checked_reads_complete(policy, block_results(added))
                &&& r == checked_read_outcome(policy, block_results(added))
            }),
    {
        let ghost t0 = self.transcript();
        let ghost address = self.bus_address();
        let first_read = self.read_raw_accel_gyro_temp();
        let ghost t1 = self.transcript();
        proof {
            assert(appended(t0, t1).len() == 1);
            assert(block_results(appended(t0, t1)) =~= seq![raw_result(appended(t0, t1)[0])]);
        }
        let first_raw = match first_read {
            Err(e) => {
                return Err(e);
            },
            Ok(raw) => raw,
        };
        let first_suspicion = match RawSampleSuspicion::classify(first_raw) {
            None => {
                return Ok(RawReadOutcome::Clean { raw: first_raw });
            },
            Some(s) => s,
        };
        let mut retries: usize = 0;
        let mut raw = first_raw;
        let mut suspicion = first_suspicion;
        while retries < policy.retries
            invariant
                self.addr() == old(self).addr(),
                self.records() == old(self).records(),
                t0 == old(self).transcript(),
                address == old(self).bus_address(),
                address == self.bus_address(),
                extends(t0, self.transcript()),
                all_block_reads(appended(t0, self.transcript()), address),
                appended(t0, self.transcript()).len() == retries + 1,
                retries <= policy.retry_limit(),
                block_results(appended(t0, self.transcript()))[0] == Ok::<RawAccelGyroTemp, I2C::Error>(first_raw),
                suspicion_of(first_raw) == Some(first_suspicion),
                forall|i: int|
                    0 <= i < retries ==> (#[trigger] block_results(appended(t0, self.transcript())).drop_first()[i] matches Ok(x) && suspicion_of(x) is Some),
                raw == sample_after(first_raw, block_results(appended(t0, self.transcript())).drop_first(), retries as nat),
                suspicion_of(raw) == Some(suspicion),
            decreases policy.retry_limit() - retries,
        {
            let ghost tb = self.transcript();
            retries += 1;
            let next = self.read_raw_accel_gyro_temp();
            let ghost ta = self.transcript();
            proof {
                lemma_extends_trans(t0, tb, ta);
                let added = appended(t0, ta);
                assert(added =~= appended(t0, tb).push(appended(tb, ta)[0]));
                assert(block_results(added) =~= block_results(appended(t0, tb)).push(raw_result(appended(tb, ta)[0])));
                assert(block_results(added).drop_first() =~= block_results(appended(t0, tb)).drop_first().push(raw_result(appended(tb, ta)[0])));
                lemma_retry_outcome_skip(policy, first_raw, first_suspicion, block_results(added).drop_first(), (retries - 1) as nat);
            }
            match next {
                Ok(retry_raw) => {
                    raw = retry_raw;
                    match RawSampleSuspicion::classify(retry_raw) {
                        Some(retry_suspicion) => {
                            suspicion = retry_suspicion;
                        },
                        None => {
                            return Ok(RawReadOutcome::Recovered {
                                raw: retry_raw,
                                first_suspicion,
                                retries,
                            });
                        },
                    }
                },
                Err(error) => {
                    return Ok(RawReadOutcome::RetryError {
                        first_raw,
                        first_suspicion,
                        retries,
                        error,
                    });
                },
            }
        }
        proof {
            let reads = block_results(appended(t0, self.transcript())).drop_first();
            lemma_retry_outcome_skip(policy, first_raw, first_suspicion, reads, retries as nat);
        }
        if policy.accept_after_retries {
            Ok(RawReadOutcome::AcceptedSuspicious { raw, suspicion, retries })
        } else {
            Ok(RawReadOutcome::RejectedSuspicious { raw, suspicion, retries })
        }
    }
}

} // verus!
