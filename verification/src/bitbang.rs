//! A software (bit-banged) I2C master on two open-drain pins, and a bare
//! address probe on the same pins.
//!
//! The master keeps a record of what it did to the pins: every level it drove
//! or released, and every level it sampled. Contracts speak of projections of
//! that record: the pin levels driven, in order, and the SDA (or SCL) samples
//! taken.
use crate::bringup::DelayMs;
use crate::bus::I2cBus;
use crate::text::{flag_text, hex_fixed, push_flag, push_hex_fixed, push_str};
use vstd::prelude::*;

verus! {

/// How many times the clock line is sampled, waiting for it to rise, before
/// the bus is declared stuck.
pub const SCL_RELEASE_TIMEOUT: u16 = 1000;

/// An open-drain GPIO: driving high releases the line to its pull-up.
pub trait OpenDrainPin {
    /// Releases the line.
    fn set_high(&mut self);

    /// Drives the line low.
    fn set_low(&mut self);

    /// Samples the line.
    fn is_high(&self) -> bool;

    /// Samples the line, low meaning true.
    fn is_low(&self) -> bool {
        !self.is_high()
    }
}

/// Errors of a bit-banged transfer.
#[derive(Debug, Clone, Copy, PartialEq, Eq, Structural)]
pub enum Error {
    /// The address byte was not acknowledged.
    AddressNack,
    /// A data byte was not acknowledged.
    DataNack,
    /// The clock line did not rise when released.
    Bus,
}

/// One thing the master did to a pin.
pub ghost enum PinEvent {
    /// SCL released (`true`) or driven low (`false`).
    Scl(bool),
    /// SDA released (`true`) or driven low (`false`).
    Sda(bool),
    /// SCL sampled, with the level read.
    SclSample(bool),
    /// SDA sampled, with the level read.
    SdaSample(bool),
}

/// The levels driven, in order, leaving out the samples.
pub open spec fn drives(s: Seq<PinEvent>) -> Seq<PinEvent>
    decreases s.len(),
{
    if s.len() == 0 {
        Seq::empty()
    } else {
        let rest = drives(s.drop_last());
        match s.last() {
            PinEvent::Scl(_) | PinEvent::Sda(_) => rest.push(s.last()),
            _ => rest,
        }
    }
}

/// The SDA levels sampled, in order.
pub open spec fn sda_samples(s: Seq<PinEvent>) -> Seq<bool>
    decreases s.len(),
{
    if s.len() == 0 {
        Seq::empty()
    } else {
        let rest = sda_samples(s.drop_last());
        match s.last() {
            PinEvent::SdaSample(v) => rest.push(v),
            _ => rest,
        }
    }
}

/// The SCL levels sampled, in order.
pub open spec fn scl_samples(s: Seq<PinEvent>) -> Seq<bool>
    decreases s.len(),
{
    if s.len() == 0 {
        Seq::empty()
    } else {
        let rest = scl_samples(s.drop_last());
        match s.last() {
            PinEvent::SclSample(v) => rest.push(v),
            _ => rest,
        }
    }
}

/// What probing one address with a bare address byte found.
#[derive(Debug, Clone, Copy, PartialEq, Eq)]
pub struct AddressProbe {
    /// The address byte was acknowledged.
    pub ack: bool,
    /// SCL read high with both lines released, before the START.
    pub scl_idle_high: bool,
    /// SDA read high with both lines released, before the START.
    pub sda_idle_high: bool,
}

/// The record ends with a full run of clock samples that all read low: the
/// clock never rose.
pub open spec fn ends_in_timeout(s: Seq<PinEvent>) -> bool {
    &&& s.len() >= SCL_RELEASE_TIMEOUT
    &&& forall|i: int|
        s.len() - SCL_RELEASE_TIMEOUT <= i < s.len() ==> #[trigger] s[i] == PinEvent::SclSample(
            false,
        )
}

/// `n` clock samples that read low, followed by one that read high when the
/// clock `rose`.
pub open spec fn scl_wait(n: nat, rose: bool) -> Seq<PinEvent> {
    let low = Seq::new(n, |i: int| PinEvent::SclSample(false));
    if rose {
        low.push(PinEvent::SclSample(true))
    } else {
        low
    }
}

/// Bit `i` (0 is the least significant) of `byte`.
pub open spec fn bit_of(byte: u8, i: int) -> bool {
    (byte >> (i as u8)) & 1 == 1
}

/// The levels driven to clock one bit out: SDA set, then a clock pulse.
pub open spec fn bit_drives(bit: bool) -> Seq<PinEvent> {
    seq![PinEvent::Sda(bit), PinEvent::Scl(true), PinEvent::Scl(false)]
}

/// The levels driven for the first `k` bits of `byte`, most significant first.
pub open spec fn byte_bits_drives(byte: u8, k: int) -> Seq<PinEvent>
    decreases k,
{
    if k <= 0 {
        Seq::empty()
    } else {
        byte_bits_drives(byte, k - 1) + bit_drives(bit_of(byte, 8 - k))
    }
}

/// The levels driven to write `byte` and clock its acknowledge bit in.
pub open spec fn write_byte_drives(byte: u8) -> Seq<PinEvent> {
    byte_bits_drives(byte, 8) + bit_drives(true)
}

/// The levels driven for `k` bits clocked in.
pub open spec fn read_bits_drives(k: int) -> Seq<PinEvent>
    decreases k,
{
    if k <= 0 {
        Seq::empty()
    } else {
        read_bits_drives(k - 1) + bit_drives(true)
    }
}

/// The levels driven to read a byte and then answer ACK (`ack`) or NACK.
pub open spec fn read_byte_drives(ack: bool) -> Seq<PinEvent> {
    read_bits_drives(8) + bit_drives(!ack)
}

/// The value of bits read most significant first.
pub open spec fn bits_value(bits: Seq<bool>) -> int
    decreases bits.len(),
{
    if bits.len() == 0 {
        0
    } else {
        2 * bits_value(bits.drop_last()) + if bits.last() {
            1int
        } else {
            0
        }
    }
}

/// The levels driven for a START (or repeated START).
pub open spec fn start_drives() -> Seq<PinEvent> {
    seq![PinEvent::Sda(true), PinEvent::Scl(true), PinEvent::Sda(false), PinEvent::Scl(false)]
}

/// The levels driven for a STOP.
pub open spec fn stop_drives() -> Seq<PinEvent> {
    seq![PinEvent::Sda(false), PinEvent::Scl(true), PinEvent::Sda(true)]
}

/// The levels driven for bus recovery's `k` clock pulses with SDA released.
pub open spec fn recovery_pulses(k: int) -> Seq<PinEvent>
    decreases k,
{
    if k <= 0 {
        Seq::empty()
    } else {
        recovery_pulses(k - 1) + seq![PinEvent::Scl(false), PinEvent::Scl(true)]
    }
}

/// The address byte: the 7-bit address shifted up, with the read flag as its
/// lowest bit.
pub open spec fn address_byte(address: u8, read: bool) -> u8 {
    ((address << 1u8) | if read { 1u8 } else { 0u8 }) as u8
}

/// The levels driven to write each of `bytes` and clock in its acknowledge.
pub open spec fn bytes_drives(bytes: Seq<u8>) -> Seq<PinEvent>
    decreases bytes.len(),
{
    if bytes.len() == 0 {
        Seq::empty()
    } else {
        bytes_drives(bytes.drop_last()) + write_byte_drives(bytes.last())
    }
}

/// The levels driven to read the first `k` of `total` bytes, acknowledging
/// every byte but the last of the transfer.
pub open spec fn receive_drives(k: int, total: int) -> Seq<PinEvent>
    decreases k,
{
    if k <= 0 {
        Seq::empty()
    } else {
        receive_drives(k - 1, total) + read_byte_drives(k - 1 < total - 1)
    }
}

/// `n` acknowledge samples that all read low.
pub open spec fn acks(n: int) -> Seq<bool> {
    Seq::new(n as nat, |i: int| false)
}

/// The bytes `buffer` holds are those sampled, eight bits each, starting at
/// sample `start`.
pub open spec fn bytes_sampled(buffer: Seq<u8>, samples: Seq<bool>, start: int) -> bool {
    &&& samples.len() == start + 8 * buffer.len()
    &&& forall|j: int|
        0 <= j < buffer.len() ==> #[trigger] buffer[j] == bits_value(
            samples.subrange(start + 8 * j, start + 8 * j + 8),
        )
}

/// One part of a combined transfer: bytes to write, or a buffer to read into.
#[derive(Debug, Clone, PartialEq, Eq)]
pub enum Transfer {
    /// Bytes written to the device.
    Write(Vec<u8>),
    /// A buffer filled with bytes read from the device.
    Read(Vec<u8>),
}

/// Whether `t` reads.
pub open spec fn is_read(t: Transfer) -> bool {
    t is Read
}

/// Two transfers of the same direction and length; a write also keeps its
/// bytes. A combined transfer changes nothing else of the parts it is given.
pub open spec fn same_shape(a: Transfer, b: Transfer) -> bool {
    match (a, b) {
        (Transfer::Write(x), Transfer::Write(y)) => x@ == y@,
        (Transfer::Read(x), Transfer::Read(y)) => x@.len() == y@.len(),
        _ => false,
    }
}

/// Part `k` opens a phase, with a (repeated) START and the address byte: it is
/// the first part, or its direction differs from that of the part before.
pub open spec fn opens_phase(ops: Seq<Transfer>, k: int) -> bool {
    k == 0 || is_read(ops[k - 1]) != is_read(ops[k])
}

/// The levels driven for the data of one part.
pub open spec fn data_drives(t: Transfer) -> Seq<PinEvent> {
    match t {
        Transfer::Write(b) => bytes_drives(b@),
        Transfer::Read(b) => receive_drives(b@.len() as int, b@.len() as int),
    }
}

/// The levels driven for part `k`: START and address when it opens a phase,
/// then its data.
pub open spec fn part_drives(address: u8, ops: Seq<Transfer>, k: int) -> Seq<PinEvent> {
    if opens_phase(ops, k) {
        start_drives() + write_byte_drives(address_byte(address, is_read(ops[k]))) + data_drives(
            ops[k],
        )
    } else {
        data_drives(ops[k])
    }
}

/// The levels driven to open part `k`: a START and the address byte when it
/// opens a phase, nothing otherwise.
pub open spec fn part_opening(address: u8, ops: Seq<Transfer>, k: int) -> Seq<PinEvent> {
    if opens_phase(ops, k) {
        start_drives() + write_byte_drives(address_byte(address, is_read(ops[k])))
    } else {
        Seq::empty()
    }
}

/// The bytes a part writes; none for a read.
pub open spec fn written_bytes(t: Transfer) -> Seq<u8> {
    match t {
        Transfer::Write(b) => b@,
        Transfer::Read(_) => Seq::empty(),
    }
}

/// The bytes part `k` writes.
pub open spec fn part_bytes(ops: Seq<Transfer>, k: int) -> Seq<u8> {
    written_bytes(ops[k])
}

/// The levels driven for the first `k` parts.
pub open spec fn transaction_drives(address: u8, ops: Seq<Transfer>, k: int) -> Seq<PinEvent>
    decreases k,
{
    if k <= 0 {
        Seq::empty()
    } else {
        transaction_drives(address, ops, k - 1) + part_drives(address, ops, k - 1)
    }
}

/// How many SDA samples a part takes: one acknowledge for its address, if it
/// sends one (`opened`), then one per byte written or eight per byte read.
pub open spec fn part_size(t: Transfer, opened: bool) -> int {
    (if opened {
        1int
    } else {
        0
    }) + match t {
        Transfer::Write(b) => b@.len() as int,
        Transfer::Read(b) => 8 * b@.len() as int,
    }
}

/// How many SDA samples part `k` takes.
pub open spec fn part_samples(ops: Seq<Transfer>, k: int) -> int {
    part_size(ops[k], opens_phase(ops, k))
}

/// How many SDA samples the first `k` parts take.
pub open spec fn samples_before(ops: Seq<Transfer>, k: int) -> int
    decreases k,
{
    if k <= 0 {
        0
    } else {
        samples_before(ops, k - 1) + part_samples(ops, k - 1)
    }
}

/// What a part sampled, from sample `at` on: an ACK for its address if it
/// sent one (`opened`), then an ACK for each byte written, or the bits of each
/// byte read, most significant first.
pub open spec fn part_sampled(t: Transfer, opened: bool, s: Seq<bool>, at: int) -> bool {
    let d = if opened {
        1int
    } else {
        0
    };
    &&& opened ==> s[at] == false
    &&& match t {
        Transfer::Write(b) => s.subrange(at + d, at + d + b@.len()) == acks(b@.len() as int),
        Transfer::Read(b) => forall|j: int|
            0 <= j < b@.len() ==> #[trigger] b@[j] == bits_value(
                s.subrange(at + d + 8 * j, at + d + 8 * j + 8),
            ),
    }
}

/// The samples taken by the first `j` parts are no more than those taken by
/// the first `k`, for `j <= k`.
pub proof fn lemma_samples_before_grow(ops: Seq<Transfer>, j: int, k: int)
    requires
        0 <= j <= k,
    ensures
        0 <= samples_before(ops, j) <= samples_before(ops, k),
    decreases k,
{
    if k > j {
        lemma_samples_before_grow(ops, j, k - 1);
    } else if k > 0 {
        lemma_samples_before_grow(ops, 0, k - 1);
    }
}

/// What a part sampled stays true of a longer record of samples.
pub proof fn lemma_part_sampled_kept(t: Transfer, opened: bool, s1: Seq<bool>, s2: Seq<bool>, at: int)
    requires
        part_sampled(t, opened, s1, at),
        0 <= at,
        at + part_size(t, opened) <= s1.len() <= s2.len(),
        s2.subrange(0, s1.len() as int) == s1,
    ensures
        part_sampled(t, opened, s2, at),
{
    let d = if opened {
        1int
    } else {
        0
    };
    if opened {
        assert(s2[at] == s1[at]);
    }
    match t {
        Transfer::Write(b) => {
            assert(s2.subrange(at + d, at + d + b@.len()) =~= s1.subrange(
                at + d,
                at + d + b@.len(),
            ));
        },
        Transfer::Read(b) => {
            assert forall|j: int| 0 <= j < b@.len() implies #[trigger] b@[j] == bits_value(
                s2.subrange(at + d + 8 * j, at + d + 8 * j + 8),
            ) by {
                assert(s2.subrange(at + d + 8 * j, at + d + 8 * j + 8) =~= s1.subrange(
                    at + d + 8 * j,
                    at + d + 8 * j + 8,
                ));
            }
        },
    }
}

/// Driving part `k` after the first `k` parts drives the first `k + 1`.
proof fn lemma_part_drives(
    address: u8,
    ops: Seq<Transfer>,
    k: int,
    d0: Seq<PinEvent>,
    before: Seq<PinEvent>,
    mid: Seq<PinEvent>,
    after: Seq<PinEvent>,
)
    requires
        0 <= k < ops.len(),
        before == d0 + transaction_drives(address, ops, k),
        mid == if opens_phase(ops, k) {
            before + start_drives() + write_byte_drives(address_byte(address, is_read(ops[k])))
        } else {
            before
        },
        after == mid + data_drives(ops[k]),
    ensures
        after == d0 + transaction_drives(address, ops, k + 1),
{
    assert(after =~= d0 + transaction_drives(address, ops, k + 1));
}

/// The levels for the first `k` parts are a prefix of those for the first `m`.
proof fn lemma_transaction_prefix(address: u8, ops: Seq<Transfer>, k: int, m: int)
    requires
        0 <= k <= m,
    ensures
        prefix_of(transaction_drives(address, ops, k), transaction_drives(address, ops, m)),
    decreases m,
{
    if k == m {
        lemma_prefix_self(transaction_drives(address, ops, m));
    } else {
        lemma_transaction_prefix(address, ops, k, m - 1);
        lemma_prefix_concat(transaction_drives(address, ops, m - 1), part_drives(address, ops, m - 1));
        lemma_prefix_trans(
            transaction_drives(address, ops, k),
            transaction_drives(address, ops, m - 1),
            transaction_drives(address, ops, m),
        );
    }
}

/// The START, the START and address, and the opening and data of part `k` are
/// each a prefix of what the part drives.
proof fn lemma_part_prefixes(address: u8, ops: Seq<Transfer>, k: int)
    ensures
        opens_phase(ops, k) ==> prefix_of(Seq::<PinEvent>::empty() + start_drives(), part_drives(address, ops, k)),
        opens_phase(ops, k) ==> prefix_of(
            start_drives() + write_byte_drives(address_byte(address, is_read(ops[k]))),
            part_drives(address, ops, k),
        ),
        part_opening(address, ops, k) + data_drives(ops[k]) == part_drives(address, ops, k),
{
    let p = part_drives(address, ops, k);
    if opens_phase(ops, k) {
        let sa = start_drives() + write_byte_drives(address_byte(address, is_read(ops[k])));
        assert(p.subrange(0, start_drives().len() as int) =~= Seq::<PinEvent>::empty() + start_drives());
        assert(p.subrange(0, sa.len() as int) =~= sa);
    }
    assert(part_opening(address, ops, k) + data_drives(ops[k]) =~= p);
}

/// Driving the first `k` parts and a prefix `x` of part `k` drives a prefix of
/// all the parts.
proof fn lemma_within_parts(address: u8, ops: Seq<Transfer>, k: int, d0: Seq<PinEvent>, x: Seq<PinEvent>)
    requires
        0 <= k < ops.len(),
        prefix_of(x, part_drives(address, ops, k)),
    ensures
        prefix_of(
            d0 + transaction_drives(address, ops, k) + x,
            d0 + transaction_drives(address, ops, ops.len() as int),
        ),
{
    let td = transaction_drives(address, ops, k);
    lemma_prefix_prepend(td, x, part_drives(address, ops, k));
    lemma_transaction_prefix(address, ops, k + 1, ops.len() as int);
    lemma_prefix_trans(td + x, transaction_drives(address, ops, k + 1), transaction_drives(address, ops, ops.len() as int));
    lemma_prefix_prepend(d0, td + x, transaction_drives(address, ops, ops.len() as int));
    assert(d0 + (td + x) =~= d0 + td + x);
}

/// A part that stopped on a clock that never rose, after `done` of it was
/// driven, leaves a prefix of what all the parts drive.
proof fn lemma_part_stopped(
    address: u8,
    ops: Seq<Transfer>,
    k: int,
    s0: Seq<PinEvent>,
    before: Seq<PinEvent>,
    s1: Seq<PinEvent>,
    done: Seq<PinEvent>,
    step: Seq<PinEvent>,
)
    requires
        0 <= k < ops.len(),
        drives(before) == drives(s0) + transaction_drives(address, ops, k) + done,
        clocked(before, s1, step, false),
        prefix_of(done + step, part_drives(address, ops, k)),
    ensures
        clocked(s0, s1, transaction_drives(address, ops, ops.len() as int), false),
{
    let td = transaction_drives(address, ops, k);
    let all = transaction_drives(address, ops, ops.len() as int);
    lemma_prefix_prepend(td, done + step, part_drives(address, ops, k));
    lemma_transaction_prefix(address, ops, k + 1, ops.len() as int);
    lemma_prefix_trans(td + (done + step), transaction_drives(address, ops, k + 1), all);
    assert(drives(before) =~= drives(s0) + (td + done));
    assert(td + (done + step) =~= (td + done) + step);
    lemma_stopped_inside(s0, before, s1, td + done, step, all);
}

/// What the first `k` parts sampled, and part `k` sampled after them, is what
/// the first `k + 1` parts sampled.
proof fn lemma_part_samples(
    ops: Seq<Transfer>,
    before_ops: Seq<Transfer>,
    after_ops: Seq<Transfer>,
    k: int,
    n: int,
    s0: Seq<bool>,
    before: Seq<bool>,
    mid: Seq<bool>,
    after: Seq<bool>,
)
    requires
        0 <= k < ops.len(),
        0 <= n,
        before_ops.len() == ops.len(),
        after_ops == before_ops.update(k, after_ops[k]),
        before_ops[k] == ops[k],
        forall|j: int| 0 <= j < ops.len() ==> same_shape(#[trigger] ops[j], before_ops[j]),
        before.len() == n + samples_before(ops, k),
        before.subrange(0, n) == s0,
        forall|j: int|
            0 <= j < k ==> part_sampled(
                #[trigger] before_ops[j],
                opens_phase(ops, j),
                before,
                n + samples_before(ops, j),
            ),
        mid == if opens_phase(ops, k) {
            before.push(false)
        } else {
            before
        },
        after.len() == mid.len() + part_size(ops[k], false),
        after.subrange(0, mid.len() as int) == mid,
        part_sampled(after_ops[k], false, after, mid.len() as int),
    ensures
        after.len() == n + samples_before(ops, k + 1),
        after.subrange(0, n) == s0,
        forall|j: int|
            0 <= j < k + 1 ==> part_sampled(
                #[trigger] after_ops[j],
                opens_phase(ops, j),
                after,
                n + samples_before(ops, j),
            ),
{
    lemma_samples_before_grow(ops, 0, k);
    let at = n + samples_before(ops, k);
    assert(after.subrange(0, before.len() as int) =~= before) by {
        assert(after.subrange(0, before.len() as int) =~= after.subrange(0, mid.len() as int).subrange(
            0,
            before.len() as int,
        ));
    }
    assert(after.subrange(0, n) =~= before.subrange(0, n));
    if opens_phase(ops, k) {
        assert(after[at] == mid[at]);
        match after_ops[k] {
            Transfer::Write(b) => {
                assert(after.subrange(at + 1, at + 1 + b@.len()) =~= after.subrange(
                    mid.len() as int,
                    mid.len() + b@.len() as int,
                ));
            },
            Transfer::Read(b) => {},
        }
    }
    assert(part_sampled(after_ops[k], opens_phase(ops, k), after, at));
    assert forall|j: int| 0 <= j < k + 1 implies part_sampled(
        #[trigger] after_ops[j],
        opens_phase(ops, j),
        after,
        n + samples_before(ops, j),
    ) by {
        if j < k {
            assert(same_shape(ops[j], before_ops[j]));
            assert(part_size(after_ops[j], opens_phase(ops, j)) == part_samples(ops, j));
            lemma_samples_before_grow(ops, j + 1, k);
            lemma_samples_before_grow(ops, 0, j);
            lemma_part_sampled_kept(
                after_ops[j],
                opens_phase(ops, j),
                before,
                after,
                n + samples_before(ops, j),
            );
        }
    }
}

/// The levels driven end with a complete STOP.
pub open spec fn ends_with_stop(d: Seq<PinEvent>) -> bool {
    &&& d.len() >= 3
    &&& d.subrange(d.len() - 3, d.len() as int) == stop_drives()
}

/// How a transfer leaves the pins: a complete STOP was the last thing
/// driven, or the record ends in a clock that never rose.
pub open spec fn left_stopped(events: Seq<PinEvent>) -> bool {
    ends_with_stop(drives(events)) || ends_in_timeout(events)
}

/// A STOP, complete or stopped by a stuck clock, leaves the pins stopped.
pub proof fn lemma_stop_leaves_stopped(s0: Seq<PinEvent>, s1: Seq<PinEvent>, completed: bool)
    requires
        clocked(s0, s1, stop_drives(), completed),
    ensures
        left_stopped(s1),
{
    if completed {
        let d = drives(s1);
        assert(d.subrange(d.len() - 3, d.len() as int) =~= stop_drives());
    }
}

/// The levels driven by a write transfer that stopped on a NACK: START, the
/// address, the first `sent` data bytes (none when the address was not
/// acknowledged), then STOP.
pub open spec fn nacked_write_drives(address: u8, bytes: Seq<u8>, sent: int) -> Seq<PinEvent> {
    start_drives() + write_byte_drives(address_byte(address, false)) + bytes_drives(
        bytes.subrange(0, sent),
    ) + stop_drives()
}

/// The levels a write-then-read transfer drives between its first START and
/// its STOP: the address for writing, `bytes`, a repeated START, the address
/// for reading, then `n` bytes clocked in.
pub open spec fn write_read_body(address: u8, bytes: Seq<u8>, n: int) -> Seq<PinEvent> {
    write_byte_drives(address_byte(address, false)) + bytes_drives(bytes) + start_drives()
        + write_byte_drives(address_byte(address, true)) + receive_drives(n, n)
}

/// What a transfer stopped early left on the pins: a prefix `p` of `total`
/// was driven, then the STOP, complete or cut short by a clock that never
/// rose.
pub open spec fn stopped_within(total: Seq<PinEvent>, after: Seq<PinEvent>) -> bool {
    exists|p: Seq<PinEvent>|
        #[trigger] prefix_of(p, total) && (drives(after) == p + stop_drives() || (ends_in_timeout(
            after,
        ) && prefix_of(drives(after), p + stop_drives())))
}

/// `a` is a prefix of `b`.
pub open spec fn prefix_of<T>(a: Seq<T>, b: Seq<T>) -> bool {
    &&& a.len() <= b.len()
    &&& b.subrange(0, a.len() as int) == a
}

/// An operation that drives `full` when it completes, and stops at the first
/// clock that does not rise: on success all of `full` was driven; on a bus
/// error a prefix of it was, and the record ends in a timeout.
pub open spec fn clocked(
    s0: Seq<PinEvent>,
    s1: Seq<PinEvent>,
    full: Seq<PinEvent>,
    completed: bool,
) -> bool {
    if completed {
        drives(s1) == drives(s0) + full
    } else {
        &&& ends_in_timeout(s1)
        &&& prefix_of(drives(s1), drives(s0) + full)
    }
}

/// Driving the first `k` levels of `full` leaves a prefix of driving all of it.
pub proof fn lemma_prefix_take<T>(a: Seq<T>, full: Seq<T>, k: int)
    requires
        0 <= k <= full.len(),
    ensures
        prefix_of(a + full.subrange(0, k), a + full),
{
    assert((a + full).subrange(0, (a + full.subrange(0, k)).len() as int) =~= a + full.subrange(0, k));
}

/// Prefixes compose.
pub proof fn lemma_prefix_trans<T>(a: Seq<T>, b: Seq<T>, c: Seq<T>)
    requires
        prefix_of(a, b),
        prefix_of(b, c),
    ensures
        prefix_of(a, c),
{
    assert(c.subrange(0, a.len() as int) =~= b.subrange(0, a.len() as int));
}

/// A prefix stays a prefix when the same sequence is put in front.
pub proof fn lemma_prefix_prepend<T>(p: Seq<T>, a: Seq<T>, b: Seq<T>)
    requires
        prefix_of(a, b),
    ensures
        prefix_of(p + a, p + b),
{
    assert((p + b).subrange(0, (p + a).len() as int) =~= p + a);
}

/// The levels for `k` bits are three per bit, and those for fewer bits are a
/// prefix of those for more.
pub proof fn lemma_byte_bits(byte: u8, j: int, m: int)
    requires
        0 <= j <= m,
    ensures
        byte_bits_drives(byte, m).len() == 3 * m,
        prefix_of(byte_bits_drives(byte, j), byte_bits_drives(byte, m)),
    decreases m,
{
    let cur = byte_bits_drives(byte, m);
    if m > 0 {
        lemma_byte_bits(byte, if j < m { j } else { m - 1 }, m - 1);
        let prev = byte_bits_drives(byte, m - 1);
        assert(cur.subrange(0, prev.len() as int) =~= prev);
        if j < m {
            lemma_prefix_trans(byte_bits_drives(byte, j), prev, cur);
        }
    }
    if j == m {
        assert(cur.subrange(0, cur.len() as int) =~= cur);
    }
}

/// The same for bits clocked in.
pub proof fn lemma_read_bits(j: int, m: int)
    requires
        0 <= j <= m,
    ensures
        read_bits_drives(m).len() == 3 * m,
        prefix_of(read_bits_drives(j), read_bits_drives(m)),
    decreases m,
{
    let cur = read_bits_drives(m);
    if m > 0 {
        lemma_read_bits(if j < m { j } else { m - 1 }, m - 1);
        let prev = read_bits_drives(m - 1);
        assert(cur.subrange(0, prev.len() as int) =~= prev);
        if j < m {
            lemma_prefix_trans(read_bits_drives(j), prev, cur);
        }
    }
    if j == m {
        assert(cur.subrange(0, cur.len() as int) =~= cur);
    }
}

/// The same for recovery clock pulses.
pub proof fn lemma_recovery_pulses(j: int, m: int)
    requires
        0 <= j <= m,
    ensures
        recovery_pulses(m).len() == 2 * m,
        prefix_of(recovery_pulses(j), recovery_pulses(m)),
    decreases m,
{
    let cur = recovery_pulses(m);
    if m > 0 {
        lemma_recovery_pulses(if j < m { j } else { m - 1 }, m - 1);
        let prev = recovery_pulses(m - 1);
        assert(cur.subrange(0, prev.len() as int) =~= prev);
        if j < m {
            lemma_prefix_trans(recovery_pulses(j), prev, cur);
        }
    }
    if j == m {
        assert(cur.subrange(0, cur.len() as int) =~= cur);
    }
}

/// A sequence is a prefix of itself followed by anything.
pub proof fn lemma_prefix_concat<T>(a: Seq<T>, b: Seq<T>)
    ensures
        prefix_of(a, a + b),
{
    assert((a + b).subrange(0, a.len() as int) =~= a);
}

/// A step that stopped on a timeout inside the part `step` of an operation,
/// after `done` of it had been driven, leaves a prefix of the whole operation.
pub proof fn lemma_stopped_inside(
    s0: Seq<PinEvent>,
    before: Seq<PinEvent>,
    s1: Seq<PinEvent>,
    done: Seq<PinEvent>,
    step: Seq<PinEvent>,
    full: Seq<PinEvent>,
)
    requires
        drives(before) == drives(s0) + done,
        clocked(before, s1, step, false),
        prefix_of(done + step, full),
    ensures
        clocked(s0, s1, full, false),
{
    assert(drives(before) + step =~= drives(s0) + (done + step));
    lemma_prefix_prepend(drives(s0), done + step, full);
    lemma_prefix_trans(drives(s1), drives(s0) + (done + step), drives(s0) + full);
}


/// The SDA level last driven in `d`; released (high) if none was.
pub open spec fn sda_level(d: Seq<PinEvent>) -> bool
    decreases d.len(),
{
    if d.len() == 0 {
        true
    } else {
        match d.last() {
            PinEvent::Sda(v) => v,
            _ => sda_level(d.drop_last()),
        }
    }
}

/// The SDA level at each release of SCL in `d`: the bits a slave clocks in.
pub open spec fn clocked_bits(d: Seq<PinEvent>) -> Seq<bool>
    decreases d.len(),
{
    if d.len() == 0 {
        Seq::empty()
    } else if d.last() == PinEvent::Scl(true) {
        clocked_bits(d.drop_last()).push(sda_level(d.drop_last()))
    } else {
        clocked_bits(d.drop_last())
    }
}

/// Clocking one bit out adds exactly that bit to what a slave clocks in.
proof fn lemma_clocked_bit(a: Seq<PinEvent>, b: bool)
    ensures
        clocked_bits(a + bit_drives(b)) == clocked_bits(a).push(b),
{
    let a1 = a.push(PinEvent::Sda(b));
    let a2 = a1.push(PinEvent::Scl(true));
    let a3 = a2.push(PinEvent::Scl(false));
    assert(a + bit_drives(b) =~= a3);
    assert(a3.drop_last() =~= a2);
    assert(a2.drop_last() =~= a1);
    assert(a1.drop_last() =~= a);
    assert(clocked_bits(a1) == clocked_bits(a));
    assert(sda_level(a1) == b);
    assert(clocked_bits(a2) == clocked_bits(a1).push(b));
    assert(clocked_bits(a3) == clocked_bits(a2));
}

/// The bits a slave clocks in while the first `k` bits of `byte` go out are
/// the top `k` bits of `byte`, most significant first.
proof fn lemma_byte_bits_clocked(byte: u8, k: int)
    requires
        0 <= k <= 8,
    ensures
        clocked_bits(byte_bits_drives(byte, k)).len() == k,
        bits_value(clocked_bits(byte_bits_drives(byte, k))) == (byte >> ((8 - k) as u8)) as int,
    decreases k,
{
    if k == 0 {
        assert((byte >> 8u8) == 0) by (bit_vector);
    } else {
        lemma_byte_bits_clocked(byte, k - 1);
        lemma_clocked_bit(byte_bits_drives(byte, k - 1), bit_of(byte, 8 - k));
        let bits = clocked_bits(byte_bits_drives(byte, k));
        assert(bits.drop_last() =~= clocked_bits(byte_bits_drives(byte, k - 1)));
        let j = (8 - k) as u8;
        assert(j < 8);
        assert(((8 - (k - 1)) as u8) == ((j + 1) as u8));
        assert((byte >> j) == 2 * (byte >> ((j + 1) as u8)) + ((byte >> j) & 1)) by (bit_vector)
            requires
                j < 8,
        ;
        assert(((byte >> j) & 1 == 1) == bit_of(byte, 8 - k));
        assert((byte >> j) & 1 == 1 || (byte >> j) & 1 == 0) by (bit_vector);
        assert(bits.last() == bit_of(byte, 8 - k));
    }
}

/// A byte written by `write_byte` is what a slave reads off the bus: the SDA
/// levels at the eight data clocks, most significant first, make up the byte,
/// and SDA is released for the acknowledge clock.
pub proof fn lemma_written_byte_is_clocked_in(byte: u8)
    ensures
        clocked_bits(write_byte_drives(byte)).len() == 9,
        bits_value(clocked_bits(write_byte_drives(byte)).take(8)) == byte as int,
        clocked_bits(write_byte_drives(byte))[8],
{
    lemma_byte_bits_clocked(byte, 8);
    lemma_clocked_bit(byte_bits_drives(byte, 8), true);
    assert((byte >> 0u8) == byte) by (bit_vector);
    let all = clocked_bits(write_byte_drives(byte));
    assert(all.take(8) =~= clocked_bits(byte_bits_drives(byte, 8)));
}

/// Appending one event extends each projection by that event, if it belongs
/// to it.
pub proof fn lemma_push(s: Seq<PinEvent>, e: PinEvent)
    ensures
        drives(s.push(e)) == match e {
            PinEvent::Scl(_) | PinEvent::Sda(_) => drives(s).push(e),
            _ => drives(s),
        },
        sda_samples(s.push(e)) == match e {
            PinEvent::SdaSample(v) => sda_samples(s).push(v),
            _ => sda_samples(s),
        },
        scl_samples(s.push(e)) == match e {
            PinEvent::SclSample(v) => scl_samples(s).push(v),
            _ => scl_samples(s),
        },
{
    assert(s.push(e).drop_last() =~= s);
}

/// A STOP after a prefix of `total` was driven leaves the transfer stopped
/// within `total`.
proof fn lemma_stop_within(s2: Seq<PinEvent>, fin: Seq<PinEvent>, total: Seq<PinEvent>, ok: bool)
    requires
        prefix_of(drives(s2), total),
        clocked(s2, fin, stop_drives(), ok),
    ensures
        stopped_within(total, fin),
{
    let p = drives(s2);
    assert(prefix_of(p, total));
}

/// A START that found the clock stuck leaves any transfer it began stopped
/// within that transfer.
proof fn lemma_start_failed_within(s0: Seq<PinEvent>, s1: Seq<PinEvent>, body: Seq<PinEvent>)
    requires
        clocked(s0, s1, start_drives(), false),
    ensures
        stopped_within(drives(s0) + (start_drives() + body), s1),
{
    let p = drives(s1);
    lemma_prefix_concat(drives(s0) + start_drives(), body);
    assert(drives(s0) + start_drives() + body =~= drives(s0) + (start_drives() + body));
    lemma_prefix_trans(p, drives(s0) + start_drives(), drives(s0) + (start_drives() + body));
    lemma_prefix_concat(p, stop_drives());
}

/// The levels for the first `k` bytes are a prefix of those for all.
proof fn lemma_bytes_drives_prefix(s: Seq<u8>, k: int)
    requires
        0 <= k <= s.len(),
    ensures
        prefix_of(bytes_drives(s.subrange(0, k)), bytes_drives(s)),
    decreases s.len(),
{
    if k == s.len() {
        assert(s.subrange(0, k) =~= s);
        assert(bytes_drives(s).subrange(0, bytes_drives(s).len() as int) =~= bytes_drives(s));
    } else {
        let p = s.drop_last();
        lemma_bytes_drives_prefix(p, k);
        assert(p.subrange(0, k) =~= s.subrange(0, k));
        lemma_prefix_concat(bytes_drives(p), write_byte_drives(s.last()));
        lemma_prefix_trans(bytes_drives(s.subrange(0, k)), bytes_drives(p), bytes_drives(s));
    }
}

/// The levels for the first `k` bytes read are a prefix of those for `m`.
proof fn lemma_receive_prefix(k: int, m: int, total: int)
    requires
        0 <= k <= m,
    ensures
        prefix_of(receive_drives(k, total), receive_drives(m, total)),
    decreases m,
{
    if k == m {
        let d = receive_drives(m, total);
        assert(d.subrange(0, d.len() as int) =~= d);
    } else {
        lemma_receive_prefix(k, m - 1, total);
        lemma_prefix_concat(receive_drives(m - 1, total), read_byte_drives(m - 1 < total - 1));
        lemma_prefix_trans(receive_drives(k, total), receive_drives(m - 1, total), receive_drives(m, total));
    }
}

/// A sequence is a prefix of itself.
proof fn lemma_prefix_self<T>(x: Seq<T>)
    ensures
        prefix_of(x, x),
{
    assert(x.subrange(0, x.len() as int) =~= x);
}

/// A bit-banged I2C master on an SCL and an SDA pin.
pub struct BitbangCore<Scl, Sda> {
    scl: Scl,
    sda: Sda,
    events: Ghost<Seq<PinEvent>>,
    timeouts: Ghost<nat>,
}

/// A short busy wait between edges; the protocol is clocked by the master, so
/// its length is not critical.
#[verifier::external_body]
fn spin() {
    core::hint::spin_loop()
}

impl<Scl: OpenDrainPin, Sda: OpenDrainPin> BitbangCore<Scl, Sda> {
    /// Everything done to the pins so far, oldest first.
    pub closed spec fn events(&self) -> Seq<PinEvent> {
        self.events@
    }

    /// How many waits for SCL to rise have timed out so far.
    pub closed spec fn timeouts(&self) -> nat {
        self.timeouts@
    }

    /// The SCL and SDA pins.
    pub closed spec fn pins(&self) -> (Scl, Sda) {
        (self.scl, self.sda)
    }

    /// A master on the two pins; nothing is driven yet.
    pub fn new(scl: Scl, sda: Sda) -> (m: Self)
        ensures
            m.events() == Seq::<PinEvent>::empty(),
            m.pins() == (scl, sda),
            m.timeouts() == 0,
    {
        BitbangCore { scl, sda, events: Ghost(Seq::empty()), timeouts: Ghost(0) }
    }

    /// Gives the two pins back.
    pub fn release(self) -> (pins: (Scl, Sda))
        ensures
            pins == self.pins(),
    {
        (self.scl, self.sda)
    }

    fn set_scl(&mut self, high: bool)
        ensures
            final(self).timeouts() == old(self).timeouts(),
            final(self).events() == old(self).events().push(PinEvent::Scl(high)),
            drives(final(self).events()) == drives(old(self).events()).push(PinEvent::Scl(high)),
            sda_samples(final(self).events()) == sda_samples(old(self).events()),
            scl_samples(final(self).events()) == scl_samples(old(self).events()),
    {
        proof {
            lemma_push(self.events(), PinEvent::Scl(high));
        }
        if high {
            self.scl.set_high();
        } else {
            self.scl.set_low();
        }
        proof {
            self.events@ = self.events@.push(PinEvent::Scl(high));
        }
    }

    fn set_sda(&mut self, high: bool)
        ensures
            final(self).timeouts() == old(self).timeouts(),
            final(self).events() == old(self).events().push(PinEvent::Sda(high)),
            drives(final(self).events()) == drives(old(self).events()).push(PinEvent::Sda(high)),
            sda_samples(final(self).events()) == sda_samples(old(self).events()),
            scl_samples(final(self).events()) == scl_samples(old(self).events()),
    {
        proof {
            lemma_push(self.events(), PinEvent::Sda(high));
        }
        if high {
            self.sda.set_high();
        } else {
            self.sda.set_low();
        }
        proof {
            self.events@ = self.events@.push(PinEvent::Sda(high));
        }
    }

    fn sample_sda(&mut self) -> (v: bool)
        ensures
            final(self).timeouts() == old(self).timeouts(),
            final(self).events() == old(self).events().push(PinEvent::SdaSample(v)),
            drives(final(self).events()) == drives(old(self).events()),
            sda_samples(final(self).events()) == sda_samples(old(self).events()).push(v),
            scl_samples(final(self).events()) == scl_samples(old(self).events()),
    {
        let v = self.sda.is_high();
        proof {
            lemma_push(self.events(), PinEvent::SdaSample(v));
            self.events@ = self.events@.push(PinEvent::SdaSample(v));
        }
        v
    }

    fn sample_scl(&mut self) -> (v: bool)
        ensures
            final(self).timeouts() == old(self).timeouts(),
            final(self).events() == old(self).events().push(PinEvent::SclSample(v)),
            drives(final(self).events()) == drives(old(self).events()),
            sda_samples(final(self).events()) == sda_samples(old(self).events()),
            scl_samples(final(self).events()) == scl_samples(old(self).events()).push(v),
    {
        let v = self.scl.is_high();
        proof {
            lemma_push(self.events(), PinEvent::SclSample(v));
            self.events@ = self.events@.push(PinEvent::SclSample(v));
        }
        v
    }

    /// A START for the address probe, with millisecond pauses and no wait for
    /// the clock.
    fn probe_start<D: DelayMs>(&mut self, delay: &D)
        ensures
            final(self).timeouts() == old(self).timeouts(),
            drives(final(self).events()) == drives(old(self).events()) + start_drives(),
            sda_samples(final(self).events()) == sda_samples(old(self).events()),
            scl_samples(final(self).events()) == scl_samples(old(self).events()),
    {
        let ghost s0 = self.events();
        self.set_sda(true);
        self.set_scl(true);
        delay.delay_millis(1);
        self.set_sda(false);
        delay.delay_millis(1);
        self.set_scl(false);
        delay.delay_millis(1);
        assert(drives(self.events()) =~= drives(s0) + start_drives());
    }

    /// A STOP for the address probe.
    fn probe_stop<D: DelayMs>(&mut self, delay: &D)
        ensures
            final(self).timeouts() == old(self).timeouts(),
            drives(final(self).events()) == drives(old(self).events()) + stop_drives(),
            sda_samples(final(self).events()) == sda_samples(old(self).events()),
            scl_samples(final(self).events()) == scl_samples(old(self).events()),
    {
        let ghost s0 = self.events();
        self.set_sda(false);
        delay.delay_millis(1);
        self.set_scl(true);
        delay.delay_millis(1);
        self.set_sda(true);
        delay.delay_millis(1);
        assert(drives(self.events()) =~= drives(s0) + stop_drives());
    }

    /// One bit clocked out for the address probe.
    fn probe_write_bit<D: DelayMs>(&mut self, delay: &D, bit: bool)
        ensures
            final(self).timeouts() == old(self).timeouts(),
            drives(final(self).events()) == drives(old(self).events()) + bit_drives(bit),
            sda_samples(final(self).events()) == sda_samples(old(self).events()),
            scl_samples(final(self).events()) == scl_samples(old(self).events()),
    {
        let ghost s0 = self.events();
        self.set_sda(bit);
        delay.delay_millis(1);
        self.set_scl(true);
        delay.delay_millis(1);
        self.set_scl(false);
        delay.delay_millis(1);
        assert(drives(self.events()) =~= drives(s0) + bit_drives(bit));
    }

    /// `byte` clocked out most significant bit first for the address probe,
    /// then the acknowledge clocked in: acknowledged when SDA reads low.
    fn probe_write_byte<D: DelayMs>(&mut self, delay: &D, byte: u8) -> (ack: bool)
        ensures
            final(self).timeouts() == old(self).timeouts(),
            drives(final(self).events()) == drives(old(self).events()) + write_byte_drives(byte),
            sda_samples(final(self).events()) == sda_samples(old(self).events()).push(!ack),
            scl_samples(final(self).events()) == scl_samples(old(self).events()),
    {
        let ghost s0 = self.events();
        let mut i: u8 = 8;
        while i > 0
            invariant
                self.timeouts() == old(self).timeouts(),
                s0 == old(self).events(),
                i <= 8,
                drives(self.events()) == drives(s0) + byte_bits_drives(byte, 8 - i),
                sda_samples(self.events()) == sda_samples(s0),
                scl_samples(self.events()) == scl_samples(s0),
            decreases i,
        {
            i = i - 1;
            let bit = byte & (1u8 << i) != 0;
            assert(bit == ((byte >> i) & 1 == 1)) by (bit_vector)
                requires
                    i < 8,
                    bit == (byte & (1u8 << i) != 0),
            ;
            assert(bit == bit_of(byte, i as int));
            self.probe_write_bit(delay, bit);
            assert(drives(self.events()) =~= drives(s0) + byte_bits_drives(byte, 8 - i));
        }
        self.set_sda(true);
        delay.delay_millis(1);
        self.set_scl(true);
        delay.delay_millis(1);
        let high = self.sample_sda();
        self.set_scl(false);
        delay.delay_millis(1);
        assert(drives(self.events()) =~= drives(s0) + write_byte_drives(byte));
        !high
    }

    /// Probes for a device without the clock-stretching waits of a transfer:
    /// releases both lines, samples their idle levels (SCL first), then sends a
    /// START, `address_write_byte` and a STOP, with millisecond pauses.
    pub fn probe_address<D: DelayMs>(&mut self, delay: &D, address_write_byte: u8) -> (p:
        AddressProbe)
        ensures
            final(self).timeouts() == old(self).timeouts(),
            drives(final(self).events()) == drives(old(self).events()) + seq![
                PinEvent::Scl(true),
                PinEvent::Sda(true),
            ] + start_drives() + write_byte_drives(address_write_byte) + stop_drives(),
            scl_samples(final(self).events()) == scl_samples(old(self).events()).push(
                p.scl_idle_high,
            ),
            sda_samples(final(self).events()) == sda_samples(old(self).events()) + seq![
                p.sda_idle_high,
                !p.ack,
            ],
    {
        let ghost s0 = self.events();
        self.set_scl(true);
        self.set_sda(true);
        delay.delay_millis(1);
        let scl_idle_high = self.sample_scl();
        let sda_idle_high = self.sample_sda();
        self.probe_start(delay);
        let ack = self.probe_write_byte(delay, address_write_byte);
        self.probe_stop(delay);
        assert(drives(self.events()) =~= drives(s0) + seq![PinEvent::Scl(true), PinEvent::Sda(true)]
            + start_drives() + write_byte_drives(address_write_byte) + stop_drives());
        assert(sda_samples(self.events()) =~= sda_samples(s0) + seq![sda_idle_high, !ack]);
        AddressProbe { ack, scl_idle_high, sda_idle_high }
    }

    /// Half-period busy wait.
    fn delay(&self) {
        let mut i: u32 = 0;
        while i < 800
            decreases 800 - i,
        {
            spin();
            i = i + 1;
        }
    }

    /// Samples SCL until it reads high, at most `SCL_RELEASE_TIMEOUT` times.
    /// Only clock samples are added; a bus error means every one read low.
    pub fn wait_scl_high(&mut self) -> (r: Result<(), Error>)
        ensures
            final(self).timeouts() == old(self).timeouts() + if r matches Err(Error::Bus) {
                1int
            } else {
                0int
            },
            drives(final(self).events()) == drives(old(self).events()),
            sda_samples(final(self).events()) == sda_samples(old(self).events()),
            r is Err ==> r == Err::<(), Error>(Error::Bus) && ends_in_timeout(final(self).events()),
            r is Ok ==> exists|n: nat|
                n < SCL_RELEASE_TIMEOUT && final(self).events() == old(self).events() + #[trigger] scl_wait(
                    n,
                    true,
                ),
            r is Err ==> final(self).events() == old(self).events() + scl_wait(
                SCL_RELEASE_TIMEOUT as nat,
                false,
            ),
    {
        let ghost s0 = self.events();
        let mut n: u16 = 0;
        while n < SCL_RELEASE_TIMEOUT
            invariant
                self.timeouts() == old(self).timeouts(),
                s0 == old(self).events(),
                n <= SCL_RELEASE_TIMEOUT,
                self.events().len() == s0.len() + n,
                self.events().subrange(0, s0.len() as int) == s0,
                forall|i: int|
                    s0.len() <= i < self.events().len() ==> #[trigger] self.events()[i]
                        == PinEvent::SclSample(false),
                drives(self.events()) == drives(s0),
                sda_samples(self.events()) == sda_samples(s0),
            decreases SCL_RELEASE_TIMEOUT - n,
        {
            let ghost before = self.events();
            let high = self.sample_scl();
            proof {
                lemma_push(before, PinEvent::SclSample(high));
            }
            if high {
                proof {
                    assert(before =~= s0 + scl_wait(n as nat, false));
                    assert(self.events() =~= s0 + scl_wait(n as nat, true));
                }
                return Ok(());
            }
            n = n + 1;
            proof {
                assert(self.events().subrange(0, s0.len() as int) =~= s0);
            }
        }
        assert(self.events() =~= s0 + scl_wait(SCL_RELEASE_TIMEOUT as nat, false));
        proof {
            self.timeouts@ = self.timeouts@ + 1;
        }
        Err(Error::Bus)
    }

    /// Releases both lines and waits for SCL to rise.
    pub fn release_bus(&mut self) -> (r: Result<(), Error>)
        ensures
            final(self).timeouts() == old(self).timeouts() + if r matches Err(Error::Bus) {
                1int
            } else {
                0int
            },
            drives(final(self).events()) == drives(old(self).events()) + seq![
                PinEvent::Sda(true),
                PinEvent::Scl(true),
            ],
            sda_samples(final(self).events()) == sda_samples(old(self).events()),
            r is Err ==> r == Err::<(), Error>(Error::Bus) && ends_in_timeout(final(self).events()),
    {
        let ghost s0 = self.events();
        self.set_sda(true);
        self.set_scl(true);
        assert(drives(self.events()) =~= drives(s0) + seq![PinEvent::Sda(true), PinEvent::Scl(true)]);
        self.wait_scl_high()
    }

    /// Releases SCL and waits for it to rise.
    fn clock_high(&mut self) -> (r: Result<(), Error>)
        ensures
            final(self).timeouts() == old(self).timeouts() + if r matches Err(Error::Bus) {
                1int
            } else {
                0int
            },
            drives(final(self).events()) == drives(old(self).events()).push(PinEvent::Scl(true)),
            sda_samples(final(self).events()) == sda_samples(old(self).events()),
            r is Err ==> r == Err::<(), Error>(Error::Bus) && ends_in_timeout(final(self).events()),
    {
        self.set_scl(true);
        self.wait_scl_high()
    }

    /// A START (or repeated START): SDA falls while SCL is high, then SCL is
    /// driven low.
    pub fn start(&mut self) -> (r: Result<(), Error>)
        ensures
            final(self).timeouts() == old(self).timeouts() + if r matches Err(Error::Bus) {
                1int
            } else {
                0int
            },
            clocked(old(self).events(), final(self).events(), start_drives(), r is Ok),
            sda_samples(final(self).events()) == sda_samples(old(self).events()),
            r is Err ==> r == Err::<(), Error>(Error::Bus),
    {
        let ghost s0 = self.events();
        self.set_sda(true);
        self.delay();
        let c = self.clock_high();
        if c.is_err() {
            assert(drives(self.events()) =~= drives(s0) + start_drives().subrange(0, 2));
            proof {
                lemma_prefix_take(drives(s0), start_drives(), 2);
            }
            return c;
        }
        self.delay();
        self.set_sda(false);
        self.delay();
        self.set_scl(false);
        self.delay();
        assert(drives(self.events()) =~= drives(s0) + start_drives());
        Ok(())
    }

    /// A STOP: SDA rises while SCL is high.
    pub fn stop(&mut self) -> (r: Result<(), Error>)
        ensures
            final(self).timeouts() == old(self).timeouts() + if r matches Err(Error::Bus) {
                1int
            } else {
                0int
            },
            clocked(old(self).events(), final(self).events(), stop_drives(), r is Ok),
            sda_samples(final(self).events()) == sda_samples(old(self).events()),
            r is Err ==> r == Err::<(), Error>(Error::Bus),
    {
        let ghost s0 = self.events();
        self.set_sda(false);
        self.delay();
        let c = self.clock_high();
        if c.is_err() {
            assert(drives(self.events()) =~= drives(s0) + stop_drives().subrange(0, 2));
            proof {
                lemma_prefix_take(drives(s0), stop_drives(), 2);
            }
            return c;
        }
        self.delay();
        self.set_sda(true);
        self.delay();
        assert(drives(self.events()) =~= drives(s0) + stop_drives());
        Ok(())
    }

    /// Clocks one bit out; SCL is low before and after.
    pub fn write_bit(&mut self, bit: bool) -> (r: Result<(), Error>)
        ensures
            final(self).timeouts() == old(self).timeouts() + if r matches Err(Error::Bus) {
                1int
            } else {
                0int
            },
            clocked(old(self).events(), final(self).events(), bit_drives(bit), r is Ok),
            sda_samples(final(self).events()) == sda_samples(old(self).events()),
            r is Err ==> r == Err::<(), Error>(Error::Bus),
    {
        let ghost s0 = self.events();
        self.set_sda(bit);
        self.delay();
        let c = self.clock_high();
        if c.is_err() {
            assert(drives(self.events()) =~= drives(s0) + bit_drives(bit).subrange(0, 2));
            proof {
                lemma_prefix_take(drives(s0), bit_drives(bit), 2);
            }
            return c;
        }
        self.delay();
        self.set_scl(false);
        self.delay();
        assert(drives(self.events()) =~= drives(s0) + bit_drives(bit));
        Ok(())
    }

    /// Clocks one bit in, sampling SDA while SCL is high; SCL is low before
    /// and after.
    pub fn read_bit(&mut self) -> (r: Result<bool, Error>)
        ensures
            final(self).timeouts() == old(self).timeouts() + if r matches Err(Error::Bus) {
                1int
            } else {
                0int
            },
            clocked(old(self).events(), final(self).events(), bit_drives(true), r is Ok),
            match r {
                Ok(v) => sda_samples(final(self).events()) == sda_samples(old(self).events()).push(v),
                Err(e) => e == Error::Bus && sda_samples(final(self).events()) == sda_samples(
                    old(self).events(),
                ),
            },
    {
        let ghost s0 = self.events();
        self.set_sda(true);
        self.delay();
        let c = self.clock_high();
        if c.is_err() {
            assert(drives(self.events()) =~= drives(s0) + bit_drives(true).subrange(0, 2));
            proof {
                lemma_prefix_take(drives(s0), bit_drives(true), 2);
            }
            return Err(Error::Bus);
        }
        self.delay();
        let bit = self.sample_sda();
        self.set_scl(false);
        self.delay();
        assert(drives(self.events()) =~= drives(s0) + bit_drives(true));
        Ok(bit)
    }

    /// Clocks `byte` out most significant bit first, then releases SDA and
    /// clocks in the acknowledge bit: a low SDA (ACK) succeeds, a high one
    /// (NACK) gives `nack_error`.
    pub fn write_byte(&mut self, byte: u8, nack_error: Error) -> (r: Result<(), Error>)
        ensures
            match r {
                Ok(()) => {
                    &&& final(self).timeouts() == old(self).timeouts()
                    &&& drives(final(self).events()) == drives(old(self).events())
                        + write_byte_drives(byte)
                    &&& sda_samples(final(self).events()) == sda_samples(old(self).events()).push(
                        false,
                    )
                },
                Err(e) => {
                    ||| {
                        &&& e == nack_error
                        &&& final(self).timeouts() == old(self).timeouts()
                        &&& drives(final(self).events()) == drives(old(self).events())
                            + write_byte_drives(byte)
                        &&& sda_samples(final(self).events()) == sda_samples(
                            old(self).events(),
                        ).push(true)
                    }
                    ||| {
                        &&& e == Error::Bus
                        &&& final(self).timeouts() == old(self).timeouts() + 1
                        &&& clocked(
                            old(self).events(),
                            final(self).events(),
                            write_byte_drives(byte),
                            false,
                        )
                    }
                },
            },
    {
        let ghost s0 = self.events();
        let mut i: u8 = 8;
        while i > 0
            invariant
                self.timeouts() == old(self).timeouts(),
                s0 == old(self).events(),
                i <= 8,
                drives(self.events()) == drives(s0) + byte_bits_drives(byte, 8 - i),
                sda_samples(self.events()) == sda_samples(s0),
            decreases i,
        {
            i = i - 1;
            let bit = byte & (1u8 << i) != 0;
            assert(bit == ((byte >> i) & 1 == 1)) by (bit_vector)
                requires
                    i < 8,
                    bit == (byte & (1u8 << i) != 0),
            ;
            assert(bit == bit_of(byte, i as int));
            let ghost before = self.events();
            let w = self.write_bit(bit);
            if w.is_err() {
                proof {
                    lemma_byte_bits(byte, 8 - i, 8);
                    lemma_prefix_concat(byte_bits_drives(byte, 8), bit_drives(true));
                    assert(byte_bits_drives(byte, 8 - i - 1) + bit_drives(bit) =~= byte_bits_drives(
                        byte,
                        8 - i,
                    ));
                    lemma_prefix_trans(
                        byte_bits_drives(byte, 8 - i),
                        byte_bits_drives(byte, 8),
                        write_byte_drives(byte),
                    );
                    lemma_stopped_inside(
                        s0,
                        before,
                        self.events(),
                        byte_bits_drives(byte, 8 - i - 1),
                        bit_drives(bit),
                        write_byte_drives(byte),
                    );
                }
                return Err(Error::Bus);
            }
            assert(drives(self.events()) =~= drives(s0) + byte_bits_drives(byte, 8 - i));
        }
        let ghost done = self.events();
        self.set_sda(true);
        self.delay();
        let c = self.clock_high();
        if c.is_err() {
            proof {
                assert(drives(self.events()) =~= drives(s0) + (byte_bits_drives(byte, 8)
                    + bit_drives(true).subrange(0, 2)));
                lemma_prefix_take(byte_bits_drives(byte, 8), bit_drives(true), 2);
                lemma_prefix_prepend(
                    drives(s0),
                    byte_bits_drives(byte, 8) + bit_drives(true).subrange(0, 2),
                    write_byte_drives(byte),
                );
            }
            return Err(Error::Bus);
        }
        self.delay();
        let high = self.sample_sda();
        self.set_scl(false);
        self.delay();
        assert(drives(self.events()) =~= drives(s0) + write_byte_drives(byte));
        if !high {
            Ok(())
        } else {
            Err(nack_error)
        }
    }

    /// Clocks a byte in, most significant bit first, then answers ACK when
    /// `send_ack` (SDA low) or NACK (SDA released).
    pub fn read_byte(&mut self, send_ack: bool) -> (r: Result<u8, Error>)
        ensures
            final(self).timeouts() == old(self).timeouts() + if r matches Err(Error::Bus) {
                1int
            } else {
                0int
            },
            clocked(old(self).events(), final(self).events(), read_byte_drives(send_ack), r is Ok),
            match r {
                Ok(v) => {
                    let n = sda_samples(old(self).events()).len() as int;
                    &&& sda_samples(final(self).events()).len() == n + 8
                    &&& sda_samples(final(self).events()).subrange(0, n) == sda_samples(
                        old(self).events(),
                    )
                    &&& v == bits_value(sda_samples(final(self).events()).subrange(n as int, n + 8int))
                },
                Err(e) => e == Error::Bus,
            },
    {
        let ghost s0 = self.events();
        let ghost n: int = sda_samples(s0).len() as int;
        let mut byte: u8 = 0;
        let mut k: u8 = 0;
        assert(byte < (1u16 << k)) by (bit_vector)
            requires
                byte == 0,
                k == 0,
        ;
        assert(sda_samples(self.events()).subrange(0, n) =~= sda_samples(s0));
        while k < 8
            invariant
                self.timeouts() == old(self).timeouts(),
                s0 == old(self).events(),
                n == sda_samples(s0).len(),
                k <= 8,
                drives(self.events()) == drives(s0) + read_bits_drives(k as int),
                sda_samples(self.events()).len() == n + k,
                sda_samples(self.events()).subrange(0, n) == sda_samples(s0),
                byte == bits_value(sda_samples(self.events()).subrange(n as int, n + k)),
                byte < (1u16 << k),
            decreases 8 - k,
        {
            let ghost before = self.events();
            let b = self.read_bit();
            match b {
                Err(e) => {
                    proof {
                        lemma_read_bits(k + 1, 8);
                        lemma_prefix_concat(read_bits_drives(8), bit_drives(!send_ack));
                        lemma_prefix_trans(
                            read_bits_drives(k + 1),
                            read_bits_drives(8),
                            read_byte_drives(send_ack),
                        );
                        lemma_stopped_inside(
                            s0,
                            before,
                            self.events(),
                            read_bits_drives(k as int),
                            bit_drives(true),
                            read_byte_drives(send_ack),
                        );
                    }
                    return Err(e);
                },
                Ok(bit) => {
                    let ghost prev = sda_samples(before).subrange(n as int, n + k);
                    let v: u8 = if bit { 1 } else { 0 };
                    assert(byte < 128) by (bit_vector)
                        requires
                            k < 8,
                            byte < (1u16 << k),
                    ;
                    let next = (byte << 1) | v;
                    assert(next == 2 * byte + v && next < (1u16 << (k + 1))) by (bit_vector)
                        requires
                            byte < 128,
                            v <= 1,
                            next == (byte << 1) | v,
                            k < 8,
                            byte < (1u16 << k),
                    ;
                    proof {
                        let cur = sda_samples(self.events()).subrange(n as int, n + k + 1);
                        assert(cur.drop_last() =~= prev);
                        assert(sda_samples(self.events()).subrange(0, n as int) =~= sda_samples(
                            before,
                        ).subrange(0, n as int));
                    }
                    byte = next;
                    k = k + 1;
                    assert(drives(self.events()) =~= drives(s0) + read_bits_drives(k as int));
                },
            }
        }
        self.set_sda(!send_ack);
        self.delay();
        let ghost done = self.events();
        let c = self.clock_high();
        if c.is_err() {
            proof {
                assert(drives(self.events()) =~= drives(s0) + (read_bits_drives(8)
                    + bit_drives(!send_ack).subrange(0, 2)));
                lemma_prefix_take(read_bits_drives(8), bit_drives(!send_ack), 2);
                lemma_prefix_prepend(
                    drives(s0),
                    read_bits_drives(8) + bit_drives(!send_ack).subrange(0, 2),
                    read_byte_drives(send_ack),
                );
            }
            return Err(Error::Bus);
        }
        self.delay();
        self.set_scl(false);
        self.delay();
        assert(drives(self.events()) =~= drives(s0) + read_byte_drives(send_ack));
        Ok(byte)
    }

    /// Frees a bus held by a confused slave: releases SDA, clocks SCL nine
    /// times, then sends a STOP.
    pub fn recover_bus(&mut self) -> (r: Result<(), Error>)
        ensures
            final(self).timeouts() == old(self).timeouts() + if r matches Err(Error::Bus) {
                1int
            } else {
                0int
            },
            clocked(
                old(self).events(),
                final(self).events(),
                seq![PinEvent::Sda(true)] + recovery_pulses(9) + stop_drives(),
                r is Ok,
            ),
            r is Err ==> r == Err::<(), Error>(Error::Bus),
    {
        let ghost s0 = self.events();
        let ghost full = seq![PinEvent::Sda(true)] + recovery_pulses(9) + stop_drives();
        self.set_sda(true);
        let mut k: u8 = 0;
        while k < 9
            invariant
                self.timeouts() == old(self).timeouts(),
                s0 == old(self).events(),
                full == seq![PinEvent::Sda(true)] + recovery_pulses(9) + stop_drives(),
                k <= 9,
                drives(self.events()) == drives(s0) + (seq![PinEvent::Sda(true)]
                    + recovery_pulses(k as int)),
            decreases 9 - k,
        {
            let ghost before = self.events();
            self.set_scl(false);
            self.delay();
            let c = self.clock_high();
            if c.is_err() {
                proof {
                    let done = seq![PinEvent::Sda(true)] + recovery_pulses(k as int);
                    let step = seq![PinEvent::Scl(false), PinEvent::Scl(true)];
                    assert(drives(self.events()) =~= drives(s0) + (done + step));
                    lemma_recovery_pulses(k + 1, 9);
                    assert(done + step =~= seq![PinEvent::Sda(true)] + recovery_pulses(k + 1));
                    lemma_prefix_prepend(seq![PinEvent::Sda(true)], recovery_pulses(k + 1), recovery_pulses(9));
                    lemma_prefix_concat(seq![PinEvent::Sda(true)] + recovery_pulses(9), stop_drives());
                    lemma_prefix_trans(done + step, seq![PinEvent::Sda(true)] + recovery_pulses(9), full);
                    lemma_prefix_concat(drives(s0) + (done + step), Seq::empty());
                    assert(drives(s0) + (done + step) + Seq::<PinEvent>::empty() =~= drives(s0) + (done + step));
                    lemma_prefix_prepend(drives(s0), done + step, full);
                }
                return c;
            }
            self.delay();
            k = k + 1;
            assert(drives(self.events()) =~= drives(s0) + (seq![PinEvent::Sda(true)]
                + recovery_pulses(k as int)));
        }
        let ghost before = self.events();
        let st = self.stop();
        proof {
            let done = seq![PinEvent::Sda(true)] + recovery_pulses(9);
            if st is Ok {
                assert(drives(self.events()) =~= drives(s0) + full);
            } else {
                assert(done + stop_drives() =~= full);
                assert(prefix_of(done + stop_drives(), full)) by {
                    assert(full.subrange(0, full.len() as int) =~= full);
                }
                lemma_stopped_inside(s0, before, self.events(), done, stop_drives(), full);
            }
        }
        st
    }

    /// Writes the address byte: the 7-bit address shifted up, with the read
    /// flag as its lowest bit; a NACK is an address error.
    pub fn write_address(&mut self, address: u8, read: bool) -> (r: Result<(), Error>)
        ensures
            final(self).timeouts() == old(self).timeouts() + if r matches Err(Error::Bus) {
                1int
            } else {
                0int
            },
            ({
                let byte = ((address << 1u8) | if read { 1u8 } else { 0u8 }) as u8;
                match r {
                    Ok(()) => {
                        &&& drives(final(self).events()) == drives(old(self).events())
                            + write_byte_drives(byte)
                        &&& sda_samples(final(self).events()) == sda_samples(
                            old(self).events(),
                        ).push(false)
                    },
                    Err(e) => {
                        ||| {
                            &&& e == Error::AddressNack
                            &&& drives(final(self).events()) == drives(old(self).events())
                                + write_byte_drives(byte)
                            &&& sda_samples(final(self).events()) == sda_samples(
                                old(self).events(),
                            ).push(true)
                        }
                        ||| {
                            &&& e == Error::Bus
                            &&& clocked(
                                old(self).events(),
                                final(self).events(),
                                write_byte_drives(byte),
                                false,
                            )
                        }
                    },
                }
            }),
    {
        let flag: u8 = if read { 1 } else { 0 };
        self.write_byte((address << 1) | flag, Error::AddressNack)
    }

    /// Writes each of `bytes`, stopping at the first that is not acknowledged.
    fn send(&mut self, bytes: &[u8]) -> (r: Result<(), Error>)
        ensures
            final(self).timeouts() == old(self).timeouts() + if r matches Err(Error::Bus) {
                1int
            } else {
                0int
            },
            r is Ok ==> drives(final(self).events()) == drives(old(self).events()) + bytes_drives(
                bytes@,
            ) && sda_samples(final(self).events()) == sda_samples(old(self).events()) + acks(
                bytes@.len() as int,
            ),
            r is Err ==> r == Err::<(), Error>(Error::DataNack) || r == Err::<(), Error>(Error::Bus),
            r == Err::<(), Error>(Error::DataNack) ==> exists|j: int|
                0 <= j < bytes@.len() && drives(final(self).events()) == drives(old(self).events())
                    + #[trigger] bytes_drives(bytes@.subrange(0, j + 1)),
            r == Err::<(), Error>(Error::Bus) ==> clocked(
                old(self).events(),
                final(self).events(),
                bytes_drives(bytes@),
                false,
            ),
    {
        let ghost s0 = self.events();
        let mut i: usize = 0;
        while i < bytes.len()
            invariant
                self.timeouts() == old(self).timeouts(),
                s0 == old(self).events(),
                i <= bytes@.len(),
                drives(self.events()) == drives(s0) + bytes_drives(bytes@.subrange(0, i as int)),
                sda_samples(self.events()) == sda_samples(s0) + acks(i as int),
            decreases bytes@.len() - i,
        {
            let ghost before = self.events();
            let w = self.write_byte(bytes[i], Error::DataNack);
            if w.is_err() {
                proof {
                    let done = bytes@.subrange(0, i as int + 1);
                    assert(done.drop_last() =~= bytes@.subrange(0, i as int));
                    if w == Err::<(), Error>(Error::Bus) {
                        lemma_bytes_drives_prefix(bytes@, i as int + 1);
                        assert(bytes_drives(bytes@.subrange(0, i as int)) + write_byte_drives(bytes@[i as int])
                            =~= bytes_drives(done));
                        lemma_stopped_inside(
                            s0,
                            before,
                            self.events(),
                            bytes_drives(bytes@.subrange(0, i as int)),
                            write_byte_drives(bytes@[i as int]),
                            bytes_drives(bytes@),
                        );
                    }
                    if w == Err::<(), Error>(Error::DataNack) {
                        assert(drives(self.events()) =~= drives(s0) + bytes_drives(done));
                    }
                }
                return w;
            }
            proof {
                let done = bytes@.subrange(0, i as int + 1);
                assert(done.drop_last() =~= bytes@.subrange(0, i as int));
                assert(acks(i as int).push(false) =~= acks(i as int + 1));
            }
            i = i + 1;
            assert(drives(self.events()) =~= drives(s0) + bytes_drives(bytes@.subrange(0, i as int)));
        }
        assert(bytes@.subrange(0, bytes@.len() as int) =~= bytes@);
        Ok(())
    }

    /// Reads byte `index` of `buffer`, acknowledging it unless it is the last.
    pub fn read_into(&mut self, buffer: &mut [u8], index: usize) -> (r: Result<(), Error>)
        requires
            index < old(buffer)@.len(),
        ensures
            final(self).timeouts() == old(self).timeouts() + if r matches Err(Error::Bus) {
                1int
            } else {
                0int
            },
            final(buffer)@.len() == old(buffer)@.len(),
            clocked(
                old(self).events(),
                final(self).events(),
                read_byte_drives(index < old(buffer)@.len() - 1),
                r is Ok,
            ),
            match r {
                Ok(()) => {
                    let n = sda_samples(old(self).events()).len() as int;
                    &&& sda_samples(final(self).events()).len() == n + 8
                    &&& sda_samples(final(self).events()).subrange(0, n) == sda_samples(
                        old(self).events(),
                    )
                    &&& final(buffer)@[index as int] == bits_value(
                        sda_samples(final(self).events()).subrange(n, n + 8),
                    )
                    &&& final(buffer)@ == old(buffer)@.update(
                        index as int,
                        final(buffer)@[index as int],
                    )
                },
                Err(e) => e == Error::Bus && final(buffer)@ == old(buffer)@,
            },
    {
        let last = buffer.len() - 1;
        let v = self.read_byte(index < last);
        match v {
            Ok(byte) => {
                buffer[index] = byte;
                Ok(())
            },
            Err(e) => Err(e),
        }
    }

    /// Reads `buffer.len()` bytes, acknowledging all but the last.
    fn receive(&mut self, buffer: &mut [u8]) -> (r: Result<(), Error>)
        ensures
            r is Err ==> clocked(
                old(self).events(),
                final(self).events(),
                receive_drives(old(buffer)@.len() as int, old(buffer)@.len() as int),
                false,
            ),
            final(self).timeouts() == old(self).timeouts() + if r matches Err(Error::Bus) {
                1int
            } else {
                0int
            },
            final(buffer)@.len() == old(buffer)@.len(),
            r is Ok ==> {
                let n = sda_samples(old(self).events()).len() as int;
                &&& drives(final(self).events()) == drives(old(self).events()) + receive_drives(
                    old(buffer)@.len() as int,
                    old(buffer)@.len() as int,
                )
                &&& sda_samples(final(self).events()).subrange(0, n) == sda_samples(
                    old(self).events(),
                )
                &&& bytes_sampled(final(buffer)@, sda_samples(final(self).events()), n)
            },
            r is Err ==> r == Err::<(), Error>(Error::Bus),
    {
        let ghost s0 = self.events();
        let ghost n = sda_samples(s0).len() as int;
        let ghost total = buffer@.len() as int;
        let mut i: usize = 0;
        assert(sda_samples(s0).subrange(0, n) =~= sda_samples(s0));
        while i < buffer.len()
            invariant
                self.timeouts() == old(self).timeouts(),
                s0 == old(self).events(),
                n == sda_samples(s0).len(),
                total == old(buffer)@.len(),
                buffer@.len() == total,
                i <= total,
                drives(self.events()) == drives(s0) + receive_drives(i as int, total),
                sda_samples(self.events()).subrange(0, n) == sda_samples(s0),
                bytes_sampled(buffer@.subrange(0, i as int), sda_samples(self.events()), n),
            decreases total - i,
        {
            let ghost before = self.events();
            let ghost b0 = buffer@;
            let r = self.read_into(buffer, i);
            if r.is_err() {
                proof {
                    lemma_receive_prefix(i as int + 1, total, total);
                    lemma_stopped_inside(
                        s0,
                        before,
                        self.events(),
                        receive_drives(i as int, total),
                        read_byte_drives(i < total - 1),
                        receive_drives(total, total),
                    );
                }
                return r;
            }
            proof {
                let sb = sda_samples(before);
                let sa = sda_samples(self.events());
                assert(sa.subrange(0, sb.len() as int) == sb);
                assert(sa.subrange(0, n) =~= sb.subrange(0, n));
                let done = buffer@.subrange(0, i as int + 1);
                assert forall|j: int| 0 <= j < done.len() implies #[trigger] done[j] == bits_value(
                    sa.subrange(n + 8 * j, n + 8 * j + 8),
                ) by {
                    if j < i {
                        assert(done[j] == b0.subrange(0, i as int)[j]);
                        assert(sa.subrange(n + 8 * j, n + 8 * j + 8) =~= sb.subrange(
                            n + 8 * j,
                            n + 8 * j + 8,
                        ));
                    } else {
                        assert(sa.subrange(n + 8 * j, n + 8 * j + 8) =~= sa.subrange(
                            sb.len() as int,
                            sb.len() as int + 8,
                        ));
                    }
                }
            }
            i = i + 1;
            assert(drives(self.events()) =~= drives(s0) + receive_drives(i as int, total));
        }
        assert(buffer@.subrange(0, total) =~= buffer@);
        Ok(())
    }

    /// A complete write transfer: START, the address for writing, each of
    /// `bytes`, then STOP. The STOP is sent whenever the START succeeded; a
    /// STOP failure takes precedence over the earlier outcome.
    pub fn bus_write(&mut self, address: u8, bytes: &[u8]) -> (r: Result<(), Error>)
        ensures
            final(self).timeouts() >= old(self).timeouts(),
            (r == Err::<(), Error>(Error::Bus)) == (final(self).timeouts() > old(self).timeouts()),
            left_stopped(final(self).events()),
            r == Err::<(), Error>(Error::Bus) ==> stopped_within(
                drives(old(self).events()) + (start_drives() + (write_byte_drives(
                    address_byte(address, false),
                ) + bytes_drives(bytes@))),
                final(self).events(),
            ),
            r is Ok ==> {
                &&& drives(final(self).events()) == drives(old(self).events()) + start_drives()
                    + write_byte_drives(address_byte(address, false)) + bytes_drives(bytes@)
                    + stop_drives()
                &&& sda_samples(final(self).events()) == sda_samples(old(self).events()) + acks(
                    1 + bytes@.len() as int,
                )
            },
            r == Err::<(), Error>(Error::AddressNack) ==> drives(final(self).events()) == drives(
                old(self).events(),
            ) + nacked_write_drives(address, bytes@, 0),
            r == Err::<(), Error>(Error::DataNack) ==> exists|j: int|
                0 <= j < bytes@.len() && drives(final(self).events()) == drives(old(self).events())
                    + #[trigger] nacked_write_drives(address, bytes@, j + 1),
    {
        let ghost s0 = self.events();
        let ghost aw = write_byte_drives(address_byte(address, false));
        let ghost bd = bytes_drives(bytes@);
        let ghost total = drives(s0) + (start_drives() + (aw + bd));
        let started = self.start();
        if started.is_err() {
            proof {
                lemma_start_failed_within(s0, self.events(), aw + bd);
            }
            return started;
        }
        let ghost s1 = self.events();
        let addressed = self.write_address(address, false);
        let ghost sa = self.events();
        let result = match addressed {
            Ok(()) => self.send(bytes),
            Err(e) => Err(e),
        };
        let ghost s2 = self.events();
        proof {
            assert(total =~= drives(s1) + aw + bd);
            lemma_prefix_concat(drives(s1) + aw, bd);
            if addressed is Err {
                if addressed != Err::<(), Error>(Error::AddressNack) {
                    lemma_prefix_trans(drives(s2), drives(s1) + aw, total);
                }
            } else if result is Ok {
                lemma_prefix_self(total);
            } else if result == Err::<(), Error>(Error::DataNack) {
                let j = choose|j: int|
                    0 <= j < bytes@.len() && drives(s2) == drives(sa) + #[trigger] bytes_drives(
                        bytes@.subrange(0, j + 1),
                    );
                lemma_bytes_drives_prefix(bytes@, j + 1);
                lemma_prefix_prepend(drives(sa), bytes_drives(bytes@.subrange(0, j + 1)), bd);
            }
        }
        let ghost before_stop = self.events();
        let stop = self.stop();
        proof {
            lemma_stop_leaves_stopped(before_stop, self.events(), stop is Ok);
            lemma_stop_within(s2, self.events(), total, stop is Ok);
        }
        match stop {
            Err(e) => Err(e),
            Ok(()) => {
                proof {
                    if result is Ok {
                        assert(drives(self.events()) =~= drives(s0) + start_drives()
                            + write_byte_drives(address_byte(address, false)) + bytes_drives(bytes@)
                            + stop_drives());
                        assert(sda_samples(self.events()) =~= sda_samples(s0) + acks(
                            1 + bytes@.len() as int,
                        ));
                    }
                    if result == Err::<(), Error>(Error::AddressNack) {
                        assert(bytes@.subrange(0, 0) =~= Seq::<u8>::empty());
                        assert(drives(self.events()) =~= drives(s0) + nacked_write_drives(
                            address,
                            bytes@,
                            0,
                        ));
                    }
                    if result == Err::<(), Error>(Error::DataNack) {
                        let j = choose|j: int|
                            0 <= j < bytes@.len() && drives(s2) == drives(s1) + write_byte_drives(
                                address_byte(address, false),
                            ) + #[trigger] bytes_drives(bytes@.subrange(0, j + 1));
                        assert(drives(self.events()) =~= drives(s0) + nacked_write_drives(
                            address,
                            bytes@,
                            j + 1,
                        ));
                    }
                }
                result
            },
        }
    }

    /// A complete read transfer: START, the address for reading, `buffer.len()`
    /// bytes (all but the last acknowledged), then STOP. The STOP is sent
    /// whenever the START succeeded and takes precedence over the earlier
    /// outcome.
    pub fn bus_read(&mut self, address: u8, buffer: &mut [u8]) -> (r: Result<(), Error>)
        ensures
            final(self).timeouts() >= old(self).timeouts(),
            (r == Err::<(), Error>(Error::Bus)) == (final(self).timeouts() > old(self).timeouts()),
            left_stopped(final(self).events()),
            final(buffer)@.len() == old(buffer)@.len(),
            r is Ok ==> {
                let n = sda_samples(old(self).events()).len() as int;
                &&& drives(final(self).events()) == drives(old(self).events()) + start_drives()
                    + write_byte_drives(address_byte(address, true)) + receive_drives(
                    old(buffer)@.len() as int,
                    old(buffer)@.len() as int,
                ) + stop_drives()
                &&& sda_samples(final(self).events()).subrange(0, n + 1) == sda_samples(
                    old(self).events(),
                ).push(false)
                &&& bytes_sampled(final(buffer)@, sda_samples(final(self).events()), n + 1)
            },
            r != Err::<(), Error>(Error::DataNack),
            r == Err::<(), Error>(Error::AddressNack) ==> drives(final(self).events()) == drives(
                old(self).events(),
            ) + start_drives() + write_byte_drives(address_byte(address, true)) + stop_drives(),
            r == Err::<(), Error>(Error::Bus) ==> stopped_within(
                drives(old(self).events()) + (start_drives() + (write_byte_drives(
                    address_byte(address, true),
                ) + receive_drives(old(buffer)@.len() as int, old(buffer)@.len() as int))),
                final(self).events(),
            ),
    {
        let ghost s0 = self.events();
        let ghost ar = write_byte_drives(address_byte(address, true));
        let ghost rd = receive_drives(buffer@.len() as int, buffer@.len() as int);
        let ghost total = drives(s0) + (start_drives() + (ar + rd));
        let started = self.start();
        if started.is_err() {
            proof {
                lemma_start_failed_within(s0, self.events(), ar + rd);
            }
            return started;
        }
        let ghost s1 = self.events();
        let addressed = self.write_address(address, true);
        let ghost sa = self.events();
        let result = match addressed {
            Ok(()) => self.receive(buffer),
            Err(e) => Err(e),
        };
        let ghost s2 = self.events();
        proof {
            assert(total =~= drives(s1) + ar + rd);
            lemma_prefix_concat(drives(s1) + ar, rd);
            if addressed is Err {
                if addressed != Err::<(), Error>(Error::AddressNack) {
                    lemma_prefix_trans(drives(s2), drives(s1) + ar, total);
                }
            } else if result is Ok {
                lemma_prefix_self(total);
            }
        }
        let ghost before_stop = self.events();
        let stop = self.stop();
        proof {
            lemma_stop_leaves_stopped(before_stop, self.events(), stop is Ok);
            lemma_stop_within(s2, self.events(), total, stop is Ok);
        }
        match stop {
            Err(e) => Err(e),
            Ok(()) => {
                proof {
                    if result == Err::<(), Error>(Error::AddressNack) {
                        assert(drives(self.events()) =~= drives(s0) + start_drives()
                            + write_byte_drives(address_byte(address, true)) + stop_drives());
                    }
                    if result is Ok {
                        assert(drives(self.events()) =~= drives(s0) + start_drives()
                            + write_byte_drives(address_byte(address, true)) + receive_drives(
                            buffer@.len() as int,
                            buffer@.len() as int,
                        ) + stop_drives());
                    }
                }
                result
            },
        }
    }

    /// A write-then-read transfer: START, the address for writing, each of
    /// `bytes`, a repeated START, the address for reading, `buffer.len()` bytes,
    /// then STOP. The STOP is sent whenever the first START succeeded and takes
    /// precedence over the earlier outcome.
    pub fn bus_write_read(&mut self, address: u8, bytes: &[u8], buffer: &mut [u8]) -> (r: Result<
        (),
        Error,
    >)
        ensures
            final(self).timeouts() >= old(self).timeouts(),
            (r == Err::<(), Error>(Error::Bus)) == (final(self).timeouts() > old(self).timeouts()),
            left_stopped(final(self).events()),
            final(buffer)@.len() == old(buffer)@.len(),
            r is Ok ==> {
                let n = sda_samples(old(self).events()).len() as int;
                let m = n + 2 + bytes@.len() as int;
                &&& drives(final(self).events()) == drives(old(self).events()) + start_drives()
                    + write_byte_drives(address_byte(address, false)) + bytes_drives(bytes@)
                    + start_drives() + write_byte_drives(address_byte(address, true))
                    + receive_drives(old(buffer)@.len() as int, old(buffer)@.len() as int)
                    + stop_drives()
                &&& sda_samples(final(self).events()).subrange(0, m) == sda_samples(
                    old(self).events(),
                ) + acks(2 + bytes@.len() as int)
                &&& bytes_sampled(final(buffer)@, sda_samples(final(self).events()), m)
            },
            r == Err::<(), Error>(Error::AddressNack) ==> {
                ||| drives(final(self).events()) == drives(old(self).events()) + nacked_write_drives(
                    address,
                    bytes@,
                    0,
                )
                ||| drives(final(self).events()) == drives(old(self).events()) + start_drives()
                    + write_byte_drives(address_byte(address, false)) + bytes_drives(bytes@)
                    + start_drives() + write_byte_drives(address_byte(address, true))
                    + stop_drives()
            },
            r == Err::<(), Error>(Error::DataNack) ==> exists|j: int|
                0 <= j < bytes@.len() && drives(final(self).events()) == drives(old(self).events())
                    + #[trigger] nacked_write_drives(address, bytes@, j + 1),
            r == Err::<(), Error>(Error::Bus) ==> stopped_within(
                drives(old(self).events()) + (start_drives() + write_read_body(
                    address,
                    bytes@,
                    old(buffer)@.len() as int,
                )),
                final(self).events(),
            ),
    {
        let ghost s0 = self.events();
        let ghost full = write_read_body(address, bytes@, buffer@.len() as int);
        let ghost total = drives(s0) + (start_drives() + full);
        let started = self.start();
        if started.is_err() {
            proof {
                lemma_start_failed_within(s0, self.events(), full);
            }
            return started;
        }
        let ghost s1 = self.events();
        let result = self.write_read_phases(address, bytes, buffer);
        let ghost s2 = self.events();
        proof {
            assert(total =~= drives(s1) + full);
            let aw = write_byte_drives(address_byte(address, false));
            let bd = bytes_drives(bytes@);
            let ar = write_byte_drives(address_byte(address, true));
            if result is Ok {
                assert(drives(s2) =~= drives(s1) + full);
                lemma_prefix_self(total);
            } else if result == Err::<(), Error>(Error::AddressNack) {
                assert(total.subrange(0, (drives(s1) + aw).len() as int) =~= drives(s1) + aw);
                assert(total.subrange(0, (drives(s1) + aw + bd + start_drives() + ar).len() as int)
                    =~= drives(s1) + aw + bd + start_drives() + ar);
            } else if result == Err::<(), Error>(Error::DataNack) {
                let j = choose|j: int|
                    0 <= j < bytes@.len() && drives(s2) == drives(s1) + aw + #[trigger] bytes_drives(
                        bytes@.subrange(0, j + 1),
                    );
                lemma_bytes_drives_prefix(bytes@, j + 1);
                lemma_prefix_prepend(drives(s1) + aw, bytes_drives(bytes@.subrange(0, j + 1)), bd);
                assert(total.subrange(0, (drives(s1) + aw + bd).len() as int) =~= drives(s1) + aw + bd);
                lemma_prefix_trans(drives(s2), drives(s1) + aw + bd, total);
            }
        }
        let ghost before_stop = self.events();
        let stop = self.stop();
        proof {
            lemma_stop_leaves_stopped(before_stop, self.events(), stop is Ok);
            lemma_stop_within(s2, self.events(), total, stop is Ok);
        }
        match stop {
            Err(e) => Err(e),
            Ok(()) => {
                proof {
                    if result == Err::<(), Error>(Error::AddressNack) {
                        assert(bytes@.subrange(0, 0) =~= Seq::<u8>::empty());
                        if drives(s2) == drives(s1) + write_byte_drives(address_byte(address, false)) {
                            assert(drives(self.events()) =~= drives(s0) + nacked_write_drives(
                                address,
                                bytes@,
                                0,
                            ));
                        } else {
                            assert(drives(self.events()) =~= drives(s0) + start_drives()
                                + write_byte_drives(address_byte(address, false)) + bytes_drives(
                                bytes@,
                            ) + start_drives() + write_byte_drives(address_byte(address, true))
                                + stop_drives());
                        }
                    }
                    if result == Err::<(), Error>(Error::DataNack) {
                        let j = choose|j: int|
                            0 <= j < bytes@.len() && drives(s2) == drives(s1) + write_byte_drives(
                                address_byte(address, false),
                            ) + #[trigger] bytes_drives(bytes@.subrange(0, j + 1));
                        assert(drives(self.events()) =~= drives(s0) + nacked_write_drives(
                            address,
                            bytes@,
                            j + 1,
                        ));
                    }
                    if result is Ok {
                        assert(drives(self.events()) =~= drives(s0) + start_drives()
                            + write_byte_drives(address_byte(address, false)) + bytes_drives(bytes@)
                            + start_drives() + write_byte_drives(address_byte(address, true))
                            + receive_drives(buffer@.len() as int, buffer@.len() as int)
                            + stop_drives());
                    }
                }
                result
            },
        }
    }

    /// The part of a write-then-read transfer between the first START and the
    /// STOP.
    fn write_read_phases(&mut self, address: u8, bytes: &[u8], buffer: &mut [u8]) -> (r: Result<
        (),
        Error,
    >)
        ensures
            final(self).timeouts() == old(self).timeouts() + if r matches Err(Error::Bus) {
                1int
            } else {
                0int
            },
            final(buffer)@.len() == old(buffer)@.len(),
            r is Ok ==> {
                let n = sda_samples(old(self).events()).len() as int;
                let m = n + 2 + bytes@.len() as int;
                &&& drives(final(self).events()) == drives(old(self).events()) + write_byte_drives(
                    address_byte(address, false),
                ) + bytes_drives(bytes@) + start_drives() + write_byte_drives(
                    address_byte(address, true),
                ) + receive_drives(old(buffer)@.len() as int, old(buffer)@.len() as int)
                &&& sda_samples(final(self).events()).subrange(0, m) == sda_samples(
                    old(self).events(),
                ) + acks(2 + bytes@.len() as int)
                &&& bytes_sampled(final(buffer)@, sda_samples(final(self).events()), m)
            },
            r == Err::<(), Error>(Error::AddressNack) ==> {
                ||| drives(final(self).events()) == drives(old(self).events()) + write_byte_drives(
                    address_byte(address, false),
                )
                ||| drives(final(self).events()) == drives(old(self).events()) + write_byte_drives(
                    address_byte(address, false),
                ) + bytes_drives(bytes@) + start_drives() + write_byte_drives(
                    address_byte(address, true),
                )
            },
            r == Err::<(), Error>(Error::DataNack) ==> exists|j: int|
                0 <= j < bytes@.len() && drives(final(self).events()) == drives(old(self).events())
                    + write_byte_drives(address_byte(address, false)) + #[trigger] bytes_drives(
                    bytes@.subrange(0, j + 1),
                ),
            r == Err::<(), Error>(Error::Bus) ==> clocked(
                old(self).events(),
                final(self).events(),
                write_read_body(address, bytes@, old(buffer)@.len() as int),
                false,
            ),
    {
        let ghost s0 = self.events();
        let ghost aw = write_byte_drives(address_byte(address, false));
        let ghost bd = bytes_drives(bytes@);
        let ghost ar = write_byte_drives(address_byte(address, true));
        let ghost rd = receive_drives(buffer@.len() as int, buffer@.len() as int);
        let ghost full = write_read_body(address, bytes@, buffer@.len() as int);
        let first = self.write_address(address, false);
        if first.is_err() {
            proof {
                if first == Err::<(), Error>(Error::Bus) {
                    assert(drives(s0) =~= drives(s0) + Seq::<PinEvent>::empty());
                    assert(full.subrange(0, aw.len() as int) =~= Seq::<PinEvent>::empty() + aw);
                    lemma_stopped_inside(s0, s0, self.events(), Seq::<PinEvent>::empty(), aw, full);
                }
            }
            return first;
        }
        let ghost sa = self.events();
        let sent = self.send(bytes);
        if sent.is_err() {
            proof {
                if sent == Err::<(), Error>(Error::Bus) {
                    assert(full.subrange(0, (aw + bd).len() as int) =~= aw + bd);
                    lemma_stopped_inside(s0, sa, self.events(), aw, bd, full);
                }
                if sent == Err::<(), Error>(Error::DataNack) {
                    let j = choose|j: int|
                        0 <= j < bytes@.len() && drives(self.events()) == drives(sa)
                            + #[trigger] bytes_drives(bytes@.subrange(0, j + 1));
                    assert(drives(self.events()) =~= drives(s0) + write_byte_drives(
                        address_byte(address, false),
                    ) + bytes_drives(bytes@.subrange(0, j + 1)));
                }
            }
            return sent;
        }
        let ghost sb = self.events();
        let restarted = self.start();
        if restarted.is_err() {
            proof {
                assert(full.subrange(0, (aw + bd + start_drives()).len() as int) =~= aw + bd
                    + start_drives());
                assert(drives(sb) =~= drives(s0) + (aw + bd));
                lemma_stopped_inside(s0, sb, self.events(), aw + bd, start_drives(), full);
            }
            return restarted;
        }
        let ghost sc = self.events();
        let second = self.write_address(address, true);
        if second.is_err() {
            proof {
                if second == Err::<(), Error>(Error::Bus) {
                    assert(full.subrange(0, (aw + bd + start_drives() + ar).len() as int) =~= aw
                        + bd + start_drives() + ar);
                    assert(drives(sc) =~= drives(s0) + (aw + bd + start_drives()));
                    lemma_stopped_inside(s0, sc, self.events(), aw + bd + start_drives(), ar, full);
                }
                if second == Err::<(), Error>(Error::AddressNack) {
                    assert(drives(self.events()) =~= drives(s0) + write_byte_drives(
                        address_byte(address, false),
                    ) + bytes_drives(bytes@) + start_drives() + write_byte_drives(
                        address_byte(address, true),
                    ));
                }
            }
            return second;
        }
        let ghost s1 = self.events();
        let received = self.receive(buffer);
        if received.is_err() {
            proof {
                lemma_prefix_self(full);
                assert(drives(s1) =~= drives(s0) + (aw + bd + start_drives() + ar));
                lemma_stopped_inside(s0, s1, self.events(), aw + bd + start_drives() + ar, rd, full);
            }
            return received;
        }
        proof {
            let m = sda_samples(s0).len() as int + 2 + bytes@.len() as int;
            assert(sda_samples(s1) =~= sda_samples(s0) + acks(2 + bytes@.len() as int));
            assert(sda_samples(self.events()).subrange(0, m) =~= sda_samples(s1));
            assert(drives(self.events()) =~= drives(s0) + write_byte_drives(
                address_byte(address, false),
            ) + bytes_drives(bytes@) + start_drives() + write_byte_drives(
                address_byte(address, true),
            ) + receive_drives(buffer@.len() as int, buffer@.len() as int));
        }
        Ok(())
    }

    /// A combined transfer: the parts (see [`BitbangCore::transaction`]), then a
    /// STOP. Nothing is done for no parts. The STOP is sent whenever there are
    /// parts, and a STOP failure takes precedence over the earlier outcome.
    pub fn bus_transaction(&mut self, address: u8, operations: &mut Vec<Transfer>) -> (r: Result<
        (),
        Error,
    >)
        ensures
            final(self).timeouts() >= old(self).timeouts(),
            (r == Err::<(), Error>(Error::Bus)) == (final(self).timeouts() > old(self).timeouts()),
            old(operations)@.len() > 0 ==> left_stopped(final(self).events()),
            final(operations)@.len() == old(operations)@.len(),
            forall|k: int|
                0 <= k < old(operations)@.len() ==> same_shape(
                    #[trigger] old(operations)@[k],
                    final(operations)@[k],
                ),
            old(operations)@.len() == 0 ==> r is Ok && final(self).events() == old(self).events(),
            r is Ok ==> {
                let ops = old(operations)@;
                let n = sda_samples(old(self).events()).len() as int;
                let s = sda_samples(final(self).events());
                &&& ops.len() > 0 ==> drives(final(self).events()) == drives(old(self).events())
                    + transaction_drives(address, ops, ops.len() as int) + stop_drives()
                &&& s.len() == n + samples_before(ops, ops.len() as int)
                &&& s.subrange(0, n) == sda_samples(old(self).events())
                &&& forall|k: int|
                    0 <= k < ops.len() ==> part_sampled(
                        #[trigger] final(operations)@[k],
                        opens_phase(ops, k),
                        s,
                        n + samples_before(ops, k),
                    )
            },
            r == Err::<(), Error>(Error::AddressNack) ==> exists|k: int|
                0 <= k < old(operations)@.len() && opens_phase(old(operations)@, k) && drives(
                    final(self).events(),
                ) == drives(old(self).events()) + #[trigger] transaction_drives(
                    address,
                    old(operations)@,
                    k,
                ) + part_opening(address, old(operations)@, k) + stop_drives(),
            r == Err::<(), Error>(Error::DataNack) ==> exists|k: int, j: int|
                0 <= k < old(operations)@.len() && 0 <= j < part_bytes(old(operations)@, k).len()
                    && drives(final(self).events()) == drives(old(self).events())
                    + #[trigger] transaction_drives(address, old(operations)@, k) + part_opening(
                    address,
                    old(operations)@,
                    k,
                ) + #[trigger] bytes_drives(part_bytes(old(operations)@, k).subrange(0, j + 1))
                    + stop_drives(),
            r == Err::<(), Error>(Error::Bus) ==> stopped_within(
                drives(old(self).events()) + transaction_drives(
                    address,
                    old(operations)@,
                    old(operations)@.len() as int,
                ),
                final(self).events(),
            ),
    {
        if operations.len() == 0 {
            assert(sda_samples(self.events()).subrange(0, sda_samples(self.events()).len() as int)
                =~= sda_samples(self.events()));
            return Ok(());
        }
        let ghost s0 = self.events();
        let ghost ops0 = operations@;
        let result = self.transaction(address, operations);
        let ghost s1 = self.events();
        let ghost total = drives(s0) + transaction_drives(address, ops0, ops0.len() as int);
        proof {
            if result is Ok {
                lemma_prefix_self(total);
            } else if result == Err::<(), Error>(Error::AddressNack) {
                let k = choose|k: int|
                    0 <= k < ops0.len() && opens_phase(ops0, k) && drives(s1) == drives(s0)
                        + #[trigger] transaction_drives(address, ops0, k) + part_opening(address, ops0, k);
                lemma_part_prefixes(address, ops0, k);
                lemma_prefix_concat(part_opening(address, ops0, k), data_drives(ops0[k]));
                lemma_within_parts(address, ops0, k, drives(s0), part_opening(address, ops0, k));
            } else if result == Err::<(), Error>(Error::DataNack) {
                let (k, j) = choose|k: int, j: int|
                    0 <= k < ops0.len() && 0 <= j < part_bytes(ops0, k).len() && drives(s1)
                        == drives(s0) + #[trigger] transaction_drives(address, ops0, k)
                        + part_opening(address, ops0, k) + #[trigger] bytes_drives(
                        part_bytes(ops0, k).subrange(0, j + 1),
                    );
                let b = part_bytes(ops0, k);
                let op = part_opening(address, ops0, k);
                lemma_part_prefixes(address, ops0, k);
                assert(data_drives(ops0[k]) == bytes_drives(b));
                lemma_bytes_drives_prefix(b, j + 1);
                lemma_prefix_prepend(op, bytes_drives(b.subrange(0, j + 1)), bytes_drives(b));
                lemma_within_parts(address, ops0, k, drives(s0), op + bytes_drives(b.subrange(0, j + 1)));
                assert(drives(s1) =~= drives(s0) + transaction_drives(address, ops0, k) + (op
                    + bytes_drives(b.subrange(0, j + 1))));
            }
        }
        let ghost before_stop = self.events();
        let stop = self.stop();
        proof {
            lemma_stop_leaves_stopped(before_stop, self.events(), stop is Ok);
            lemma_stop_within(s1, self.events(), total, stop is Ok);
        }
        match stop {
            Err(e) => Err(e),
            Ok(()) => {
                proof {
                    if result == Err::<(), Error>(Error::AddressNack) {
                        let k = choose|k: int|
                            0 <= k < ops0.len() && opens_phase(ops0, k) && drives(s1) == drives(s0)
                                + #[trigger] transaction_drives(address, ops0, k) + part_opening(
                                address,
                                ops0,
                                k,
                            );
                        assert(drives(self.events()) =~= drives(s0) + transaction_drives(
                            address,
                            ops0,
                            k,
                        ) + part_opening(address, ops0, k) + stop_drives());
                    }
                    if result == Err::<(), Error>(Error::DataNack) {
                        let (k, j) = choose|k: int, j: int|
                            0 <= k < ops0.len() && 0 <= j < part_bytes(ops0, k).len() && drives(s1)
                                == drives(s0) + #[trigger] transaction_drives(address, ops0, k)
                                + part_opening(address, ops0, k) + #[trigger] bytes_drives(
                                part_bytes(ops0, k).subrange(0, j + 1),
                            );
                        assert(drives(self.events()) =~= drives(s0) + transaction_drives(
                            address,
                            ops0,
                            k,
                        ) + part_opening(address, ops0, k) + bytes_drives(
                            part_bytes(ops0, k).subrange(0, j + 1),
                        ) + stop_drives());
                    }
                }
                assert(result is Ok ==> drives(self.events()) =~= drives(s0) + transaction_drives(
                    address,
                    old(operations)@,
                    old(operations)@.len() as int,
                ) + stop_drives());
                result
            },
        }
    }

    /// The data of one part: its bytes written, or its buffer filled.
    fn part_data(&mut self, t: &mut Transfer) -> (r: Result<(), Error>)
        ensures
            final(self).timeouts() == old(self).timeouts() + if r matches Err(Error::Bus) {
                1int
            } else {
                0int
            },
            same_shape(*old(t), *final(t)),
            r is Ok ==> {
                let n = sda_samples(old(self).events()).len() as int;
                let s = sda_samples(final(self).events());
                &&& drives(final(self).events()) == drives(old(self).events()) + data_drives(*old(t))
                &&& s.len() == n + part_size(*old(t), false)
                &&& s.subrange(0, n) == sda_samples(old(self).events())
                &&& part_sampled(*final(t), false, s, n)
            },
            r != Err::<(), Error>(Error::AddressNack),
            r == Err::<(), Error>(Error::DataNack) ==> exists|j: int|
                0 <= j < written_bytes(*old(t)).len() && drives(final(self).events()) == drives(
                    old(self).events(),
                ) + #[trigger] bytes_drives(written_bytes(*old(t)).subrange(0, j + 1)),
            r == Err::<(), Error>(Error::Bus) ==> clocked(
                old(self).events(),
                final(self).events(),
                data_drives(*old(t)),
                false,
            ),
    {
        let ghost n = sda_samples(self.events()).len() as int;
        match t {
            Transfer::Write(bytes) => {
                let r = self.send(bytes.as_slice());
                proof {
                    let s = sda_samples(self.events());
                    assert(written_bytes(*old(t)) == bytes@);
                    if r == Err::<(), Error>(Error::DataNack) {
                        let j = choose|j: int|
                            0 <= j < bytes@.len() && drives(self.events()) == drives(
                                old(self).events(),
                            ) + #[trigger] bytes_drives(bytes@.subrange(0, j + 1));
                        assert(0 <= j < written_bytes(*old(t)).len());
                    }
                    if r is Ok {
                        assert(s.subrange(0, n) =~= sda_samples(old(self).events()));
                        assert(s.subrange(n, n + bytes@.len()) =~= acks(bytes@.len() as int));
                    }
                }
                r
            },
            Transfer::Read(buffer) => self.receive(buffer.as_mut_slice()),
        }
    }

    /// The parts of a combined transfer, without the final STOP: the first part
    /// opens with a START and the address, and so does each part whose
    /// direction differs from the one before; parts in the same direction go
    /// on without either. Stops at the first error.
    #[verifier::rlimit(100)]
    pub fn transaction(&mut self, address: u8, operations: &mut Vec<Transfer>) -> (r: Result<
        (),
        Error,
    >)
        ensures
            final(self).timeouts() == old(self).timeouts() + if r matches Err(Error::Bus) {
                1int
            } else {
                0int
            },
            final(operations)@.len() == old(operations)@.len(),
            forall|k: int|
                0 <= k < old(operations)@.len() ==> same_shape(
                    #[trigger] old(operations)@[k],
                    final(operations)@[k],
                ),
            r is Ok ==> {
                let ops = old(operations)@;
                let n = sda_samples(old(self).events()).len() as int;
                let s = sda_samples(final(self).events());
                &&& drives(final(self).events()) == drives(old(self).events()) + transaction_drives(
                    address,
                    ops,
                    ops.len() as int,
                )
                &&& s.len() == n + samples_before(ops, ops.len() as int)
                &&& s.subrange(0, n) == sda_samples(old(self).events())
                &&& forall|k: int|
                    0 <= k < ops.len() ==> part_sampled(
                        #[trigger] final(operations)@[k],
                        opens_phase(ops, k),
                        s,
                        n + samples_before(ops, k),
                    )
            },
            r == Err::<(), Error>(Error::AddressNack) ==> exists|k: int|
                0 <= k < old(operations)@.len() && opens_phase(old(operations)@, k) && drives(
                    final(self).events(),
                ) == drives(old(self).events()) + #[trigger] transaction_drives(
                    address,
                    old(operations)@,
                    k,
                ) + part_opening(address, old(operations)@, k),
            r == Err::<(), Error>(Error::DataNack) ==> exists|k: int, j: int|
                0 <= k < old(operations)@.len() && 0 <= j < part_bytes(old(operations)@, k).len()
                    && drives(final(self).events()) == drives(old(self).events())
                    + #[trigger] transaction_drives(address, old(operations)@, k) + part_opening(
                    address,
                    old(operations)@,
                    k,
                ) + #[trigger] bytes_drives(part_bytes(old(operations)@, k).subrange(0, j + 1)),
            r == Err::<(), Error>(Error::Bus) ==> clocked(
                old(self).events(),
                final(self).events(),
                transaction_drives(address, old(operations)@, old(operations)@.len() as int),
                false,
            ),
    {
        let ghost s0 = self.events();
        let ghost ops0 = operations@;
        let ghost n = sda_samples(s0).len() as int;
        let mut previous_read: Option<bool> = None;
        let mut i: usize = 0;
        assert(sda_samples(s0).subrange(0, n) =~= sda_samples(s0));
        while i < operations.len()
            invariant
                self.timeouts() == old(self).timeouts(),
                s0 == old(self).events(),
                ops0 == old(operations)@,
                n == sda_samples(s0).len(),
                operations@.len() == ops0.len(),
                i <= ops0.len(),
                previous_read == if i == 0 {
                    None
                } else {
                    Some(is_read(ops0[i - 1]))
                },
                forall|k: int| 0 <= k < ops0.len() ==> same_shape(#[trigger] ops0[k], operations@[k]),
                forall|k: int| i <= k < ops0.len() ==> #[trigger] operations@[k] == ops0[k],
                drives(self.events()) == drives(s0) + transaction_drives(address, ops0, i as int),
                sda_samples(self.events()).len() == n + samples_before(ops0, i as int),
                sda_samples(self.events()).subrange(0, n) == sda_samples(s0),
                forall|k: int|
                    0 <= k < i ==> part_sampled(
                        #[trigger] operations@[k],
                        opens_phase(ops0, k),
                        sda_samples(self.events()),
                        n + samples_before(ops0, k),
                    ),
            decreases ops0.len() - i,
        {
            let ghost before = self.events();
            let ghost ops_before = operations@;
            let read = match &operations[i] {
                Transfer::Read(_) => true,
                Transfer::Write(_) => false,
            };
            let opens = match previous_read {
                None => true,
                Some(previous) => previous != read,
            };
            assert(opens == opens_phase(ops0, i as int));
            if opens {
                let started = self.start();
                if started.is_err() {
                    proof {
                        lemma_part_prefixes(address, ops0, i as int);
                        assert(drives(before) =~= drives(s0) + transaction_drives(address, ops0, i as int)
                            + Seq::<PinEvent>::empty());
                        lemma_part_stopped(
                            address,
                            ops0,
                            i as int,
                            s0,
                            before,
                            self.events(),
                            Seq::<PinEvent>::empty(),
                            start_drives(),
                        );
                    }
                    return started;
                }
                let ghost after_start = self.events();
                let opened = self.write_address(address, read);
                if opened.is_err() {
                    proof {
                        if opened == Err::<(), Error>(Error::Bus) {
                            lemma_part_prefixes(address, ops0, i as int);
                            lemma_part_stopped(
                                address,
                                ops0,
                                i as int,
                                s0,
                                after_start,
                                self.events(),
                                start_drives(),
                                write_byte_drives(address_byte(address, read)),
                            );
                        }
                        if opened == Err::<(), Error>(Error::AddressNack) {
                            assert(drives(self.events()) =~= drives(s0) + transaction_drives(
                                address,
                                ops0,
                                i as int,
                            ) + part_opening(address, ops0, i as int));
                        }
                    }
                    return opened;
                }
            }
            let ghost mid = self.events();
            assert(drives(mid) =~= drives(s0) + transaction_drives(address, ops0, i as int)
                + part_opening(address, ops0, i as int));
            let data = self.part_data(&mut operations[i]);
            if data.is_err() {
                proof {
                    if data == Err::<(), Error>(Error::Bus) {
                        lemma_part_prefixes(address, ops0, i as int);
                        lemma_prefix_self(part_drives(address, ops0, i as int));
                        lemma_part_stopped(
                            address,
                            ops0,
                            i as int,
                            s0,
                            mid,
                            self.events(),
                            part_opening(address, ops0, i as int),
                            data_drives(ops0[i as int]),
                        );
                    }
                    if data == Err::<(), Error>(Error::DataNack) {
                        let b = part_bytes(ops0, i as int);
                        let j = choose|j: int|
                            0 <= j < b.len() && drives(self.events()) == drives(mid)
                                + #[trigger] bytes_drives(b.subrange(0, j + 1));
                        assert(drives(self.events()) =~= drives(s0) + transaction_drives(
                            address,
                            ops0,
                            i as int,
                        ) + part_opening(address, ops0, i as int) + bytes_drives(
                            b.subrange(0, j + 1),
                        ));
                    }
                }
                return data;
            }
            proof {
                lemma_part_drives(address, ops0, i as int, drives(s0), drives(before), drives(mid), drives(self.events()));
                lemma_part_samples(
                    ops0,
                    ops_before,
                    operations@,
                    i as int,
                    n,
                    sda_samples(s0),
                    sda_samples(before),
                    sda_samples(mid),
                    sda_samples(self.events()),
                );
            }
            previous_read = Some(read);
            i = i + 1;
        }
        Ok(())
    }
}

impl<Scl: OpenDrainPin, Sda: OpenDrainPin> I2cBus for BitbangCore<Scl, Sda> {
    type Error = Error;

    /// A complete write transfer; see [`BitbangCore::bus_write`].
    fn write(&mut self, address: u8, bytes: &[u8]) -> (r: Result<(), Error>)
        ensures
            final(self).timeouts() >= old(self).timeouts(),
            (r == Err::<(), Error>(Error::Bus)) == (final(self).timeouts() > old(self).timeouts()),
            left_stopped(final(self).events()),
            r == Err::<(), Error>(Error::Bus) ==> stopped_within(
                drives(old(self).events()) + (start_drives() + (write_byte_drives(
                    address_byte(address, false),
                ) + bytes_drives(bytes@))),
                final(self).events(),
            ),
            r is Ok ==> {
                &&& drives(final(self).events()) == drives(old(self).events()) + start_drives()
                    + write_byte_drives(address_byte(address, false)) + bytes_drives(bytes@)
                    + stop_drives()
                &&& sda_samples(final(self).events()) == sda_samples(old(self).events()) + acks(
                    1 + bytes@.len() as int,
                )
            },
            r == Err::<(), Error>(Error::AddressNack) ==> drives(final(self).events()) == drives(
                old(self).events(),
            ) + nacked_write_drives(address, bytes@, 0),
            r == Err::<(), Error>(Error::DataNack) ==> exists|j: int|
                0 <= j < bytes@.len() && drives(final(self).events()) == drives(old(self).events())
                    + #[trigger] nacked_write_drives(address, bytes@, j + 1),
    {
        self.bus_write(address, bytes)
    }

    /// A complete write-then-read transfer; see [`BitbangCore::bus_write_read`].
    fn write_read(&mut self, address: u8, bytes: &[u8], buffer: &mut [u8]) -> (r: Result<(), Error>)
        ensures
            final(self).timeouts() >= old(self).timeouts(),
            (r == Err::<(), Error>(Error::Bus)) == (final(self).timeouts() > old(self).timeouts()),
            left_stopped(final(self).events()),
            final(buffer)@.len() == old(buffer)@.len(),
            r is Ok ==> {
                let n = sda_samples(old(self).events()).len() as int;
                let m = n + 2 + bytes@.len() as int;
                &&& drives(final(self).events()) == drives(old(self).events()) + start_drives()
                    + write_byte_drives(address_byte(address, false)) + bytes_drives(bytes@)
                    + start_drives() + write_byte_drives(address_byte(address, true))
                    + receive_drives(old(buffer)@.len() as int, old(buffer)@.len() as int)
                    + stop_drives()
                &&& sda_samples(final(self).events()).subrange(0, m) == sda_samples(
                    old(self).events(),
                ) + acks(2 + bytes@.len() as int)
                &&& bytes_sampled(final(buffer)@, sda_samples(final(self).events()), m)
            },
            r == Err::<(), Error>(Error::AddressNack) ==> {
                ||| drives(final(self).events()) == drives(old(self).events()) + nacked_write_drives(
                    address,
                    bytes@,
                    0,
                )
                ||| drives(final(self).events()) == drives(old(self).events()) + start_drives()
                    + write_byte_drives(address_byte(address, false)) + bytes_drives(bytes@)
                    + start_drives() + write_byte_drives(address_byte(address, true))
                    + stop_drives()
            },
            r == Err::<(), Error>(Error::DataNack) ==> exists|j: int|
                0 <= j < bytes@.len() && drives(final(self).events()) == drives(old(self).events())
                    + #[trigger] nacked_write_drives(address, bytes@, j + 1),
            r == Err::<(), Error>(Error::Bus) ==> stopped_within(
                drives(old(self).events()) + (start_drives() + write_read_body(
                    address,
                    bytes@,
                    old(buffer)@.len() as int,
                )),
                final(self).events(),
            ),
    {
        self.bus_write_read(address, bytes, buffer)
    }
}

/// A line level as the probe report writes it.
pub open spec fn level_text(high: bool) -> Seq<char> {
    if high {
        "HIGH"@
    } else {
        "LOW"@
    }
}

/// The report line of an address probe: the AD0 strap state as given, the
/// 7-bit address, whether it was acknowledged, and the idle line levels.
pub fn address_probe_line(ad0_state: &str, address: u8, probe: AddressProbe) -> (line: String)
    ensures
        line@ == "bitbang_i2c ad0="@ + ad0_state@ + " address=0x"@ + hex_fixed(address as nat, 2)
            + " ack="@ + flag_text(probe.ack) + " scl_idle="@ + level_text(probe.scl_idle_high)
            + " sda_idle="@ + level_text(probe.sda_idle_high),
{
    let mut s = String::new();
    push_str(&mut s, "bitbang_i2c ad0=");
    push_str(&mut s, ad0_state);
    push_str(&mut s, " address=0x");
    push_hex_fixed(&mut s, address as u64, 2);
    push_str(&mut s, " ack=");
    push_flag(&mut s, probe.ack);
    push_str(&mut s, " scl_idle=");
    push_str(&mut s, if probe.scl_idle_high { "HIGH" } else { "LOW" });
    push_str(&mut s, " sda_idle=");
    push_str(&mut s, if probe.sda_idle_high { "HIGH" } else { "LOW" });
    s
}

} // verus!
