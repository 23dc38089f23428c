//! The binary motion-frame format: CRC-16/CCITT-FALSE, the frame encoder and
//! a resynchronising stream decoder.
//!
//! A frame is 38 bytes, little-endian: the magic `"IM"`, version 1, payload
//! length 32, then the device address, a reserved byte, the sequence number
//! (u64), the timestamp in microseconds (u64), seven i16 counts (accel x/y/z,
//! temperature, gyro x/y/z), and the CRC of the 36 preceding bytes.
use crate::text::{decimal, hex_fixed, push_decimal, push_hex_fixed, push_str};
use vstd::prelude::*;

verus! {

pub const BINARY_FRAME_MAGIC_0: u8 = 0x49;
pub const BINARY_FRAME_MAGIC_1: u8 = 0x4D;
pub const BINARY_FRAME_VERSION: u8 = 1;
pub const BINARY_FRAME_PAYLOAD_LEN: u8 = 32;
pub const BINARY_FRAME_LEN: usize = 38;

/// One CRC-16/CCITT-FALSE shift step: polynomial 0x1021, MSB first.
pub open spec fn crc_bit(crc: u16) -> u16 {
    if crc & 0x8000 != 0 {
        ((crc << 1u16) ^ 0x1021) as u16
    } else {
        (crc << 1u16) as u16
    }
}

/// `n` shift steps.
pub open spec fn crc_bits(crc: u16, n: nat) -> u16
    decreases n,
{
    if n == 0 {
        crc
    } else {
        crc_bit(crc_bits(crc, (n - 1) as nat))
    }
}

/// The register after feeding one byte.
pub open spec fn crc_byte(crc: u16, byte: u8) -> u16 {
    crc_bits(crc ^ ((byte as u16) << 8u16), 8)
}

/// CRC-16/CCITT-FALSE of `data`: initial value 0xFFFF, no reflection, no final
/// XOR.
pub open spec fn crc16_spec(data: Seq<u8>) -> u16
    decreases data.len(),
{
    if data.len() == 0 {
        0xffff
    } else {
        crc_byte(crc16_spec(data.drop_last()), data.last())
    }
}

/// Feeding a register its own two bytes, most significant first, clears it.
proof fn lemma_crc_own_bytes(c: u16)
    ensures
        crc_byte(crc_byte(c, (c >> 8u16) as u8), (c & 0xffu16) as u8) == 0,
{
    reveal_with_fuel(crc_bits, 9);
    let hi = (c >> 8u16) as u8;
    let lo = (c & 0xffu16) as u8;
    let x0 = c ^ ((hi as u16) << 8u16);
    let x1 = crc_bit(x0);
    let x2 = crc_bit(x1);
    let x3 = crc_bit(x2);
    let x4 = crc_bit(x3);
    let x5 = crc_bit(x4);
    let x6 = crc_bit(x5);
    let x7 = crc_bit(x6);
    let x8 = crc_bit(x7);
    assert(crc_byte(c, hi) == x8);
    let y0 = x8 ^ ((lo as u16) << 8u16);
    let y1 = crc_bit(y0);
    let y2 = crc_bit(y1);
    let y3 = crc_bit(y2);
    let y4 = crc_bit(y3);
    let y5 = crc_bit(y4);
    let y6 = crc_bit(y5);
    let y7 = crc_bit(y6);
    let y8 = crc_bit(y7);
    assert(crc_byte(x8, lo) == y8);
    assert(y8 == 0) by (bit_vector)
        requires
            hi == (c >> 8u16) as u8,
            lo == (c & 0xffu16) as u8,
            x0 == c ^ ((hi as u16) << 8u16),
            x1 == if x0 & 0x8000 != 0 { ((x0 << 1u16) ^ 0x1021) as u16 } else { (x0 << 1u16) as u16 },
            x2 == if x1 & 0x8000 != 0 { ((x1 << 1u16) ^ 0x1021) as u16 } else { (x1 << 1u16) as u16 },
            x3 == if x2 & 0x8000 != 0 { ((x2 << 1u16) ^ 0x1021) as u16 } else { (x2 << 1u16) as u16 },
            x4 == if x3 & 0x8000 != 0 { ((x3 << 1u16) ^ 0x1021) as u16 } else { (x3 << 1u16) as u16 },
            x5 == if x4 & 0x8000 != 0 { ((x4 << 1u16) ^ 0x1021) as u16 } else { (x4 << 1u16) as u16 },
            x6 == if x5 & 0x8000 != 0 { ((x5 << 1u16) ^ 0x1021) as u16 } else { (x5 << 1u16) as u16 },
            x7 == if x6 & 0x8000 != 0 { ((x6 << 1u16) ^ 0x1021) as u16 } else { (x6 << 1u16) as u16 },
            x8 == if x7 & 0x8000 != 0 { ((x7 << 1u16) ^ 0x1021) as u16 } else { (x7 << 1u16) as u16 },
            y0 == x8 ^ ((lo as u16) << 8u16),
            y1 == if y0 & 0x8000 != 0 { ((y0 << 1u16) ^ 0x1021) as u16 } else { (y0 << 1u16) as u16 },
            y2 == if y1 & 0x8000 != 0 { ((y1 << 1u16) ^ 0x1021) as u16 } else { (y1 << 1u16) as u16 },
            y3 == if y2 & 0x8000 != 0 { ((y2 << 1u16) ^ 0x1021) as u16 } else { (y2 << 1u16) as u16 },
            y4 == if y3 & 0x8000 != 0 { ((y3 << 1u16) ^ 0x1021) as u16 } else { (y3 << 1u16) as u16 },
            y5 == if y4 & 0x8000 != 0 { ((y4 << 1u16) ^ 0x1021) as u16 } else { (y4 << 1u16) as u16 },
            y6 == if y5 & 0x8000 != 0 { ((y5 << 1u16) ^ 0x1021) as u16 } else { (y5 << 1u16) as u16 },
            y7 == if y6 & 0x8000 != 0 { ((y6 << 1u16) ^ 0x1021) as u16 } else { (y6 << 1u16) as u16 },
            y8 == if y7 & 0x8000 != 0 { ((y7 << 1u16) ^ 0x1021) as u16 } else { (y7 << 1u16) as u16 },
    ;
}

/// Appending the CRC of `data` to it, most significant byte first, gives a
/// message whose CRC is zero.
pub proof fn lemma_crc_zero_residue(data: Seq<u8>)
    ensures
        crc16_spec(
            data + seq![(crc16_spec(data) >> 8u16) as u8, (crc16_spec(data) & 0xffu16) as u8],
        ) == 0,
{
    let c = crc16_spec(data);
    let hi = (c >> 8u16) as u8;
    let lo = (c & 0xffu16) as u8;
    let m = data + seq![hi, lo];
    assert(m.drop_last() =~= data.push(hi));
    assert(data.push(hi).drop_last() =~= data);
    assert(crc16_spec(data.push(hi)) == crc_byte(c, hi));
    assert(crc16_spec(m) == crc_byte(crc_byte(c, hi), lo));
    lemma_crc_own_bytes(c);
}

/// CRC-16/CCITT-FALSE of `data`.
pub fn crc16_ccitt_false(data: &[u8]) -> (crc: u16)
    ensures
        crc == crc16_spec(data@),
{
    let mut crc: u16 = 0xffff;
    let mut i: usize = 0;
    while i < data.len()
        invariant
            i <= data@.len(),
            crc == crc16_spec(data@.subrange(0, i as int)),
        decreases data@.len() - i,
    {
        let ghost start = crc ^ ((data[i as int] as u16) << 8u16);
        crc = crc ^ ((data[i] as u16) << 8u16);
        let mut j: usize = 0;
        while j < 8
            invariant
                j <= 8,
                crc == crc_bits(start, j as nat),
            decreases 8 - j,
        {
            crc = if crc & 0x8000 != 0 {
                (crc << 1u16) ^ 0x1021
            } else {
                crc << 1u16
            };
            j += 1;
        }
        proof {
            let s = data@.subrange(0, i + 1);
            assert(s.drop_last() =~= data@.subrange(0, i as int));
            assert(s.last() == data@[i as int]);
        }
        i += 1;
    }
    proof {
        assert(data@.subrange(0, data@.len() as int) =~= data@);
    }
    crc
}

/// The fields a frame carries.
#[derive(Clone, Copy, Debug, PartialEq, Eq)]
pub struct BinaryFrame {
    pub address: u8,
    pub sequence: u64,
    pub timestamp_us: u64,
    pub accel: [i16; 3],
    pub temp: i16,
    pub gyro: [i16; 3],
}

/// Little-endian bytes of a u64.
pub open spec fn le_u64_bytes(v: u64) -> Seq<u8> {
    seq![
        v as u8,
        (v >> 8u64) as u8,
        (v >> 16u64) as u8,
        (v >> 24u64) as u8,
        (v >> 32u64) as u8,
        (v >> 40u64) as u8,
        (v >> 48u64) as u8,
        (v >> 56u64) as u8,
    ]
}

/// Little-endian bytes of an i16 (two's complement).
pub open spec fn le_i16_bytes(v: i16) -> Seq<u8> {
    seq![(v as u16) as u8, ((v as u16) >> 8u16) as u8]
}

/// Little-endian bytes of a u16.
pub open spec fn le_u16_bytes(v: u16) -> Seq<u8> {
    seq![v as u8, (v >> 8u16) as u8]
}

/// The 36 bytes of a frame that the CRC covers.
pub open spec fn frame_body(f: BinaryFrame) -> Seq<u8> {
    seq![BINARY_FRAME_MAGIC_0, BINARY_FRAME_MAGIC_1, BINARY_FRAME_VERSION, BINARY_FRAME_PAYLOAD_LEN, f.address, 0u8]
        + le_u64_bytes(f.sequence) + le_u64_bytes(f.timestamp_us) + le_i16_bytes(f.accel[0])
        + le_i16_bytes(f.accel[1]) + le_i16_bytes(f.accel[2]) + le_i16_bytes(f.temp)
        + le_i16_bytes(f.gyro[0]) + le_i16_bytes(f.gyro[1]) + le_i16_bytes(f.gyro[2])
}

/// The 38 bytes that encode a frame.
pub open spec fn frame_bytes(f: BinaryFrame) -> Seq<u8> {
    frame_body(f) + le_u16_bytes(crc16_spec(frame_body(f)))
}

fn push_u64_le(out: &mut Vec<u8>, v: u64)
    ensures
        final(out)@ == old(out)@ + le_u64_bytes(v),
{
    out.push(v as u8);
    out.push((v >> 8u64) as u8);
    out.push((v >> 16u64) as u8);
    out.push((v >> 24u64) as u8);
    out.push((v >> 32u64) as u8);
    out.push((v >> 40u64) as u8);
    out.push((v >> 48u64) as u8);
    out.push((v >> 56u64) as u8);
    proof {
        assert(final(out)@ =~= old(out)@ + le_u64_bytes(v));
    }
}

fn push_i16_le(out: &mut Vec<u8>, v: i16)
    ensures
        final(out)@ == old(out)@ + le_i16_bytes(v),
{
    let w = v as u16;
    out.push(w as u8);
    out.push((w >> 8u16) as u8);
    proof {
        assert(final(out)@ =~= old(out)@ + le_i16_bytes(v));
    }
}

/// Encodes a frame: the header, the fields, and the CRC of everything before it.
pub fn encode_binary_frame(
    address: u8,
    sequence: u64,
    timestamp_us: u64,
    accel: [i16; 3],
    temp: i16,
    gyro: [i16; 3],
) -> (b: Vec<u8>)
    ensures
        b@ == frame_bytes(BinaryFrame { address, sequence, timestamp_us, accel, temp, gyro }),
        b@.len() == BINARY_FRAME_LEN,
{
    let ghost f = BinaryFrame { address, sequence, timestamp_us, accel, temp, gyro };
    let mut b: Vec<u8> = Vec::new();
    b.push(BINARY_FRAME_MAGIC_0);
    b.push(BINARY_FRAME_MAGIC_1);
    b.push(BINARY_FRAME_VERSION);
    b.push(BINARY_FRAME_PAYLOAD_LEN);
    b.push(address);
    b.push(0);
    push_u64_le(&mut b, sequence);
    push_u64_le(&mut b, timestamp_us);
    push_i16_le(&mut b, accel[0]);
    push_i16_le(&mut b, accel[1]);
    push_i16_le(&mut b, accel[2]);
    push_i16_le(&mut b, temp);
    push_i16_le(&mut b, gyro[0]);
    push_i16_le(&mut b, gyro[1]);
    push_i16_le(&mut b, gyro[2]);
    proof {
        assert(b@ =~= frame_body(f));
    }
    let crc = crc16_ccitt_false(b.as_slice());
    b.push(crc as u8);
    b.push((crc >> 8u16) as u8);
    proof {
        assert(b@ =~= frame_bytes(f));
    }
    b
}

impl BinaryFrame {
    /// The 38 bytes of this frame; see [`encode_binary_frame`].
    pub fn encode(&self) -> (b: Vec<u8>)
        ensures
            b@ == frame_bytes(*self),
    {
        encode_binary_frame(self.address, self.sequence, self.timestamp_us, self.accel, self.temp, self.gyro)
    }
}

/// The u64 stored little-endian at `b[off..off + 8]`.
pub open spec fn u64_le_at(b: Seq<u8>, off: int) -> u64 {
    (b[off] as u64) | ((b[off + 1] as u64) << 8u64) | ((b[off + 2] as u64) << 16u64) | ((b[off
        + 3] as u64) << 24u64) | ((b[off + 4] as u64) << 32u64) | ((b[off + 5] as u64) << 40u64)
        | ((b[off + 6] as u64) << 48u64) | ((b[off + 7] as u64) << 56u64)
}

/// The u16 stored little-endian at `b[off..off + 2]`.
pub open spec fn u16_le_at(b: Seq<u8>, off: int) -> u16 {
    (b[off] as u16) | ((b[off + 1] as u16) << 8u16)
}

/// The i16 stored little-endian at `b[off..off + 2]`.
pub open spec fn i16_le_at(b: Seq<u8>, off: int) -> i16 {
    u16_le_at(b, off) as i16
}

/// The fields of the frame that starts at `b[0]`.
pub open spec fn frame_at(b: Seq<u8>) -> BinaryFrame {
    BinaryFrame {
        address: b[4],
        sequence: u64_le_at(b, 6),
        timestamp_us: u64_le_at(b, 14),
        accel: [i16_le_at(b, 22), i16_le_at(b, 24), i16_le_at(b, 26)],
        temp: i16_le_at(b, 28),
        gyro: [i16_le_at(b, 30), i16_le_at(b, 32), i16_le_at(b, 34)],
    }
}

/// A warning raised while decoding a byte stream.
#[derive(Clone, Copy, Debug, PartialEq, Eq)]
pub enum DecodeWarning {
    /// Bytes dropped while looking for the magic.
    Discarded { count: usize },
    /// A magic followed by another version or payload length.
    BadHeader { version: u8, length: u8 },
    /// A frame whose stored CRC differs from the CRC of its bytes.
    CrcMismatch { got: u16, expected: u16 },
    /// A sequence number that does not follow the previous frame's.
    SequenceGap { previous: u64, current: u64 },
    /// A CRC-valid frame whose gyroscope reads -1 on every axis and/or that has
    /// a count pinned at `i16::MIN` or `i16::MAX`.
    Suspicious { address: u8, sequence: u64, gyro_all_minus_one: bool, sentinel_field: bool },
}

/// The text of a warning, as the decoding tools print it.
pub open spec fn warning_text(w: DecodeWarning) -> Seq<char> {
    match w {
        DecodeWarning::Discarded { count } => "discarded "@ + decimal(count as nat)
            + " byte(s) before magic"@,
        DecodeWarning::BadHeader { version, length } => "bad header version="@ + decimal(
            version as nat,
        ) + " length="@ + decimal(length as nat),
        DecodeWarning::CrcMismatch { got, expected } => "crc mismatch got=0x"@ + hex_fixed(
            got as nat,
            4,
        ) + " expected=0x"@ + hex_fixed(expected as nat, 4),
        DecodeWarning::SequenceGap { previous, current } => "sequence gap previous="@ + decimal(
            previous as nat,
        ) + " current="@ + decimal(current as nat),
        DecodeWarning::Suspicious { address, sequence, gyro_all_minus_one, sentinel_field } =>
            "suspicious sample address=0x"@ + hex_fixed(address as nat, 2) + " sequence="@
            + decimal(sequence as nat) + ": "@ + if gyro_all_minus_one && sentinel_field {
            "gyro all -1; sentinel i16 min/max field"@
        } else if gyro_all_minus_one {
            "gyro all -1"@
        } else {
            "sentinel i16 min/max field"@
        },
    }
}

impl DecodeWarning {
    /// The warning's text.
    pub fn message(&self) -> (s: String)
        ensures
            s@ == warning_text(*self),
    {
        let mut s = String::new();
        match *self {
            DecodeWarning::Discarded { count } => {
                push_str(&mut s, "discarded ");
                push_decimal(&mut s, count as u64);
                push_str(&mut s, " byte(s) before magic");
            },
            DecodeWarning::BadHeader { version, length } => {
                push_str(&mut s, "bad header version=");
                push_decimal(&mut s, version as u64);
                push_str(&mut s, " length=");
                push_decimal(&mut s, length as u64);
            },
            DecodeWarning::CrcMismatch { got, expected } => {
                push_str(&mut s, "crc mismatch got=0x");
                push_hex_fixed(&mut s, got as u64, 4);
                push_str(&mut s, " expected=0x");
                push_hex_fixed(&mut s, expected as u64, 4);
            },
            DecodeWarning::SequenceGap { previous, current } => {
                push_str(&mut s, "sequence gap previous=");
                push_decimal(&mut s, previous);
                push_str(&mut s, " current=");
                push_decimal(&mut s, current);
            },
            DecodeWarning::Suspicious { address, sequence, gyro_all_minus_one, sentinel_field } => {
                push_str(&mut s, "suspicious sample address=0x");
                push_hex_fixed(&mut s, address as u64, 2);
                push_str(&mut s, " sequence=");
                push_decimal(&mut s, sequence);
                push_str(&mut s, ": ");
                if gyro_all_minus_one && sentinel_field {
                    push_str(&mut s, "gyro all -1; sentinel i16 min/max field");
                } else if gyro_all_minus_one {
                    push_str(&mut s, "gyro all -1");
                } else {
                    push_str(&mut s, "sentinel i16 min/max field");
                }
            },
        }
        s
    }
}

/// What the decoder reports, in stream order.
#[derive(Clone, Copy, Debug, PartialEq, Eq)]
pub enum DecodeEvent {
    Sample(BinaryFrame),
    Warning(DecodeWarning),
}

/// Every gyroscope axis of the frame reads -1.
pub open spec fn frame_gyro_all_minus_one(f: BinaryFrame) -> bool {
    f.gyro[0] == -1 && f.gyro[1] == -1 && f.gyro[2] == -1
}

/// Some count of the frame is pinned at the end of the `i16` range.
pub open spec fn frame_has_sentinel(f: BinaryFrame) -> bool {
    let pinned = |v: i16| v == i16::MIN || v == i16::MAX;
    pinned(f.accel[0]) || pinned(f.accel[1]) || pinned(f.accel[2]) || pinned(f.temp) || pinned(
        f.gyro[0],
    ) || pinned(f.gyro[1]) || pinned(f.gyro[2])
}

/// The events a CRC-valid frame `f` raises after a frame numbered `last`: a
/// sequence-gap warning, a suspicious-sample warning, then the sample.
pub open spec fn frame_events(f: BinaryFrame, last: Option<u64>) -> Seq<DecodeEvent> {
    let gap = match last {
        Some(p) => if f.sequence != p.wrapping_add(1) {
            seq![DecodeEvent::Warning(DecodeWarning::SequenceGap { previous: p, current: f.sequence })]
        } else {
            Seq::empty()
        },
        None => Seq::empty(),
    };
    let suspicious = if frame_gyro_all_minus_one(f) || frame_has_sentinel(f) {
        seq![
            DecodeEvent::Warning(
                DecodeWarning::Suspicious {
                    address: f.address,
                    sequence: f.sequence,
                    gyro_all_minus_one: frame_gyro_all_minus_one(f),
                    sentinel_field: frame_has_sentinel(f),
                },
            ),
        ]
    } else {
        Seq::empty()
    };
    gap + suspicious + seq![DecodeEvent::Sample(f)]
}

/// A magic starts at `b[i]`.
pub open spec fn magic_at(b: Seq<u8>, i: int) -> bool {
    0 <= i && i + 1 < b.len() && b[i] == BINARY_FRAME_MAGIC_0 && b[i + 1] == BINARY_FRAME_MAGIC_1
}

/// The first magic at or after `from`.
pub open spec fn find_magic(b: Seq<u8>, from: int) -> Option<int>
    decreases b.len() - from,
{
    if from < 0 || from + 1 >= b.len() {
        None
    } else if magic_at(b, from) {
        Some(from)
    } else {
        find_magic(b, from + 1)
    }
}

/// `find_magic` returns the first magic at or after `from`.
pub proof fn lemma_find_magic(b: Seq<u8>, from: int)
    requires
        0 <= from,
    ensures
        match find_magic(b, from) {
            Some(p) => from <= p && p + 1 < b.len() && magic_at(b, p) && forall|i: int|
                from <= i < p ==> !magic_at(b, i),
            None => forall|i: int| from <= i ==> !magic_at(b, i),
        },
    decreases b.len() - from,
{
    if from + 1 < b.len() && !magic_at(b, from) {
        lemma_find_magic(b, from + 1);
    }
}

/// Decodes the buffered bytes `b` after a frame numbered `last`: the events,
/// the bytes kept for later, and the sequence number of the last frame.
///
/// Bytes before the first magic are dropped with a warning (all of them when
/// there is no magic). A magic with fewer than 38 bytes from it waits for more.
/// A bad header or CRC drops one byte and resynchronises; a good frame is
/// reported and consumed.
pub open spec fn decode_stream(b: Seq<u8>, last: Option<u64>) -> (Seq<DecodeEvent>, Seq<u8>, Option<u64>)
    decreases b.len(),
{
    match find_magic(b, 0) {
        None => (
            if b.len() > 0 {
                seq![DecodeEvent::Warning(DecodeWarning::Discarded { count: b.len() as usize })]
            } else {
                Seq::empty()
            },
            Seq::empty(),
            last,
        ),
        Some(pos) => {
            proof {
                lemma_find_magic(b, 0);
            }
            let pre = if pos > 0 {
                seq![DecodeEvent::Warning(DecodeWarning::Discarded { count: pos as usize })]
            } else {
                Seq::empty()
            };
            let f = b.subrange(pos, b.len() as int);
            if f.len() < BINARY_FRAME_LEN {
                (pre, f, last)
            } else if f[2] != BINARY_FRAME_VERSION || f[3] != BINARY_FRAME_PAYLOAD_LEN {
                let rest = decode_stream(f.drop_first(), last);
                (
                    pre + seq![DecodeEvent::Warning(DecodeWarning::BadHeader { version: f[2], length: f[3] })]
                        + rest.0,
                    rest.1,
                    rest.2,
                )
            } else if u16_le_at(f, 36) != crc16_spec(f.subrange(0, 36)) {
                let rest = decode_stream(f.drop_first(), last);
                (
                    pre + seq![
                        DecodeEvent::Warning(
                            DecodeWarning::CrcMismatch {
                                got: u16_le_at(f, 36),
                                expected: crc16_spec(f.subrange(0, 36)),
                            },
                        ),
                    ] + rest.0,
                    rest.1,
                    rest.2,
                )
            } else {
                let frame = frame_at(f);
                let rest = decode_stream(f.subrange(BINARY_FRAME_LEN as int, f.len() as int), Some(frame.sequence));
                (pre + frame_events(frame, last) + rest.0, rest.1, rest.2)
            }
        },
    }
}

/// Reassembles frames from a byte stream that arrives in arbitrary pieces.
pub struct BinaryFrameDecoder {
    buf: Vec<u8>,
    last_seq: Option<u64>,
}

fn find_magic_exec(b: &Vec<u8>) -> (r: Option<usize>)
    ensures
        match r {
            Some(p) => find_magic(b@, 0) == Some(p as int),
            None => find_magic(b@, 0) is None,
        },
{
    let mut i: usize = 0;
    while i < b.len() && i + 1 < b.len()
        invariant
            i <= b@.len(),
            find_magic(b@, 0) == find_magic(b@, i as int),
        decreases b@.len() - i,
    {
        if b[i] == BINARY_FRAME_MAGIC_0 && b[i + 1] == BINARY_FRAME_MAGIC_1 {
            return Some(i);
        }
        i += 1;
    }
    None
}

fn drop_front(v: &mut Vec<u8>, n: usize)
    requires
        n <= old(v)@.len(),
    ensures
        final(v)@ == old(v)@.subrange(n as int, old(v)@.len() as int),
{
    let mut rest: Vec<u8> = Vec::new();
    let mut i: usize = n;
    while i < v.len()
        invariant
            n <= i <= v@.len(),
            rest@ == v@.subrange(n as int, i as int),
        decreases v@.len() - i,
    {
        rest.push(v[i]);
        proof {
            assert(rest@ =~= v@.subrange(n as int, i + 1));
        }
        i += 1;
    }
    *v = rest;
}

fn u64_le_exec(b: &Vec<u8>, off: usize) -> (r: u64)
    requires
        off + 8 <= b.len(),
    ensures
        r == u64_le_at(b@, off as int),
{
    (b[off] as u64) | ((b[off + 1] as u64) << 8u64) | ((b[off + 2] as u64) << 16u64) | ((b[off
        + 3] as u64) << 24u64) | ((b[off + 4] as u64) << 32u64) | ((b[off + 5] as u64) << 40u64)
        | ((b[off + 6] as u64) << 48u64) | ((b[off + 7] as u64) << 56u64)
}

fn u16_le_exec(b: &Vec<u8>, off: usize) -> (r: u16)
    requires
        off + 2 <= b.len(),
    ensures
        r == u16_le_at(b@, off as int),
{
    (b[off] as u16) | ((b[off + 1] as u16) << 8u16)
}

fn i16_le_exec(b: &Vec<u8>, off: usize) -> (r: i16)
    requires
        off + 2 <= b.len(),
    ensures
        r == i16_le_at(b@, off as int),
{
    u16_le_exec(b, off) as i16
}

fn is_pinned(v: i16) -> (r: bool)
    ensures
        r == (v == i16::MIN || v == i16::MAX),
{
    v == i16::MIN || v == i16::MAX
}

impl BinaryFrameDecoder {
    /// Bytes received but not yet decoded.
    pub closed spec fn pending(&self) -> Seq<u8> {
        self.buf@
    }

    /// Sequence number of the last frame decoded, if any.
    pub closed spec fn last_sequence(&self) -> Option<u64> {
        self.last_seq
    }

    /// A decoder with nothing buffered and no frame seen.
    pub fn new() -> (d: BinaryFrameDecoder)
        ensures
            d.pending() == Seq::<u8>::empty(),
            d.last_sequence() is None,
    {
        BinaryFrameDecoder { buf: Vec::new(), last_seq: None }
    }

    /// Appends `bytes` to the buffered stream and decodes all it can; see
    /// [`decode_stream`].
    pub fn push(&mut self, bytes: &[u8]) -> (ev: Vec<DecodeEvent>)
        ensures
            ({
                let d = decode_stream(old(self).pending() + bytes@, old(self).last_sequence());
                &&& ev@ == d.0
                &&& final(self).pending() == d.1
                &&& final(self).last_sequence() == d.2
            }),
    {
        let ghost all = self.buf@ + bytes@;
        let ghost last0 = self.last_seq;
        let mut k: usize = 0;
        while k < bytes.len()
            invariant
                k <= bytes@.len(),
                self.buf@ == old(self).buf@ + bytes@.subrange(0, k as int),
                self.last_seq == last0,
            decreases bytes@.len() - k,
        {
            self.buf.push(bytes[k]);
            proof {
                assert(old(self).buf@ + bytes@.subrange(0, k + 1) =~= (old(self).buf@ + bytes@.subrange(0, k as int)).push(bytes@[k as int]));
            }
            k += 1;
        }
        proof {
            assert(bytes@.subrange(0, bytes@.len() as int) =~= bytes@);
        }
        let mut ev: Vec<DecodeEvent> = Vec::new();
        loop
            invariant
                ({
                    let d = decode_stream(all, last0);
                    let r = decode_stream(self.buf@, self.last_seq);
                    &&& d.0 == ev@ + r.0
                    &&& d.1 == r.1
                    &&& d.2 == r.2
                }),
            ensures
                ({
                    let d = decode_stream(all, last0);
                    &&& d.0 == ev@
                    &&& d.1 == self.buf@
                    &&& d.2 == self.last_seq
                }),
            decreases self.buf@.len(),
        {
            let ghost b0 = self.buf@;
            let ghost ev0 = ev@;
            let ghost last = self.last_seq;
            let pos = match find_magic_exec(&self.buf) {
                None => {
                    if self.buf.len() > 0 {
                        ev.push(DecodeEvent::Warning(DecodeWarning::Discarded { count: self.buf.len() }));
                        self.buf = Vec::new();
                    }
                    proof {
                        assert(ev@ =~= ev0 + decode_stream(b0, last).0);
                    }
                    break;
                },
                Some(pos) => pos,
            };
            proof {
                lemma_find_magic(b0, 0);
                assert(find_magic(b0, 0) == Some(pos as int));
                assert(magic_at(b0, pos as int));
            }
            if pos > 0 {
                drop_front(&mut self.buf, pos);
                ev.push(DecodeEvent::Warning(DecodeWarning::Discarded { count: pos }));
            }
            let ghost pre = ev@.subrange(ev0.len() as int, ev@.len() as int);
            proof {
                assert(self.buf@ =~= b0.subrange(pos as int, b0.len() as int));
                assert(ev@ =~= ev0 + pre);
            }
            if self.buf.len() < BINARY_FRAME_LEN {
                proof {
                    assert(ev@ + decode_stream(self.buf@, last).0 =~= ev0 + decode_stream(b0, last).0) by {
                        assert(decode_stream(self.buf@, last).0 =~= Seq::<DecodeEvent>::empty()) by {
                            assert(magic_at(self.buf@, 0));
                            assert(find_magic(self.buf@, 0) == Some(0int));
                        }
                    }
                }
                break;
            }
            if self.buf[2] != BINARY_FRAME_VERSION || self.buf[3] != BINARY_FRAME_PAYLOAD_LEN {
                ev.push(DecodeEvent::Warning(DecodeWarning::BadHeader { version: self.buf[2], length: self.buf[3] }));
                drop_front(&mut self.buf, 1);
                proof {
                    assert(self.buf@ =~= b0.subrange(pos as int, b0.len() as int).drop_first());
                    assert(ev@ + decode_stream(self.buf@, last).0 =~= ev0 + decode_stream(b0, last).0);
                }
                continue;
            }
            let got = u16_le_exec(&self.buf, 36);
            let mut body: Vec<u8> = Vec::new();
            let mut j: usize = 0;
            while j < 36
                invariant
                    j <= 36,
                    36 < self.buf@.len(),
                    body@ == self.buf@.subrange(0, j as int),
                decreases 36 - j,
            {
                body.push(self.buf[j]);
                proof {
                    assert(body@ =~= self.buf@.subrange(0, j + 1));
                }
                j += 1;
            }
            let want = crc16_ccitt_false(body.as_slice());
            if got != want {
                ev.push(DecodeEvent::Warning(DecodeWarning::CrcMismatch { got, expected: want }));
                drop_front(&mut self.buf, 1);
                proof {
                    assert(self.buf@ =~= b0.subrange(pos as int, b0.len() as int).drop_first());
                    assert(ev@ + decode_stream(self.buf@, last).0 =~= ev0 + decode_stream(b0, last).0);
                }
                continue;
            }
            let frame = BinaryFrame {
                address: self.buf[4],
                sequence: u64_le_exec(&self.buf, 6),
                timestamp_us: u64_le_exec(&self.buf, 14),
                accel: [i16_le_exec(&self.buf, 22), i16_le_exec(&self.buf, 24), i16_le_exec(&self.buf, 26)],
                temp: i16_le_exec(&self.buf, 28),
                gyro: [i16_le_exec(&self.buf, 30), i16_le_exec(&self.buf, 32), i16_le_exec(&self.buf, 34)],
            };
            proof {
                assert(frame == frame_at(self.buf@));
            }
            if let Some(prev) = self.last_seq {
                if frame.sequence != prev.wrapping_add(1) {
                    ev.push(DecodeEvent::Warning(DecodeWarning::SequenceGap { previous: prev, current: frame.sequence }));
                }
            }
            self.last_seq = Some(frame.sequence);
            let gyro_all = frame.gyro[0] == -1 && frame.gyro[1] == -1 && frame.gyro[2] == -1;
            let sentinel = is_pinned(frame.accel[0]) || is_pinned(frame.accel[1]) || is_pinned(frame.accel[2])
                || is_pinned(frame.temp) || is_pinned(frame.gyro[0]) || is_pinned(frame.gyro[1]) || is_pinned(frame.gyro[2]);
            if gyro_all || sentinel {
                ev.push(DecodeEvent::Warning(DecodeWarning::Suspicious {
                    address: frame.address,
                    sequence: frame.sequence,
                    gyro_all_minus_one: gyro_all,
                    sentinel_field: sentinel,
                }));
            }
            ev.push(DecodeEvent::Sample(frame));
            let ghost fb = self.buf@;
            drop_front(&mut self.buf, BINARY_FRAME_LEN);
            proof {
                assert(fb =~= b0.subrange(pos as int, b0.len() as int));
                assert(ev@ =~= ev0 + pre + frame_events(frame, last));
                assert(ev@ + decode_stream(self.buf@, self.last_seq).0 =~= ev0 + decode_stream(b0, last).0);
            }
        }
        ev
    }
}

proof fn lemma_u64_le_round_trip(v: u64)
    ensures
        ((v as u8) as u64) | (((v >> 8u64) as u8) as u64) << 8u64 | (((v >> 16u64) as u8) as u64) << 16u64
            | (((v >> 24u64) as u8) as u64) << 24u64 | (((v >> 32u64) as u8) as u64) << 32u64 | (((v
            >> 40u64) as u8) as u64) << 40u64 | (((v >> 48u64) as u8) as u64) << 48u64 | (((v
            >> 56u64) as u8) as u64) << 56u64 == v,
{
    assert(((v as u8) as u64) | (((v >> 8u64) as u8) as u64) << 8u64 | (((v >> 16u64) as u8) as u64) << 16u64
            | (((v >> 24u64) as u8) as u64) << 24u64 | (((v >> 32u64) as u8) as u64) << 32u64 | (((v
            >> 40u64) as u8) as u64) << 40u64 | (((v >> 48u64) as u8) as u64) << 48u64 | (((v
            >> 56u64) as u8) as u64) << 56u64 == v) by (bit_vector);
}

proof fn lemma_u16_le_round_trip(v: u16)
    ensures
        ((v as u8) as u16) | (((v >> 8u16) as u8) as u16) << 8u16 == v,
{
    assert(((v as u8) as u16) | (((v >> 8u16) as u8) as u16) << 8u16 == v) by (bit_vector);
}

proof fn lemma_i16_le_round_trip(v: i16)
    ensures
        ((((v as u16) as u8) as u16) | ((((v as u16) >> 8u16) as u8) as u16) << 8u16) as i16 == v,
{
    assert(((((v as u16) as u8) as u16) | ((((v as u16) >> 8u16) as u8) as u16) << 8u16) as i16 == v) by (bit_vector);
}

/// Decoding the bytes of a frame, after any previous frame, gives back that
/// frame's events (its sample, preceded by any gap or suspicious warning) and
/// leaves nothing buffered.
pub proof fn lemma_frame_round_trip(f: BinaryFrame, last: Option<u64>)
    ensures
        decode_stream(frame_bytes(f), last) == (frame_events(f, last), Seq::<u8>::empty(), Some(f.sequence)),
        frame_bytes(f).len() == BINARY_FRAME_LEN,
{
    let b = frame_bytes(f);
    assert(b.len() == 38);
    assert(magic_at(b, 0));
    assert(find_magic(b, 0) == Some(0int));
    let fb = b.subrange(0, b.len() as int);
    assert(fb =~= b);
    assert(b.subrange(0, 36) =~= frame_body(f));
    lemma_u16_le_round_trip(crc16_spec(frame_body(f)));
    assert(u16_le_at(b, 36) == crc16_spec(b.subrange(0, 36)));
    lemma_u64_le_round_trip(f.sequence);
    lemma_u64_le_round_trip(f.timestamp_us);
    lemma_i16_le_round_trip(f.accel[0]);
    lemma_i16_le_round_trip(f.accel[1]);
    lemma_i16_le_round_trip(f.accel[2]);
    lemma_i16_le_round_trip(f.temp);
    lemma_i16_le_round_trip(f.gyro[0]);
    lemma_i16_le_round_trip(f.gyro[1]);
    lemma_i16_le_round_trip(f.gyro[2]);
    assert(u64_le_at(b, 6) == f.sequence);
    assert(u64_le_at(b, 14) == f.timestamp_us);
    assert(frame_at(b).accel =~= f.accel);
    assert(frame_at(b).gyro =~= f.gyro);
    assert(frame_at(b) == f);
    let rest = fb.subrange(38, 38);
    assert(rest =~= Seq::<u8>::empty());
    assert(find_magic(rest, 0) is None);
    let r = decode_stream(rest, Some(f.sequence));
    assert(r.0 =~= Seq::<DecodeEvent>::empty());
    assert(r.1 =~= Seq::<u8>::empty());
    let d = decode_stream(b, last);
    assert(d.0 == Seq::<DecodeEvent>::empty() + frame_events(f, last) + r.0);
    assert(d.0 =~= frame_events(f, last));
    assert(d.1 =~= Seq::<u8>::empty());
}

/// What the decoder checks of an encoded frame holds of it, and its fields
/// read back unchanged.
proof fn lemma_frame_bytes_facts(f: BinaryFrame)
    ensures
        ({
            let b = frame_bytes(f);
            &&& b.len() == 38
            &&& magic_at(b, 0)
            &&& b[2] == BINARY_FRAME_VERSION
            &&& b[3] == BINARY_FRAME_PAYLOAD_LEN
            &&& b.subrange(0, 36) == frame_body(f)
            &&& u16_le_at(b, 36) == crc16_spec(frame_body(f))
            &&& frame_at(b) == f
        }),
{
    let b = frame_bytes(f);
    assert(b.subrange(0, 36) =~= frame_body(f));
    lemma_u16_le_round_trip(crc16_spec(frame_body(f)));
    lemma_u64_le_round_trip(f.sequence);
    lemma_u64_le_round_trip(f.timestamp_us);
    lemma_i16_le_round_trip(f.accel[0]);
    lemma_i16_le_round_trip(f.accel[1]);
    lemma_i16_le_round_trip(f.accel[2]);
    lemma_i16_le_round_trip(f.temp);
    lemma_i16_le_round_trip(f.gyro[0]);
    lemma_i16_le_round_trip(f.gyro[1]);
    lemma_i16_le_round_trip(f.gyro[2]);
    assert(u64_le_at(b, 6) == f.sequence);
    assert(u64_le_at(b, 14) == f.timestamp_us);
    assert(frame_at(b).accel =~= f.accel);
    assert(frame_at(b).gyro =~= f.gyro);
}

/// A frame at the head of a stream is decoded on its own: its events come
/// first, and the rest of the stream is decoded after it as if it had arrived
/// alone, with this frame's sequence number as the previous one.
pub proof fn lemma_frame_then_rest(f: BinaryFrame, rest: Seq<u8>, last: Option<u64>)
    ensures
        ({
            let r = decode_stream(rest, Some(f.sequence));
            decode_stream(frame_bytes(f) + rest, last) == (frame_events(f, last) + r.0, r.1, r.2)
        }),
{
    let b = frame_bytes(f) + rest;
    lemma_frame_bytes_facts(f);
    let fb0 = frame_bytes(f);
    assert(fb0.len() == 38);
    assert(b.subrange(0, 38) =~= fb0);
    assert(magic_at(b, 0));
    assert(find_magic(b, 0) == Some(0int));
    let fb = b.subrange(0, b.len() as int);
    assert(fb =~= b);
    assert(b.subrange(0, 36) =~= frame_body(f));
    assert(fb0.subrange(0, 36) =~= frame_body(f));
    assert(forall|k: int| 0 <= k < 38 ==> b[k] == fb0[k]);
    assert(b[2] == BINARY_FRAME_VERSION && b[3] == BINARY_FRAME_PAYLOAD_LEN);
    assert(u16_le_at(b, 36) == u16_le_at(fb0, 36));
    assert(u16_le_at(fb, 36) == crc16_spec(fb.subrange(0, 36)));
    assert(frame_at(b) == frame_at(fb0));
    assert(frame_at(fb) == f);
    assert(fb.subrange(38, fb.len() as int) =~= rest);
    let r = decode_stream(rest, Some(f.sequence));
    let d = decode_stream(b, last);
    assert(d.0 == Seq::<DecodeEvent>::empty() + frame_events(frame_at(b), last) + r.0);
    assert(d.0 =~= frame_events(f, last) + r.0);
}

/// `e` is a sequence-gap warning.
pub open spec fn is_gap_warning(e: DecodeEvent) -> bool {
    e matches DecodeEvent::Warning(DecodeWarning::SequenceGap { .. })
}

/// Two frames decoded in turn: the second's sample comes last, and a
/// sequence-gap warning from the first number to the second is raised exactly
/// when the second number is not the one after the first (0 after
/// `u64::MAX`), so a repeated or lower number always raises one; no other
/// sequence-gap warning is raised.
pub proof fn lemma_sequence_gap_law(f1: BinaryFrame, f2: BinaryFrame)
    ensures
        ({
            let ev = decode_stream(frame_bytes(f1) + frame_bytes(f2), None).0;
            let next: int = if f1.sequence == u64::MAX {
                0
            } else {
                f1.sequence + 1
            };
            let gap = DecodeEvent::Warning(
                DecodeWarning::SequenceGap { previous: f1.sequence, current: f2.sequence },
            );
            &&& ev.len() > 0 && ev.last() == DecodeEvent::Sample(f2)
            &&& (exists|i: int| 0 <= i < ev.len() && #[trigger] ev[i] == gap) <==> f2.sequence != next
            &&& forall|i: int| 0 <= i < ev.len() && is_gap_warning(#[trigger] ev[i]) ==> ev[i] == gap
        }),
{
    let rest = frame_bytes(f2);
    lemma_frame_then_rest(f1, rest, None);
    lemma_frame_round_trip(f2, Some(f1.sequence));
    let e1 = frame_events(f1, None);
    let e2 = frame_events(f2, Some(f1.sequence));
    let ev = decode_stream(frame_bytes(f1) + frame_bytes(f2), None).0;
    assert(ev == e1 + e2);
    let gap = DecodeEvent::Warning(
        DecodeWarning::SequenceGap { previous: f1.sequence, current: f2.sequence },
    );
    let next: int = if f1.sequence == u64::MAX {
        0
    } else {
        f1.sequence + 1
    };
    assert(f1.sequence.wrapping_add(1) == next);
    assert forall|i: int| 0 <= i < e1.len() implies !is_gap_warning(#[trigger] e1[i]) by {}
    assert forall|i: int| 0 < i < e2.len() implies !is_gap_warning(#[trigger] e2[i]) by {}
    assert(ev.last() == e2.last());
    assert forall|i: int| 0 <= i < ev.len() && is_gap_warning(#[trigger] ev[i]) implies ev[i] == gap by {
        if i < e1.len() {
            assert(ev[i] == e1[i]);
        } else {
            assert(ev[i] == e2[i - e1.len()]);
        }
    }
    if f2.sequence != next {
        assert(e2[0] == gap);
        assert(ev[e1.len() as int] == gap);
    } else {
        assert forall|i: int| 0 <= i < ev.len() implies #[trigger] ev[i] != gap by {
            if i < e1.len() {
                assert(ev[i] == e1[i]);
            } else {
                assert(ev[i] == e2[i - e1.len()]);
            }
        }
    }
}

/// `e` is a suspicious-sample warning.
pub open spec fn is_suspicious_warning(e: DecodeEvent) -> bool {
    e matches DecodeEvent::Warning(DecodeWarning::Suspicious { .. })
}

/// One frame decoded by a fresh decoder: its sample comes last, no sequence
/// gap is raised, and a suspicious-sample warning naming its address and
/// number is raised exactly when its gyroscope reads -1 on every axis or one
/// of its seven counts is pinned at an end of the `i16` range, with both
/// reasons flagged as they hold.
pub proof fn lemma_suspicious_warning_law(f: BinaryFrame)
    ensures
        ({
            let ev = decode_stream(frame_bytes(f), None).0;
            let gyro_all = f.gyro[0] == -1 && f.gyro[1] == -1 && f.gyro[2] == -1;
            let pinned_count = f.accel[0] == i16::MIN || f.accel[0] == i16::MAX || f.accel[1]
                == i16::MIN || f.accel[1] == i16::MAX || f.accel[2] == i16::MIN || f.accel[2]
                == i16::MAX || f.temp == i16::MIN || f.temp == i16::MAX || f.gyro[0] == i16::MIN
                || f.gyro[0] == i16::MAX || f.gyro[1] == i16::MIN || f.gyro[1] == i16::MAX
                || f.gyro[2] == i16::MIN || f.gyro[2] == i16::MAX;
            &&& ev.len() > 0 && ev.last() == DecodeEvent::Sample(f)
            &&& forall|i: int| 0 <= i < ev.len() ==> !is_gap_warning(#[trigger] ev[i])
            &&& (exists|i: int| 0 <= i < ev.len() && is_suspicious_warning(#[trigger] ev[i])) <==> (
            gyro_all || pinned_count)
            &&& forall|i: int|
                0 <= i < ev.len() && is_suspicious_warning(#[trigger] ev[i]) ==> ev[i]
                    == DecodeEvent::Warning(
                    DecodeWarning::Suspicious {
                        address: f.address,
                        sequence: f.sequence,
                        gyro_all_minus_one: gyro_all,
                        sentinel_field: pinned_count,
                    },
                )
        }),
{
    lemma_frame_round_trip(f, None);
    let ev = decode_stream(frame_bytes(f), None).0;
    assert(ev == frame_events(f, None));
    if frame_gyro_all_minus_one(f) || frame_has_sentinel(f) {
        assert(is_suspicious_warning(ev[0]));
    }
}

/// The bytes of frames sent one after another.
pub open spec fn frames_bytes(fs: Seq<BinaryFrame>) -> Seq<u8>
    decreases fs.len(),
{
    if fs.len() == 0 {
        Seq::empty()
    } else {
        frame_bytes(fs[0]) + frames_bytes(fs.drop_first())
    }
}

/// The events of frames decoded one after another, each after the previous
/// frame's sequence number.
pub open spec fn frames_events(fs: Seq<BinaryFrame>, last: Option<u64>) -> Seq<DecodeEvent>
    decreases fs.len(),
{
    if fs.len() == 0 {
        Seq::empty()
    } else {
        frame_events(fs[0], last) + frames_events(fs.drop_first(), Some(fs[0].sequence))
    }
}

/// The sequence number of the last of `fs`, or `last` if there are none.
pub open spec fn last_sequence_of(fs: Seq<BinaryFrame>, last: Option<u64>) -> Option<u64> {
    if fs.len() == 0 {
        last
    } else {
        Some(fs.last().sequence)
    }
}

/// A stream of encoded frames decodes to exactly their events, in order,
/// leaving nothing buffered and the last frame's sequence number remembered.
pub proof fn lemma_frames_round_trip(fs: Seq<BinaryFrame>, last: Option<u64>)
    ensures
        decode_stream(frames_bytes(fs), last) == (
            frames_events(fs, last),
            Seq::<u8>::empty(),
            last_sequence_of(fs, last),
        ),
    decreases fs.len(),
{
    if fs.len() == 0 {
        assert(find_magic(Seq::<u8>::empty(), 0) is None);
    } else {
        let tail = fs.drop_first();
        lemma_frames_round_trip(tail, Some(fs[0].sequence));
        lemma_frame_then_rest(fs[0], frames_bytes(tail), last);
        if tail.len() > 0 {
            assert(tail.last() == fs.last());
        }
    }
}

/// The bytes of a run of frames are those of its first `k` frames followed by
/// those of the rest, 38 bytes per frame.
proof fn lemma_frames_bytes_split(fs: Seq<BinaryFrame>, k: int)
    requires
        0 <= k <= fs.len(),
    ensures
        frames_bytes(fs) == frames_bytes(fs.take(k)) + frames_bytes(fs.skip(k)),
        frames_bytes(fs.take(k)).len() == BINARY_FRAME_LEN * k,
        frames_bytes(fs).len() == BINARY_FRAME_LEN * fs.len(),
    decreases fs.len(),
{
    if fs.len() == 0 {
        assert(fs.take(k) =~= fs);
        assert(fs.skip(k) =~= fs);
    } else {
        lemma_frame_bytes_facts(fs[0]);
        let tail = fs.drop_first();
        if k == 0 {
            assert(fs.take(0) =~= Seq::<BinaryFrame>::empty());
            assert(fs.skip(0) =~= fs);
            lemma_frames_bytes_split(tail, 0);
        } else {
            lemma_frames_bytes_split(tail, k - 1);
            assert(fs.take(k).drop_first() =~= tail.take(k - 1));
            assert(fs.take(k)[0] == fs[0]);
            assert(fs.skip(k) =~= tail.skip(k - 1));
        }
    }
}

/// The events of a run of frames are those of its first `k` frames followed
/// by those of the rest, decoded after the last of the first.
proof fn lemma_frames_events_split(fs: Seq<BinaryFrame>, k: int, last: Option<u64>)
    requires
        0 <= k <= fs.len(),
    ensures
        frames_events(fs, last) == frames_events(fs.take(k), last) + frames_events(
            fs.skip(k),
            last_sequence_of(fs.take(k), last),
        ),
    decreases fs.len(),
{
    if k == 0 {
        assert(fs.take(0) =~= Seq::<BinaryFrame>::empty());
        assert(fs.skip(0) =~= fs);
    } else {
        let tail = fs.drop_first();
        lemma_frames_events_split(tail, k - 1, Some(fs[0].sequence));
        assert(fs.take(k).drop_first() =~= tail.take(k - 1));
        assert(fs.take(k)[0] == fs[0]);
        assert(fs.skip(k) =~= tail.skip(k - 1));
        if k > 1 {
            assert(tail.take(k - 1).last() == fs.take(k).last());
        }
    }
}

/// Frames at the head of a stream are decoded on their own, the rest after
/// them.
proof fn lemma_frames_then_rest(fs: Seq<BinaryFrame>, rest: Seq<u8>, last: Option<u64>)
    ensures
        ({
            let r = decode_stream(rest, last_sequence_of(fs, last));
            decode_stream(frames_bytes(fs) + rest, last) == (frames_events(fs, last) + r.0, r.1, r.2)
        }),
    decreases fs.len(),
{
    if fs.len() == 0 {
        assert(frames_bytes(fs) + rest =~= rest);
    } else {
        let tail = fs.drop_first();
        lemma_frames_then_rest(tail, rest, Some(fs[0].sequence));
        assert(frames_bytes(fs) + rest =~= frame_bytes(fs[0]) + (frames_bytes(tail) + rest));
        lemma_frame_then_rest(fs[0], frames_bytes(tail) + rest, last);
        if tail.len() > 0 {
            assert(tail.last() == fs.last());
        }
    }
}

/// The first `r` bytes of a frame, for `r` of at least two and less than a
/// whole frame, wait for the rest: no event, all of them kept.
proof fn lemma_frame_prefix_waits(f: BinaryFrame, r: int, last: Option<u64>)
    requires
        2 <= r < BINARY_FRAME_LEN,
    ensures
        decode_stream(frame_bytes(f).take(r), last) == (
            Seq::<DecodeEvent>::empty(),
            frame_bytes(f).take(r),
            last,
        ),
{
    lemma_frame_bytes_facts(f);
    let p = frame_bytes(f).take(r);
    assert(magic_at(p, 0));
    assert(find_magic(p, 0) == Some(0int));
    assert(p.subrange(0, p.len() as int) =~= p);
}

/// What the decoder holds after the first `c` bytes of a run of frames, cut
/// anywhere but one byte into a frame: the events of the frames completed so
/// far, the bytes of the frame begun (kept for later), and the sequence number
/// of the last completed frame.
pub proof fn lemma_frames_prefix_state(fs: Seq<BinaryFrame>, c: int, last: Option<u64>)
    requires
        0 <= c <= frames_bytes(fs).len(),
        c % (BINARY_FRAME_LEN as int) != 1,
    ensures
        ({
            let k = c / (BINARY_FRAME_LEN as int);
            decode_stream(frames_bytes(fs).take(c), last) == (
                frames_events(fs.take(k), last),
                frames_bytes(fs).subrange(BINARY_FRAME_LEN * k, c),
                last_sequence_of(fs.take(k), last),
            )
        }),
{
    let n = BINARY_FRAME_LEN as int;
    let b = frames_bytes(fs);
    let k = c / n;
    let r = c % n;
    lemma_frames_bytes_split(fs, 0);
    assert(k <= fs.len());
    lemma_frames_bytes_split(fs, k);
    let head = frames_bytes(fs.take(k));
    let tail = frames_bytes(fs.skip(k));
    assert(head.len() == n * k);
    assert(c == n * k + r);
    if r == 0 {
        assert(b.take(c) =~= head);
        assert(b.subrange(n * k, c) =~= Seq::<u8>::empty());
        lemma_frames_then_rest(fs.take(k), Seq::<u8>::empty(), last);
        assert(head + Seq::<u8>::empty() =~= head);
        assert(find_magic(Seq::<u8>::empty(), 0) is None);
        let e = decode_stream(Seq::<u8>::empty(), last_sequence_of(fs.take(k), last));
        assert(e.0 =~= Seq::<DecodeEvent>::empty());
        assert(frames_events(fs.take(k), last) + e.0 =~= frames_events(fs.take(k), last));
    } else {
        assert(r >= 2);
        assert(k < fs.len());
        let f = fs[k];
        let rest = fs.skip(k);
        assert(rest[0] == f);
        assert(rest.drop_first() =~= fs.skip(k + 1));
        assert(tail == frame_bytes(f) + frames_bytes(fs.skip(k + 1)));
        lemma_frame_bytes_facts(f);
        let p = frame_bytes(f).take(r);
        assert(b.take(c) =~= head + p);
        assert(b.subrange(n * k, c) =~= p);
        lemma_frames_then_rest(fs.take(k), p, last);
        lemma_frame_prefix_waits(f, r, last_sequence_of(fs.take(k), last));
        assert(frames_events(fs.take(k), last) + Seq::<DecodeEvent>::empty() =~= frames_events(
            fs.take(k),
            last,
        ));
    }
}

/// Frames that arrive in two pieces are reassembled: when the bytes of a run
/// of frames are cut anywhere but one byte into a frame, decoding the first
/// piece and then what it kept followed by the second reports exactly the
/// frames' events, keeps nothing, and remembers the last frame's sequence
/// number.
pub proof fn lemma_frames_in_two_pieces(fs: Seq<BinaryFrame>, c: int, last: Option<u64>)
    requires
        0 <= c <= frames_bytes(fs).len(),
        c % (BINARY_FRAME_LEN as int) != 1,
    ensures
        ({
            let b = frames_bytes(fs);
            let d1 = decode_stream(b.take(c), last);
            let d2 = decode_stream(d1.1 + b.skip(c), d1.2);
            &&& d1.0 + d2.0 == frames_events(fs, last)
            &&& d2.1 == Seq::<u8>::empty()
            &&& d2.2 == last_sequence_of(fs, last)
        }),
{
    let n = BINARY_FRAME_LEN as int;
    let b = frames_bytes(fs);
    let k = c / n;
    lemma_frames_prefix_state(fs, c, last);
    lemma_frames_bytes_split(fs, 0);
    assert(0 <= k <= fs.len() && n * k <= c) by (nonlinear_arith)
        requires
            n == 38,
            k == c / n,
            0 <= c <= n * fs.len(),
    ;
    lemma_frames_bytes_split(fs, k);
    let lk = last_sequence_of(fs.take(k), last);
    let d1 = decode_stream(b.take(c), last);
    assert(d1.1 == b.subrange(n * k, c));
    assert(d1.2 == lk);
    let tail = frames_bytes(fs.skip(k));
    assert(b.subrange(n * k, c) + b.skip(c) =~= tail);
    lemma_frames_round_trip(fs.skip(k), lk);
    let d2 = decode_stream(d1.1 + b.skip(c), d1.2);
    assert(d2 == decode_stream(tail, lk));
    lemma_frames_events_split(fs, k, last);
    assert(d1.0 + d2.0 == frames_events(fs, last));
    if k < fs.len() {
        assert(fs.skip(k).last() == fs.last());
    } else {
        if k > 0 {
            assert(fs.take(k).last() == fs.last());
        }
    }
}

} // verus!
