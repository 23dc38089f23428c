//! The text line that the firmware prints for each raw sample:
//!
//! `RAW 0xHH: accel=(X, Y, Z) temp_raw=T gyro=(X, Y, Z)` followed by optional
//! whitespace-separated `key=value` fields such as `timestamp_us=...` and
//! `sequence=...`.
use crate::fields::{spans, spans_ok, field, split_whitespace};
use crate::text::{chars_of, push_char};
use vstd::prelude::*;

verus! {

/// The largest magnitude kept while reading a signed decimal: one past what
/// any `i32` needs.
pub const I32_MAGNITUDE_CAP: i64 = 2147483649;

/// The largest value kept while reading an unsigned decimal: one past
/// `u64::MAX`.
pub const U64_VALUE_CAP: u128 = 18446744073709551616;

/// An ASCII decimal digit.
pub open spec fn is_digit(c: char) -> bool {
    '0' <= c <= '9'
}

/// The value of an ASCII decimal digit.
pub open spec fn digit_value(c: char) -> int {
    (c as u32) - ('0' as u32)
}

/// An ASCII hexadecimal digit.
pub open spec fn is_hex(c: char) -> bool {
    ||| '0' <= c <= '9'
    ||| 'a' <= c <= 'f'
    ||| 'A' <= c <= 'F'
}

/// The value of an ASCII hexadecimal digit.
pub open spec fn hex_value(c: char) -> int {
    if '0' <= c <= '9' {
        (c as u32) - ('0' as u32)
    } else if 'a' <= c <= 'f' {
        (c as u32) - ('a' as u32) + 10
    } else {
        (c as u32) - ('A' as u32) + 10
    }
}

/// The value of a run of decimal digits, most significant first.
pub open spec fn digits_value(d: Seq<char>) -> int
    decreases d.len(),
{
    if d.len() == 0 {
        0
    } else {
        10 * digits_value(d.drop_last()) + digit_value(d.last())
    }
}

/// The end of the run of decimal digits starting at `pos`.
pub open spec fn digits_end(s: Seq<char>, pos: int) -> int
    decreases s.len() - pos,
{
    if pos < 0 || pos >= s.len() || !is_digit(s[pos]) {
        pos
    } else {
        digits_end(s, pos + 1)
    }
}

/// An optionally negative decimal at `pos` (`-?\d+`, as long as possible): its
/// value and where it ends.
pub open spec fn int_at(s: Seq<char>, pos: int) -> Option<(int, int)> {
    let neg = 0 <= pos < s.len() && s[pos] == '-';
    let start = if neg {
        pos + 1
    } else {
        pos
    };
    let end = digits_end(s, start);
    if end == start {
        None
    } else {
        let magnitude = digits_value(s.subrange(start, end));
        Some((if neg { -magnitude } else { magnitude }, end))
    }
}

/// `lit` appears in `s` at `pos`.
pub open spec fn lit_at(s: Seq<char>, pos: int, lit: Seq<char>) -> bool {
    0 <= pos && pos + lit.len() <= s.len() && s.subrange(pos, pos + lit.len()) == lit
}

/// The value of an `i32` field at `pos` and where it ends, if it is there and
/// fits.
pub open spec fn i32_at(s: Seq<char>, pos: int) -> Option<(int, int)> {
    match int_at(s, pos) {
        Some((v, e)) => if i32::MIN <= v <= i32::MAX {
            Some((v, e))
        } else {
            None
        },
        None => None,
    }
}

/// After `lit` at `pos`, an `i32`: its value and end.
pub open spec fn lit_then_i32(s: Seq<char>, pos: int, lit: Seq<char>) -> Option<(int, int)> {
    if lit_at(s, pos, lit) {
        i32_at(s, pos + lit.len())
    } else {
        None
    }
}

/// The numbers of a raw sample line: address, three accelerometer axes,
/// temperature, three gyroscope axes, and where the fixed part ends.
pub ghost struct RawCore {
    pub address: int,
    pub values: Seq<int>,
    pub end: int,
}

/// The value a successful step read.
pub open spec fn value_of(r: Option<(int, int)>) -> int {
    match r {
        Some((v, _)) => v,
        None => 0,
    }
}

/// Where a successful step ended.
pub open spec fn end_of(r: Option<(int, int)>) -> int {
    match r {
        Some((_, e)) => e,
        None => 0,
    }
}

/// After a successful step ending at `prev`'s end, `lit` then an `i32`.
pub open spec fn then_i32(s: Seq<char>, prev: Option<(int, int)>, lit: Seq<char>) -> Option<
    (int, int),
> {
    match prev {
        Some((_, p)) => lit_then_i32(s, p, lit),
        None => None,
    }
}

/// The fixed part of a raw sample line, if `s` has it and no line break
/// follows.
pub open spec fn raw_core(s: Seq<char>) -> Option<RawCore> {
    let r1 = lit_then_i32(s, 8, ": accel=("@);
    let r2 = then_i32(s, r1, ", "@);
    let r3 = then_i32(s, r2, ", "@);
    let r4 = then_i32(s, r3, ") temp_raw="@);
    let r5 = then_i32(s, r4, " gyro=("@);
    let r6 = then_i32(s, r5, ", "@);
    let r7 = then_i32(s, r6, ", "@);
    if lit_at(s, 0, "RAW 0x"@) && s.len() >= 8 && is_hex(s[6]) && is_hex(s[7]) && r1 is Some
        && r2 is Some && r3 is Some && r4 is Some && r5 is Some && r6 is Some && r7 is Some
        && lit_at(s, end_of(r7), ")"@) && !s.skip(end_of(r7) + 1).contains('\n') {
        Some(
            RawCore {
                address: 16 * hex_value(s[6]) + hex_value(s[7]),
                values: seq![
                    value_of(r1),
                    value_of(r2),
                    value_of(r3),
                    value_of(r4),
                    value_of(r5),
                    value_of(r6),
                    value_of(r7),
                ],
                end: end_of(r7) + 1,
            },
        )
    } else {
        None
    }
}

/// An unsigned decimal as `u64::from_str` reads it: an optional `+`, then
/// only digits (at least one), with a value that fits.
pub open spec fn u64_of(v: Seq<char>) -> Option<int> {
    let d = unsigned_digits(v);
    if d.len() > 0 && all_digits(d) && digits_value(d) <= u64::MAX {
        Some(digits_value(d))
    } else {
        None
    }
}

/// `v` without a leading `+`.
pub open spec fn unsigned_digits(v: Seq<char>) -> Seq<char> {
    if v.len() > 0 && v[0] == '+' {
        v.drop_first()
    } else {
        v
    }
}

/// Every character of `d` is a decimal digit.
pub open spec fn all_digits(d: Seq<char>) -> bool {
    forall|i: int| 0 <= i < d.len() ==> is_digit(#[trigger] d[i])
}

/// The position of the first `=` in `f`, or its length.
pub open spec fn eq_pos(f: Seq<char>) -> int
    decreases f.len(),
{
    if f.len() == 0 {
        0
    } else if eq_pos(f.drop_last()) < f.len() - 1 {
        eq_pos(f.drop_last())
    } else if f.last() == '=' {
        f.len() - 1
    } else {
        f.len() as int
    }
}

/// The key and value of a `key=value` field, split at the first `=`.
pub open spec fn key_value(f: Seq<char>) -> Option<(Seq<char>, Seq<char>)> {
    let p = eq_pos(f);
    if p < f.len() {
        Some((f.take(p), f.skip(p + 1)))
    } else {
        None
    }
}

/// The sequence number the fields give: the last `sequence` or `seq` field
/// whose value reads as a `u64`.
pub open spec fn sequence_of(fs: Seq<Seq<char>>) -> Option<int>
    decreases fs.len(),
{
    if fs.len() == 0 {
        None
    } else {
        match key_value(fs.last()) {
            Some((k, v)) if (k == "sequence"@ || k == "seq"@) && u64_of(v) is Some => u64_of(v),
            _ => sequence_of(fs.drop_last()),
        }
    }
}

/// `f` is not a `seq` or `sequence` field.
pub open spec fn other_field(f: Seq<char>) -> bool {
    match key_value(f) {
        Some((k, _)) => k != "sequence"@ && k != "seq"@,
        None => true,
    }
}

/// The sequence number a line's fields give: a `seq=N` field and a
/// `sequence=N` field, with `N` a `u64`, both give `N`, whatever fields come
/// before them; the two keys always give the same; a field whose value is not
/// a `u64` is passed over; and fields with other keys after them change
/// nothing.
pub proof fn lemma_sequence_field_law(fs: Seq<Seq<char>>, v: Seq<char>, rest: Seq<Seq<char>>)
    ensures
        u64_of(v) is Some ==> sequence_of(fs.push("seq="@ + v)) == u64_of(v),
        u64_of(v) is Some ==> sequence_of(fs.push("sequence="@ + v)) == u64_of(v),
        sequence_of(fs.push("seq="@ + v)) == sequence_of(fs.push("sequence="@ + v)),
        u64_of(v) is None ==> sequence_of(fs.push("seq="@ + v)) == sequence_of(fs),
        (forall|j: int| 0 <= j < rest.len() ==> other_field(#[trigger] rest[j])) ==> sequence_of(fs + rest)
            == sequence_of(fs),
{
    reveal_strlit("seq=");
    reveal_strlit("seq");
    reveal_strlit("sequence=");
    reveal_strlit("sequence");
    let short = "seq="@ + v;
    let long = "sequence="@ + v;
    lemma_eq_pos(short, 3);
    lemma_eq_pos(long, 8);
    assert(short.take(3) =~= "seq"@);
    assert(short.skip(4) =~= v);
    assert(long.take(8) =~= "sequence"@);
    assert(long.skip(9) =~= v);
    assert(fs.push(short).last() == short);
    assert(fs.push(short).drop_last() =~= fs);
    assert(fs.push(long).last() == long);
    assert(fs.push(long).drop_last() =~= fs);
    lemma_other_fields(fs, rest);
}

/// Fields with other keys, after some fields, leave their sequence number.
proof fn lemma_other_fields(fs: Seq<Seq<char>>, rest: Seq<Seq<char>>)
    ensures
        (forall|j: int| 0 <= j < rest.len() ==> other_field(#[trigger] rest[j])) ==> sequence_of(fs + rest)
            == sequence_of(fs),
    decreases rest.len(),
{
    if rest.len() == 0 {
        assert(fs + rest =~= fs);
    } else if forall|j: int| 0 <= j < rest.len() ==> other_field(#[trigger] rest[j]) {
        let r = rest.drop_last();
        assert forall|j: int| 0 <= j < r.len() implies other_field(#[trigger] r[j]) by {
            assert(r[j] == rest[j]);
        }
        lemma_other_fields(fs, r);
        assert((fs + rest).drop_last() =~= fs + r);
        assert((fs + rest).last() == rest[rest.len() - 1]);
        assert(other_field(rest[rest.len() - 1]));
    }
}

/// The `key=value` fields of `fs`, split, in order.
pub open spec fn key_values(fs: Seq<Seq<char>>) -> Seq<(Seq<char>, Seq<char>)>
    decreases fs.len(),
{
    if fs.len() == 0 {
        Seq::empty()
    } else {
        let rest = key_values(fs.drop_last());
        match key_value(fs.last()) {
            Some(kv) => rest.push(kv),
            None => rest,
        }
    }
}

/// The fields of a raw sample line that need no floating point.
#[derive(Debug, Clone, PartialEq, Eq)]
pub struct RawLine {
    pub address: i32,
    pub ax: i32,
    pub ay: i32,
    pub az: i32,
    pub temp_raw: i32,
    pub gx: i32,
    pub gy: i32,
    pub gz: i32,
    /// The last valid `sequence`/`seq` field.
    pub sequence: Option<u64>,
    /// Everything after the fixed part, where the optional fields are.
    pub trailing: String,
}

/// The line `s` parses to, if it does.
pub open spec fn raw_line_spec(s: Seq<char>, r: Option<RawLine>) -> bool {
    match raw_core(s) {
        None => r is None,
        Some(core) => r matches Some(l) && {
            let fs = spans(s.skip(core.end)).map_values(
                |sp: (usize, usize)| field(s.skip(core.end), sp),
            );
            &&& l.address == core.address
            &&& l.ax == core.values[0]
            &&& l.ay == core.values[1]
            &&& l.az == core.values[2]
            &&& l.temp_raw == core.values[3]
            &&& l.gx == core.values[4]
            &&& l.gy == core.values[5]
            &&& l.gz == core.values[6]
            &&& l.trailing@ == s.skip(core.end)
            &&& l.sequence == match sequence_of(fs) {
                Some(v) => Some(v as u64),
                None => None::<u64>,
            }
        },
    }
}

/// A run of digits has a non-negative value.
proof fn lemma_digits_value_nonneg(d: Seq<char>)
    requires
        forall|i: int| 0 <= i < d.len() ==> is_digit(#[trigger] d[i]),
    ensures
        digits_value(d) >= 0,
    decreases d.len(),
{
    if d.len() > 0 {
        lemma_digits_value_nonneg(d.drop_last());
        assert(is_digit(d[d.len() - 1]));
    }
}

/// Moving `digits_end` one digit on.
proof fn lemma_digits_end_step(s: Seq<char>, pos: int)
    requires
        0 <= pos < s.len(),
        is_digit(s[pos]),
    ensures
        digits_end(s, pos) == digits_end(s, pos + 1),
{
}

/// Where `lit` sits at `pos`, if it does.
fn expect(s: &Vec<char>, pos: usize, lit: &str) -> (r: Option<usize>)
    requires
        pos <= s@.len(),
    ensures
        r is Some <==> lit_at(s@, pos as int, lit@),
        r matches Some(e) ==> e == pos + lit@.len() && e <= s@.len(),
{
    let l = chars_of(lit);
    if s.len() - pos < l.len() {
        return None;
    }
    if crate::fields::slice_eq(s, pos, pos + l.len(), &l) {
        Some(pos + l.len())
    } else {
        None
    }
}

/// Reads `-?\d+` at `pos` as an `i32`.
fn read_i32(s: &Vec<char>, pos: usize) -> (r: Option<(i32, usize)>)
    requires
        pos <= s@.len(),
    ensures
        match r {
            Some((v, e)) => i32_at(s@, pos as int) == Some((v as int, e as int)) && e <= s@.len(),
            None => i32_at(s@, pos as int) is None,
        },
{
    let neg = pos < s.len() && s[pos] == '-';
    let start = if neg {
        pos + 1
    } else {
        pos
    };
    let mut i = start;
    let mut magnitude: i64 = 0;
    while i < s.len() && '0' <= s[i] && s[i] <= '9'
        invariant
            start <= i <= s@.len(),
            start <= s@.len(),
            forall|j: int| start <= j < i ==> is_digit(#[trigger] s@[j]),
            digits_end(s@, start as int) == digits_end(s@, i as int),
            0 <= magnitude <= I32_MAGNITUDE_CAP,
            magnitude == if digits_value(s@.subrange(start as int, i as int)) < I32_MAGNITUDE_CAP {
                digits_value(s@.subrange(start as int, i as int))
            } else {
                I32_MAGNITUDE_CAP as int
            },
        decreases s@.len() - i,
    {
        proof {
            lemma_digits_end_step(s@, i as int);
            assert(s@.subrange(start as int, i + 1).drop_last() =~= s@.subrange(
                start as int,
                i as int,
            ));
            lemma_digits_value_nonneg(s@.subrange(start as int, i as int));
        }
        let d = (s[i] as u32 - '0' as u32) as i64;
        let next = 10 * magnitude + d;
        magnitude = if next < I32_MAGNITUDE_CAP {
            next
        } else {
            I32_MAGNITUDE_CAP
        };
        i = i + 1;
    }
    if i == start {
        return None;
    }
    let v = if neg {
        -magnitude
    } else {
        magnitude
    };
    if v < -2147483648 || v > 2147483647 {
        None
    } else {
        Some((v as i32, i))
    }
}

/// Reads a field value as `u64::from_str` does.
fn read_u64(s: &Vec<char>, from: usize, to: usize) -> (r: Option<u64>)
    requires
        from <= to <= s@.len(),
    ensures
        match r {
            Some(v) => u64_of(s@.subrange(from as int, to as int)) == Some(v as int),
            None => u64_of(s@.subrange(from as int, to as int)) is None,
        },
{
    let ghost whole = s@.subrange(from as int, to as int);
    let start = if from < to && s[from] == '+' {
        from + 1
    } else {
        from
    };
    let ghost d = s@.subrange(start as int, to as int);
    assert(d =~= unsigned_digits(whole));
    if start == to {
        return None;
    }
    let mut i = start;
    let mut value: u128 = 0;
    while i < to
        invariant
            start <= i <= to <= s@.len(),
            d == s@.subrange(start as int, to as int),
            whole == s@.subrange(from as int, to as int),
            d == unsigned_digits(whole),
            0 <= value <= U64_VALUE_CAP,
            forall|j: int| start <= j < i ==> is_digit(#[trigger] s@[j]),
            value == if digits_value(s@.subrange(start as int, i as int)) < U64_VALUE_CAP {
                digits_value(s@.subrange(start as int, i as int))
            } else {
                U64_VALUE_CAP as int
            },
        decreases to - i,
    {
        let c = s[i];
        if !('0' <= c && c <= '9') {
            assert(!is_digit(d[i - start]));
            assert(!all_digits(d));
            return None;
        }
        proof {
            assert(s@.subrange(start as int, i + 1).drop_last() =~= s@.subrange(
                start as int,
                i as int,
            ));
            lemma_digits_value_nonneg(s@.subrange(start as int, i as int));
        }
        let next = 10 * value + (c as u32 - '0' as u32) as u128;
        value = if next < U64_VALUE_CAP {
            next
        } else {
            U64_VALUE_CAP
        };
        i = i + 1;
    }
    assert(s@.subrange(start as int, i as int) =~= d);
    if value > 18446744073709551615 {
        None
    } else {
        Some(value as u64)
    }
}

/// The span of `s[from..to]` before its first `=`, and whether there is one.
pub(crate) fn find_eq(s: &Vec<char>, from: usize, to: usize) -> (p: usize)
    requires
        from <= to <= s@.len(),
    ensures
        from <= p <= to,
        p - from == eq_pos(s@.subrange(from as int, to as int)),
{
    let mut i = from;
    while i < to && s[i] != '='
        invariant
            from <= i <= to <= s@.len(),
            forall|j: int| from <= j < i ==> s@[j] != '=',
        decreases to - i,
    {
        i = i + 1;
    }
    proof {
        lemma_eq_pos(s@.subrange(from as int, to as int), (i - from) as int);
    }
    i
}

/// `eq_pos` is the first `=`.
pub(crate) proof fn lemma_eq_pos(f: Seq<char>, p: int)
    requires
        0 <= p <= f.len(),
        forall|j: int| 0 <= j < p ==> f[j] != '=',
        p < f.len() ==> f[p] == '=',
    ensures
        eq_pos(f) == p,
    decreases f.len(),
{
    if f.len() > 0 {
        let g = f.drop_last();
        if p < f.len() - 1 {
            lemma_eq_pos(g, p);
        } else {
            lemma_eq_pos(g, g.len() as int);
        }
    }
}

#[verifier::loop_isolation(false)]
/// Parses a raw sample line: the fixed part must match exactly, with every
/// number fitting an `i32`, and no line break may follow it. The trailing text
/// is kept, and the last valid `sequence`/`seq` field read from it.
pub fn parse_raw_fields(line: &str) -> (r: Option<RawLine>)
    ensures
        raw_line_spec(line@, r),
{
    let s = chars_of(line);
    let p0 = match expect(&s, 0, "RAW 0x") {
        Some(p) => p,
        None => return None,
    };
    if s.len() < 8 || !is_hex_digit(s[6]) || !is_hex_digit(s[7]) {
        return None;
    }
    let address = 16 * hex_digit_value(s[6]) + hex_digit_value(s[7]);
    let (ax, p1) = match lit_i32(&s, 8, ": accel=(") {
        Some(x) => x,
        None => return None,
    };
    let (ay, p2) = match lit_i32(&s, p1, ", ") {
        Some(x) => x,
        None => return None,
    };
    let (az, p3) = match lit_i32(&s, p2, ", ") {
        Some(x) => x,
        None => return None,
    };
    let (temp_raw, p4) = match lit_i32(&s, p3, ") temp_raw=") {
        Some(x) => x,
        None => return None,
    };
    let (gx, p5) = match lit_i32(&s, p4, " gyro=(") {
        Some(x) => x,
        None => return None,
    };
    let (gy, p6) = match lit_i32(&s, p5, ", ") {
        Some(x) => x,
        None => return None,
    };
    let (gz, p7) = match lit_i32(&s, p6, ", ") {
        Some(x) => x,
        None => return None,
    };
    let end = match expect(&s, p7, ")") {
        Some(e) => e,
        None => return None,
    };
    proof {
        reveal_strlit(")");
    }
    let mut trailing = String::new();
    let mut tail: Vec<char> = Vec::new();
    let mut i = end;
    while i < s.len()
        invariant
            end <= i <= s@.len(),
            trailing@ == s@.subrange(end as int, i as int),
            tail@ == trailing@,
            !trailing@.contains('\n'),
        decreases s@.len() - i,
    {
        if s[i] == '\n' {
            assert(s@.skip(end as int)[i - end] == '\n');
            assert(s@.skip(end as int).contains('\n'));
            return None;
        }
        push_char(&mut trailing, s[i]);
        tail.push(s[i]);
        i = i + 1;
        assert(trailing@ =~= s@.subrange(end as int, i as int));
    }
    assert(trailing@ =~= s@.skip(end as int));
    let sequence = sequence_field(&tail);
    Some(
        RawLine {
            address: address as i32,
            ax,
            ay,
            az,
            temp_raw,
            gx,
            gy,
            gz,
            sequence,
            trailing,
        },
    )
}

/// Whether `c` is an ASCII hexadecimal digit.
pub(crate) fn is_hex_digit(c: char) -> (r: bool)
    ensures
        r == is_hex(c),
{
    ('0' <= c && c <= '9') || ('a' <= c && c <= 'f') || ('A' <= c && c <= 'F')
}

/// The value of an ASCII hexadecimal digit.
pub(crate) fn hex_digit_value(c: char) -> (v: u32)
    requires
        is_hex(c),
    ensures
        v == hex_value(c),
        v < 16,
{
    if '0' <= c && c <= '9' {
        c as u32 - '0' as u32
    } else if 'a' <= c && c <= 'f' {
        c as u32 - 'a' as u32 + 10
    } else {
        c as u32 - 'A' as u32 + 10
    }
}

/// `lit` at `pos`, then an `i32`.
fn lit_i32(s: &Vec<char>, pos: usize, lit: &str) -> (r: Option<(i32, usize)>)
    requires
        pos <= s@.len(),
    ensures
        match r {
            Some((v, e)) => lit_then_i32(s@, pos as int, lit@) == Some((v as int, e as int)) && e
                <= s@.len(),
            None => lit_then_i32(s@, pos as int, lit@) is None,
        },
{
    match expect(s, pos, lit) {
        Some(p) => read_i32(s, p),
        None => None,
    }
}

/// The last valid `sequence`/`seq` field of `tail`.
fn sequence_field(tail: &Vec<char>) -> (r: Option<u64>)
    ensures
        r == match sequence_of(spans(tail@).map_values(|sp: (usize, usize)| field(tail@, sp))) {
            Some(v) => Some(v as u64),
            None => None::<u64>,
        },
{
    let sp = split_whitespace(tail);
    let ghost fs = sp@.map_values(|x: (usize, usize)| field(tail@, x));
    let key_long = chars_of("sequence");
    let key_short = chars_of("seq");
    let mut result: Option<u64> = None;
    let mut k: usize = 0;
    while k < sp.len()
        invariant
            k <= sp@.len(),
            spans_ok(tail@, sp@),
            fs == sp@.map_values(|x: (usize, usize)| field(tail@, x)),
            key_long@ == "sequence"@,
            key_short@ == "seq"@,
            result == match sequence_of(fs.take(k as int)) {
                Some(v) => Some(v as u64),
                None => None::<u64>,
            },
        decreases sp@.len() - k,
    {
        let (from, to) = sp[k];
        assert(sp@[k as int].0 < sp@[k as int].1 <= tail@.len());
        let ghost f = tail@.subrange(from as int, to as int);
        assert(fs[k as int] == f);
        assert(fs.take(k as int + 1).drop_last() =~= fs.take(k as int));
        let p = find_eq(tail, from, to);
        if p < to {
            assert(f.take(p - from) =~= tail@.subrange(from as int, p as int));
            assert(f.skip(p - from + 1) =~= tail@.subrange(p + 1, to as int));
            let is_key = crate::fields::slice_eq(tail, from, p, &key_long)
                || crate::fields::slice_eq(tail, from, p, &key_short);
            if is_key {
                match read_u64(tail, p + 1, to) {
                    Some(v) => {
                        result = Some(v);
                    },
                    None => {},
                }
            }
        }
        k = k + 1;
    }
    assert(fs.take(sp@.len() as int) =~= fs);
    result
}

/// The `key=value` fields of `text`, split at their first `=`, in order.
pub fn key_value_fields(text: &str) -> (r: Vec<(String, String)>)
    ensures
        r@.len() == key_values(crate::fields::fields(text@)).len(),
        forall|i: int|
            0 <= i < r@.len() ==> (#[trigger] r@[i]).0@ == key_values(
                crate::fields::fields(text@),
            )[i].0 && r@[i].1@ == key_values(crate::fields::fields(text@))[i].1,
{
    let s = chars_of(text);
    let sp = split_whitespace(&s);
    let ghost fs = sp@.map_values(|x: (usize, usize)| field(s@, x));
    assert(fs =~= crate::fields::fields(text@));
    let mut out: Vec<(String, String)> = Vec::new();
    let mut k: usize = 0;
    while k < sp.len()
        invariant
            k <= sp@.len(),
            spans_ok(s@, sp@),
            fs == sp@.map_values(|x: (usize, usize)| field(s@, x)),
            out@.len() == key_values(fs.take(k as int)).len(),
            forall|i: int|
                0 <= i < out@.len() ==> (#[trigger] out@[i]).0@ == key_values(fs.take(k as int))[i].0
                    && out@[i].1@ == key_values(fs.take(k as int))[i].1,
        decreases sp@.len() - k,
    {
        let (from, to) = sp[k];
        assert(sp@[k as int].0 < sp@[k as int].1 <= s@.len());
        let ghost f = s@.subrange(from as int, to as int);
        assert(fs[k as int] == f);
        assert(fs.take(k as int + 1).drop_last() =~= fs.take(k as int));
        assert(fs.take(k as int + 1).last() == f);
        let p = find_eq(&s, from, to);
        if p < to {
            assert(f.take(p - from) =~= s@.subrange(from as int, p as int));
            assert(f.skip(p - from + 1) =~= s@.subrange(p + 1, to as int));
            let key = copy_range(&s, from, p);
            let value = copy_range(&s, p + 1, to);
            out.push((key, value));
        }
        k = k + 1;
    }
    assert(fs.take(sp@.len() as int) =~= fs);
    out
}

/// The characters `s[from..to]` as a string.
pub(crate) fn copy_range(s: &Vec<char>, from: usize, to: usize) -> (r: String)
    requires
        from <= to <= s@.len(),
    ensures
        r@ == s@.subrange(from as int, to as int),
{
    let mut out = String::new();
    let mut i = from;
    while i < to
        invariant
            from <= i <= to <= s@.len(),
            out@ == s@.subrange(from as int, i as int),
        decreases to - i,
    {
        push_char(&mut out, s[i]);
        i = i + 1;
        assert(out@ =~= s@.subrange(from as int, i as int));
    }
    out
}

} // verus!
