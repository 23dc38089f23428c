//! The host's check of a captured log: the bus address and identity its
//! verification summary reports, whether `PWR_MGMT_1` was readable, and how
//! many raw samples it holds.
use crate::fields::{lower_slice, slice_eq, starts_with, to_ascii_lower};
use crate::integrity::trim_ws;
use crate::logtext::{trim_span, LogContents};
use crate::rawline::{hex_digit_value, hex_value, is_hex, is_hex_digit};
use crate::text::{chars_of, hex_digits, push_hex, push_str};
use crate::tool::{identity_matches, ExpectedIdentity};
use vstd::prelude::*;

verus! {

/// The value of a run of hexadecimal digits, most significant first.
pub open spec fn hex_number(d: Seq<char>) -> int
    decreases d.len(),
{
    if d.len() == 0 {
        0
    } else {
        hex_number(d.drop_last()) * 16 + hex_value(d.last())
    }
}

/// Every character of `d` is a hexadecimal digit.
pub open spec fn all_hex(d: Seq<char>) -> bool {
    forall|i: int| 0 <= i < d.len() ==> is_hex(#[trigger] d[i])
}

/// `u` without one leading `+`.
pub open spec fn unsigned_part(u: Seq<char>) -> Seq<char> {
    if u.len() > 0 && u[0] == '+' {
        u.drop_first()
    } else {
        u
    }
}

/// A byte written in hexadecimal: an optional `+`, then at least one digit,
/// with a value below 256 (leading zeros allowed).
pub open spec fn hex_byte(u: Seq<char>) -> Option<u8> {
    let d = unsigned_part(u);
    if d.len() > 0 && all_hex(d) && hex_number(d) < 256 {
        Some(hex_number(d) as u8)
    } else {
        None
    }
}

/// A `WHO_AM_I` value of the summary: trimmed, without a leading `0x`, read
/// as a hexadecimal byte.
pub open spec fn who_value(v: Seq<char>) -> Option<u8> {
    let t = trim_ws(v);
    if starts_with(t, "0x"@) {
        hex_byte(t.skip(2))
    } else {
        hex_byte(t)
    }
}

/// How the summary should write the bus address `addr`: `0x` and at least two
/// lower-case hexadecimal digits of its 32-bit pattern.
pub open spec fn address_text(addr: i32) -> Seq<char> {
    let n = (addr as u32) as nat;
    if n < 16 {
        "0x0"@ + hex_digits(n)
    } else {
        "0x"@ + hex_digits(n)
    }
}

/// The summary pairs as text.
pub open spec fn pairs_view(pairs: Seq<(String, String)>) -> Seq<(Seq<char>, Seq<char>)> {
    pairs.map_values(|p: (String, String)| (p.0@, p.1@))
}

/// The last value of `key` among `pairs`.
pub open spec fn last_value(pairs: Seq<(Seq<char>, Seq<char>)>, key: Seq<char>) -> Option<Seq<char>>
    decreases pairs.len(),
{
    if pairs.len() == 0 {
        None
    } else if pairs.last().0 == key {
        Some(pairs.last().1)
    } else {
        last_value(pairs.drop_last(), key)
    }
}

/// The last `WHO_AM_I` value among `pairs` that reads as a byte.
pub open spec fn last_identity(pairs: Seq<(Seq<char>, Seq<char>)>) -> Option<u8>
    decreases pairs.len(),
{
    if pairs.len() == 0 {
        None
    } else if pairs.last().0 == "who_am_i"@ && who_value(pairs.last().1) is Some {
        who_value(pairs.last().1)
    } else {
        last_identity(pairs.drop_last())
    }
}

/// Some `bus_address` value names `addr`, ignoring ASCII case.
pub open spec fn address_reported(pairs: Seq<(Seq<char>, Seq<char>)>, addr: i32) -> bool {
    exists|i: int|
        0 <= i < pairs.len() && (#[trigger] pairs[i]).0 == "bus_address"@ && to_ascii_lower(
            pairs[i].1,
        ) == to_ascii_lower(address_text(addr))
}

/// The `WHO_AM_I` value `v` reads as the expected identity.
pub open spec fn who_is(v: Seq<char>, expected: ExpectedIdentity) -> bool {
    match who_value(v) {
        Some(w) => identity_matches(expected, w),
        None => false,
    }
}

/// Some `WHO_AM_I` value reads as the expected identity.
pub open spec fn identity_reported(pairs: Seq<(Seq<char>, Seq<char>)>, expected: ExpectedIdentity) -> bool {
    exists|i: int|
        0 <= i < pairs.len() && (#[trigger] pairs[i]).0 == "who_am_i"@ && who_is(
            pairs[i].1,
            expected,
        )
}

/// The last `PWR_MGMT_1` value is there and is not `unreadable`.
pub open spec fn power_readable(pairs: Seq<(Seq<char>, Seq<char>)>) -> bool {
    last_value(pairs, "pwr_mgmt_1"@) matches Some(v) && v != "unreadable"@
}

/// What the check of a captured log found.
#[derive(Debug, Clone, Copy, PartialEq, Eq)]
pub struct LogCheck {
    /// The number of raw samples in the log.
    pub samples: usize,
    /// The summary reports the expected bus address.
    pub address_ok: bool,
    /// The identity the summary reports last, if any reads as a byte.
    pub identity_observed: Option<u8>,
    /// The summary reports the expected identity.
    pub who_ok: bool,
    /// The summary reports `PWR_MGMT_1` as readable.
    pub pwr_ok: bool,
    /// Every check passed and there are enough samples.
    pub passed: bool,
}

/// The profile name of an observed identity.
pub open spec fn profile_text(observed: Option<u8>) -> Seq<char> {
    match observed {
        Some(0x68) => "classic_mpu6050"@,
        Some(0x70) => "mpu6500_compatible_or_clone"@,
        Some(_) => "unknown"@,
        None => "missing"@,
    }
}

impl LogCheck {
    /// The profile the observed identity suggests.
    pub fn identity_profile(&self) -> (s: &'static str)
        ensures
            s@ == profile_text(self.identity_observed),
    {
        match self.identity_observed {
            Some(0x68) => "classic_mpu6050",
            Some(0x70) => "mpu6500_compatible_or_clone",
            Some(_) => "unknown",
            None => "missing",
        }
    }

    /// The host validation score: 10 when every check passed, else 0.
    pub fn score(&self) -> (s: u8)
        ensures
            s == if self.passed {
                10u8
            } else {
                0u8
            },
    {
        if self.passed {
            10
        } else {
            0
        }
    }

    /// The exit code of the check: 0 when every check passed, else 1.
    pub fn exit_code(&self) -> (c: i32)
        ensures
            c == if self.passed {
                0i32
            } else {
                1i32
            },
    {
        if self.passed {
            0
        } else {
            1
        }
    }
}

/// Reads `s[from..to]` as a hexadecimal byte.
fn parse_hex_byte(s: &Vec<char>, from: usize, to: usize) -> (r: Option<u8>)
    requires
        from <= to <= s@.len(),
    ensures
        r == hex_byte(s@.subrange(from as int, to as int)),
{
    let ghost u = s@.subrange(from as int, to as int);
    let start = if from < to && s[from] == '+' {
        from + 1
    } else {
        from
    };
    let ghost d = s@.subrange(start as int, to as int);
    assert(d =~= unsigned_part(u));
    if start == to {
        return None;
    }
    let mut value: u32 = 0;
    let mut i = start;
    assert(d.take(0) =~= Seq::<char>::empty());
    while i < to
        invariant
            start <= i <= to <= s@.len(),
            u == s@.subrange(from as int, to as int),
            d == s@.subrange(start as int, to as int),
            d == unsigned_part(u),
            forall|j: int| 0 <= j < i - start ==> is_hex(#[trigger] d[j]),
            value == hex_number(d.take(i - start)),
            value < 256,
        decreases to - i,
    {
        if !is_hex_digit(s[i]) {
            assert(!is_hex(d[i - start]));
            assert(!all_hex(d));
            assert(hex_byte(u) is None);
            return None;
        }
        let v = hex_digit_value(s[i]);
        assert(d.take(i - start + 1).drop_last() =~= d.take(i - start));
        value = value * 16 + v;
        if value >= 256 {
            proof {
                if all_hex(d) {
                    lemma_hex_number_grows(d, i - start + 1);
                    assert(hex_number(d) >= 256);
                }
                assert(hex_byte(u) is None);
            }
            return None;
        }
        i = i + 1;
    }
    assert(d.take(d.len() as int) =~= d);
    Some(value as u8)
}

/// The value of a run of hexadecimal digits never falls as digits are added.
proof fn lemma_hex_number_grows(d: Seq<char>, k: int)
    requires
        0 <= k <= d.len(),
        forall|j: int| 0 <= j < d.len() ==> is_hex(#[trigger] d[j]),
    ensures
        hex_number(d.take(k)) <= hex_number(d),
    decreases d.len() - k,
{
    if k < d.len() {
        lemma_hex_number_grows(d, k + 1);
        assert(d.take(k + 1).drop_last() =~= d.take(k));
        assert(hex_value(d.take(k + 1).last()) >= 0);
        assert(hex_number(d.take(k)) >= 0) by {
            lemma_hex_number_nonneg(d.take(k));
        }
    } else {
        assert(d.take(k) =~= d);
    }
}

/// The value of a run of hexadecimal digits is not negative.
proof fn lemma_hex_number_nonneg(d: Seq<char>)
    requires
        forall|j: int| 0 <= j < d.len() ==> is_hex(#[trigger] d[j]),
    ensures
        hex_number(d) >= 0,
    decreases d.len(),
{
    if d.len() > 0 {
        lemma_hex_number_nonneg(d.drop_last());
        assert(is_hex(d[d.len() - 1]));
    }
}

/// Reads a `WHO_AM_I` value.
fn parse_who(v: &String) -> (r: Option<u8>)
    ensures
        r == who_value(v@),
{
    let s = chars_of(v.as_str());
    let (a, b) = trim_span(&s, 0, s.len());
    assert(s@.subrange(0, s@.len() as int) =~= s@);
    let ghost t = s@.subrange(a as int, b as int);
    proof {
        reveal_strlit("0x");
    }
    if b - a >= 2 && s[a] == '0' && s[a + 1] == 'x' {
        assert(t.take(2) =~= "0x"@);
        assert(s@.subrange(a + 2, b as int) =~= t.skip(2));
        parse_hex_byte(&s, a + 2, b)
    } else {
        assert(!starts_with(t, "0x"@)) by {
            if t.len() >= 2 {
                assert(t.take(2)[0] == t[0]);
                assert(t.take(2)[1] == t[1]);
            }
        }
        parse_hex_byte(&s, a, b)
    }
}

/// Whether `v` is `lit`.
fn text_is(v: &String, lit: &Vec<char>) -> (r: bool)
    ensures
        r == (v@ == lit@),
{
    let s = chars_of(v.as_str());
    assert(s@.subrange(0, s@.len() as int) =~= s@);
    slice_eq(&s, 0, s.len(), lit)
}

/// The address text of `addr`, lower-cased, as characters.
fn address_chars(addr: i32) -> (r: Vec<char>)
    ensures
        r@ == to_ascii_lower(address_text(addr)),
{
    let n = addr as u32;
    let mut t = String::new();
    if n < 16 {
        push_str(&mut t, "0x0");
    } else {
        push_str(&mut t, "0x");
    }
    push_hex(&mut t, n as u64);
    let cs = chars_of(t.as_str());
    let lowered = lower_slice(&cs, 0, cs.len());
    assert(cs@.subrange(0, cs@.len() as int) =~= cs@);
    chars_of(lowered.as_str())
}

/// Checks a captured log against the expected bus address and identity: the
/// summary must report `addr` among its `bus_address` values (ignoring ASCII
/// case), some `WHO_AM_I` value must be the expected identity, the last
/// `PWR_MGMT_1` value must not be `unreadable`, and there must be at least
/// `min_samples` raw samples.
pub fn check_log(contents: &LogContents, min_samples: usize, addr: i32, expected: ExpectedIdentity) -> (r:
    LogCheck)
    ensures
        ({
            let pairs = pairs_view(contents.summary@);
            &&& r.samples == contents.samples@.len()
            &&& r.address_ok == address_reported(pairs, addr)
            &&& r.identity_observed == last_identity(pairs)
            &&& r.who_ok == identity_reported(pairs, expected)
            &&& r.pwr_ok == power_readable(pairs)
            &&& r.passed == (r.address_ok && r.who_ok && r.pwr_ok && r.samples >= min_samples)
        }),
{
    let ghost pairs = pairs_view(contents.summary@);
    let want = address_chars(addr);
    let bus_key = chars_of("bus_address");
    let who_key = chars_of("who_am_i");
    let pwr_key = chars_of("pwr_mgmt_1");
    let unreadable = chars_of("unreadable");
    let mut address_ok = false;
    let mut who_ok = false;
    let mut identity_observed: Option<u8> = None;
    let mut last_pwr: Option<usize> = None;
    let mut i: usize = 0;
    assert(pairs.take(0) =~= Seq::<(Seq<char>, Seq<char>)>::empty());
    while i < contents.summary.len()
        invariant
            i <= contents.summary@.len(),
            pairs == pairs_view(contents.summary@),
            want@ == to_ascii_lower(address_text(addr)),
            bus_key@ == "bus_address"@,
            who_key@ == "who_am_i"@,
            pwr_key@ == "pwr_mgmt_1"@,
            address_ok == exists|j: int|
                0 <= j < i && (#[trigger] pairs[j]).0 == "bus_address"@ && to_ascii_lower(
                    pairs[j].1,
                ) == to_ascii_lower(address_text(addr)),
            who_ok == exists|j: int|
                0 <= j < i && (#[trigger] pairs[j]).0 == "who_am_i"@ && who_is(
                    pairs[j].1,
                    expected,
                ),
            identity_observed == last_identity(pairs.take(i as int)),
            match last_pwr {
                Some(k) => k < i && last_value(pairs.take(i as int), "pwr_mgmt_1"@) == Some(
                    pairs[k as int].1,
                ),
                None => last_value(pairs.take(i as int), "pwr_mgmt_1"@) is None,
            },
        decreases contents.summary@.len() - i,
    {
        let ghost old_who = who_ok;
        let ghost old_pwr = last_pwr;
        let key = &contents.summary[i].0;
        let value = &contents.summary[i].1;
        assert(pairs[i as int] == (key@, value@));
        assert(pairs.take(i + 1).drop_last() =~= pairs.take(i as int));
        assert(pairs.take(i + 1).last() == pairs[i as int]);
        if text_is(key, &bus_key) {
            let vs = chars_of(value.as_str());
            let lowered = lower_slice(&vs, 0, vs.len());
            let lc = chars_of(lowered.as_str());
            assert(vs@.subrange(0, vs@.len() as int) =~= vs@);
            if lc.len() == want.len() && slice_eq(&lc, 0, lc.len(), &want) {
                assert(lc@.subrange(0, lc@.len() as int) =~= lc@);
                address_ok = true;
            } else {
                assert(lc@.subrange(0, lc@.len() as int) =~= lc@);
            }
            assert(key@ != "who_am_i"@ && key@ != "pwr_mgmt_1"@) by {
                reveal_strlit("bus_address");
                reveal_strlit("who_am_i");
                reveal_strlit("pwr_mgmt_1");
                assert("bus_address"@.len() == 11);
                assert("who_am_i"@.len() == 8);
                assert("pwr_mgmt_1"@.len() == 10);
            }
        } else if text_is(key, &who_key) {
            let w = parse_who(value);
            match w {
                Some(b) => {
                    identity_observed = Some(b);
                    if expected.matches(b) {
                        who_ok = true;
                    }
                },
                None => {},
            }
            assert(key@ != "pwr_mgmt_1"@) by {
                reveal_strlit("who_am_i");
                reveal_strlit("pwr_mgmt_1");
                assert("who_am_i"@.len() == 8);
                assert("pwr_mgmt_1"@.len() == 10);
            }
        } else if text_is(key, &pwr_key) {
            last_pwr = Some(i);
            assert(key@ != "who_am_i"@) by {
                reveal_strlit("who_am_i");
                reveal_strlit("pwr_mgmt_1");
                assert("who_am_i"@.len() == 8);
                assert("pwr_mgmt_1"@.len() == 10);
            }
        }
        proof {
            reveal_strlit("bus_address");
            reveal_strlit("who_am_i");
            reveal_strlit("pwr_mgmt_1");
            if key@ != "who_am_i"@ {
                assert(last_identity(pairs.take(i + 1)) == last_identity(pairs.take(i as int)));
            }
            let here = pairs[i as int].0 == "who_am_i"@ && who_is(pairs[i as int].1, expected);
            assert(who_ok == (old_who || here));
            if who_ok {
                if !old_who {
                    assert(pairs[i as int].0 == "who_am_i"@ && who_is(pairs[i as int].1, expected));
                }
            } else {
                assert forall|j: int| 0 <= j < i + 1 implies !((#[trigger] pairs[j]).0 == "who_am_i"@
                    && who_is(pairs[j].1, expected)) by {
                    if j == i {
                        assert(!here);
                    }
                }
            }
            if key@ == "pwr_mgmt_1"@ {
                assert(last_value(pairs.take(i + 1), "pwr_mgmt_1"@) == Some(pairs[i as int].1));
            } else {
                assert(last_value(pairs.take(i + 1), "pwr_mgmt_1"@) == last_value(
                    pairs.take(i as int),
                    "pwr_mgmt_1"@,
                ));
                assert(last_pwr == old_pwr);
            }
        }
        i = i + 1;
    }
    assert(pairs.take(i as int) =~= pairs);
    let pwr_ok = match last_pwr {
        Some(k) => !text_is(&contents.summary[k].1, &unreadable),
        None => false,
    };
    let samples = contents.samples.len();
    let passed = address_ok && who_ok && pwr_ok && samples >= min_samples;
    LogCheck { samples, address_ok, identity_observed, who_ok, pwr_ok, passed }
}

} // verus!
