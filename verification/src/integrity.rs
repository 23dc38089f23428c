//! Host-side accounting of the raw-sample integrity the firmware reports in
//! its text log: samples seen, and suspicious-read outcomes.
use crate::acquisition::{sat_add_u64, sat_sub_u64};
use crate::fields::{
    field, fields, is_ws, is_whitespace, lower_slice, slice_eq, split_whitespace,
    spans_ok, to_ascii_lower,
};
use crate::rawline::{find_eq, key_value, parse_raw_fields, raw_core};
use crate::text::{chars_of, decimal, push_decimal, push_str};
use vstd::prelude::*;

verus! {

/// A `raw_integrity_event` line of the firmware log, reduced to its outcome.
#[derive(Clone, Debug, PartialEq, Eq)]
pub struct RawIntegrityEvent {
    /// The outcome, with ASCII letters in lower case.
    pub outcome: String,
}

/// The outcome of the last `outcome=` field of `fs` with a non-empty value,
/// lower-cased.
pub open spec fn last_outcome(fs: Seq<Seq<char>>) -> Option<Seq<char>>
    decreases fs.len(),
{
    if fs.len() == 0 {
        None
    } else {
        match key_value(fs.last()) {
            Some((k, v)) if k == "outcome"@ && v.len() > 0 => Some(to_ascii_lower(v)),
            _ => last_outcome(fs.drop_last()),
        }
    }
}

/// The outcome an integrity event line reports: its first field must be
/// exactly `raw_integrity_event`, and it needs a non-empty `outcome=` field.
pub open spec fn event_outcome(line: Seq<char>) -> Option<Seq<char>> {
    let fs = fields(line);
    if fs.len() > 0 && fs[0] == "raw_integrity_event"@ {
        last_outcome(fs.drop_first())
    } else {
        None
    }
}

/// Parses a `raw_integrity_event` line; other lines, and events without an
/// outcome, give `None`. Later `outcome=` fields win over earlier ones.
pub fn parse_raw_integrity_event(line: &str) -> (r: Option<RawIntegrityEvent>)
    ensures
        match event_outcome(line@) {
            Some(o) => r matches Some(e) && e.outcome@ == o,
            None => r is None,
        },
{
    let s = chars_of(line);
    let sp = split_whitespace(&s);
    let ghost fs = sp@.map_values(|x: (usize, usize)| field(s@, x));
    assert(fs =~= fields(line@));
    if sp.len() == 0 {
        return None;
    }
    let head = chars_of("raw_integrity_event");
    assert(sp@[0].0 < sp@[0].1 <= s@.len());
    if !slice_eq(&s, sp[0].0, sp[0].1, &head) {
        return None;
    }
    let key = chars_of("outcome");
    let ghost rest = fs.drop_first();
    let mut found: Option<(usize, usize)> = None;
    let mut k: usize = 1;
    while k < sp.len()
        invariant
            1 <= k <= sp@.len(),
            spans_ok(s@, sp@),
            fs == sp@.map_values(|x: (usize, usize)| field(s@, x)),
            rest == fs.drop_first(),
            key@ == "outcome"@,
            match last_outcome(rest.take(k - 1)) {
                Some(o) => found matches Some((a, b)) && a <= b <= s@.len() && to_ascii_lower(
                    s@.subrange(a as int, b as int),
                ) == o,
                None => found is None,
            },
        decreases sp@.len() - k,
    {
        let (from, to) = sp[k];
        assert(sp@[k as int].0 < sp@[k as int].1 <= s@.len());
        let ghost f = s@.subrange(from as int, to as int);
        assert(rest[k - 1] == f);
        assert(rest.take(k as int).drop_last() =~= rest.take(k - 1));
        let p = find_eq(&s, from, to);
        if p < to {
            assert(f.take(p - from) =~= s@.subrange(from as int, p as int));
            assert(f.skip(p - from + 1) =~= s@.subrange(p + 1, to as int));
            if slice_eq(&s, from, p, &key) && p + 1 < to {
                found = Some((p + 1, to));
            }
        }
        k = k + 1;
    }
    assert(rest.take(sp@.len() - 1) =~= rest);
    match found {
        Some((a, b)) => Some(RawIntegrityEvent { outcome: lower_slice(&s, a, b) }),
        None => None,
    }
}

/// Counts of the integrity log: raw samples, and each suspicious outcome.
#[derive(Clone, Copy, Debug, Default, PartialEq, Eq)]
pub struct IntegrityStats {
    pub total: u64,
    pub recovered: u64,
    pub rejected: u64,
    pub retry_error: u64,
    pub accepted: u64,
}

/// The counts after one more event with `outcome`; unknown outcomes change
/// nothing.
pub open spec fn after_event(st: IntegrityStats, outcome: Seq<char>) -> IntegrityStats {
    if outcome == "recovered"@ {
        IntegrityStats { recovered: sat_add_u64(st.recovered, 1), ..st }
    } else if outcome == "rejected"@ {
        IntegrityStats { rejected: sat_add_u64(st.rejected, 1), ..st }
    } else if outcome == "retry_error"@ {
        IntegrityStats { retry_error: sat_add_u64(st.retry_error, 1), ..st }
    } else if outcome == "accepted"@ {
        IntegrityStats { accepted: sat_add_u64(st.accepted, 1), ..st }
    } else {
        st
    }
}

/// The counts after one log line: a raw sample line counts a sample, and an
/// integrity event line counts its outcome.
pub open spec fn after_line(st: IntegrityStats, line: Seq<char>) -> IntegrityStats {
    let st1 = if raw_core(line) is Some {
        IntegrityStats { total: sat_add_u64(st.total, 1), ..st }
    } else {
        st
    };
    match event_outcome(line) {
        Some(o) => after_event(st1, o),
        None => st1,
    }
}

/// The complete lines of `s` (without their `\n`) and what follows the last
/// line break.
pub open spec fn split_lines(s: Seq<char>) -> (Seq<Seq<char>>, Seq<char>)
    decreases s.len(),
{
    if s.len() == 0 {
        (Seq::empty(), Seq::empty())
    } else {
        let (ls, r) = split_lines(s.drop_last());
        if s.last() == '\n' {
            (ls.push(r), Seq::empty())
        } else {
            (ls, r.push(s.last()))
        }
    }
}

/// One more character either completes a line or extends the partial one.
pub proof fn lemma_split_lines_step(s: Seq<char>, i: int)
    requires
        0 <= i < s.len(),
    ensures
        ({
            let (ls, r) = split_lines(s.take(i));
            split_lines(s.take(i + 1)) == if s[i] == '\n' {
                (ls.push(r), Seq::<char>::empty())
            } else {
                (ls, r.push(s[i]))
            }
        }),
{
    assert(s.take(i + 1).drop_last() =~= s.take(i));
}

/// What follows the last line break holds no line break.
proof fn lemma_rest_has_no_newline(s: Seq<char>)
    ensures
        !split_lines(s).1.contains('\n'),
    decreases s.len(),
{
    if s.len() > 0 {
        lemma_rest_has_no_newline(s.drop_last());
        let r = split_lines(s.drop_last()).1;
        if s.last() != '\n' {
            assert forall|i: int| 0 <= i < r.push(s.last()).len() implies r.push(s.last())[i] != '\n' by {
                if i < r.len() {
                    assert(r[i] != '\n');
                }
            }
        }
    }
}

/// Text without a line break completes no line.
proof fn lemma_split_without_newline(r: Seq<char>)
    requires
        !r.contains('\n'),
    ensures
        split_lines(r) == (Seq::<Seq<char>>::empty(), r),
    decreases r.len(),
{
    if r.len() > 0 {
        let p = r.drop_last();
        assert(!p.contains('\n')) by {
            if p.contains('\n') {
                let k = choose|k: int| 0 <= k < p.len() && p[k] == '\n';
                assert(r[k] == '\n');
            }
        }
        lemma_split_without_newline(p);
        assert(r[r.len() - 1] != '\n');
        assert(p.push(r.last()) =~= r);
    }
}

/// Splitting `x + y` finds the lines of `x`, then those that the rest of `x`
/// followed by `y` completes.
pub proof fn lemma_split_lines_concat(x: Seq<char>, y: Seq<char>)
    ensures
        split_lines(x + y) == (
            split_lines(x).0 + split_lines(split_lines(x).1 + y).0,
            split_lines(split_lines(x).1 + y).1,
        ),
    decreases y.len(),
{
    let (lx, rx) = split_lines(x);
    if y.len() == 0 {
        assert(x + y =~= x);
        assert(rx + y =~= rx);
        lemma_rest_has_no_newline(x);
        lemma_split_without_newline(rx);
        assert(lx + Seq::<Seq<char>>::empty() =~= lx);
    } else {
        let y0 = y.drop_last();
        lemma_split_lines_concat(x, y0);
        assert((x + y).drop_last() =~= x + y0);
        assert((rx + y).drop_last() =~= rx + y0);
        assert((x + y).last() == y.last());
        assert((rx + y).last() == y.last());
        let (l0, r0) = split_lines(rx + y0);
        assert(lx + l0.push(r0) =~= (lx + l0).push(r0));
    }
}

/// Counting lines in two runs counts them as one run does.
pub proof fn lemma_after_lines_concat(st: IntegrityStats, l1: Seq<Seq<char>>, l2: Seq<Seq<char>>)
    ensures
        after_lines(st, l1 + l2) == after_lines(after_lines(st, l1), l2),
    decreases l2.len(),
{
    if l2.len() == 0 {
        assert(l1 + l2 =~= l1);
    } else {
        lemma_after_lines_concat(st, l1, l2.drop_last());
        assert((l1 + l2).drop_last() =~= l1 + l2.drop_last());
    }
}

/// Recording text that arrives in two pieces counts the same lines, and
/// leaves the same partial line buffered, as recording it in one piece.
pub proof fn lemma_record_text_in_pieces(
    st: IntegrityStats,
    buf: Seq<char>,
    a: Seq<char>,
    b: Seq<char>,
)
    ensures
        ({
            let (l1, r1) = split_lines(buf + a);
            let (l2, r2) = split_lines(r1 + b);
            let (l, r) = split_lines(buf + a + b);
            &&& after_lines(after_lines(st, l1), l2) == after_lines(st, l)
            &&& r2 == r
        }),
{
    lemma_split_lines_concat(buf + a, b);
    let (l1, r1) = split_lines(buf + a);
    let (l2, r2) = split_lines(r1 + b);
    lemma_after_lines_concat(st, l1, l2);
}

/// The end of the line `s[start..i]` once its trailing carriage returns are
/// dropped.
fn trimmed_end(s: &Vec<char>, start: usize, i: usize) -> (end: usize)
    requires
        start <= i <= s@.len(),
    ensures
        start <= end <= i,
        trim_cr(s@.subrange(start as int, i as int)) == s@.subrange(start as int, end as int),
{
    let mut end = i;
    while end > start && s[end - 1] == '\r'
        invariant
            start <= end <= i <= s@.len(),
            trim_cr(s@.subrange(start as int, i as int)) == trim_cr(
                s@.subrange(start as int, end as int),
            ),
        decreases end,
    {
        assert(s@.subrange(start as int, end as int).drop_last() =~= s@.subrange(
            start as int,
            end - 1,
        ));
        end = end - 1;
    }
    end
}

/// `s` without its trailing carriage returns.
pub open spec fn trim_cr(s: Seq<char>) -> Seq<char>
    decreases s.len(),
{
    if s.len() > 0 && s.last() == '\r' {
        trim_cr(s.drop_last())
    } else {
        s
    }
}

/// The counts after each of `lines` in turn, carriage returns trimmed.
pub open spec fn after_lines(st: IntegrityStats, lines: Seq<Seq<char>>) -> IntegrityStats
    decreases lines.len(),
{
    if lines.len() == 0 {
        st
    } else {
        after_line(after_lines(st, lines.drop_last()), trim_cr(lines.last()))
    }
}

/// The number of leading whitespace characters of `s`.
pub open spec fn leading_ws(s: Seq<char>) -> int
    decreases s.len(),
{
    if s.len() > 0 && is_ws(s[0]) {
        1 + leading_ws(s.drop_first())
    } else {
        0
    }
}

/// The number of trailing whitespace characters of `s`.
pub open spec fn trailing_ws(s: Seq<char>) -> int
    decreases s.len(),
{
    if s.len() > 0 && is_ws(s.last()) {
        1 + trailing_ws(s.drop_last())
    } else {
        0
    }
}

/// `s` without leading and trailing whitespace.
pub open spec fn trim_ws(s: Seq<char>) -> Seq<char> {
    if leading_ws(s) == s.len() {
        Seq::empty()
    } else {
        s.subrange(leading_ws(s), s.len() - trailing_ws(s))
    }
}

/// The integrity summary line.
pub open spec fn summary_text(st: IntegrityStats) -> Seq<char> {
    "integrity_stats samples="@ + decimal(st.total as nat) + " clean_samples="@ + decimal(
        clean_count(st) as nat,
    ) + " suspicious_events="@ + decimal(suspicious_count(st) as nat) + " recovered="@ + decimal(
        st.recovered as nat,
    ) + " rejected="@ + decimal(st.rejected as nat) + " retry_error="@ + decimal(
        st.retry_error as nat,
    ) + " accepted="@ + decimal(st.accepted as nat)
}

/// Suspicious events of every outcome, saturating.
pub open spec fn suspicious_count(st: IntegrityStats) -> u64 {
    sat_add_u64(sat_add_u64(sat_add_u64(st.recovered, st.rejected), st.retry_error), st.accepted)
}

/// Samples not replaced by a retry or accepted while suspicious, saturating.
pub open spec fn clean_count(st: IntegrityStats) -> u64 {
    sat_sub_u64(st.total, sat_add_u64(st.recovered, st.accepted))
}

impl IntegrityStats {
    /// Counts one raw sample.
    pub fn record_sample(&mut self)
        ensures
            *final(self) == (IntegrityStats { total: sat_add_u64(old(self).total, 1), ..*old(self) }),
    {
        self.total = self.total.saturating_add(1);
    }

    /// Counts one integrity event by its outcome.
    pub fn record_event(&mut self, event: RawIntegrityEvent)
        ensures
            *final(self) == after_event(*old(self), event.outcome@),
    {
        let o = chars_of(event.outcome.as_str());
        let n = o.len();
        if slice_eq(&o, 0, n, &chars_of("recovered")) {
            self.recovered = self.recovered.saturating_add(1);
        } else if slice_eq(&o, 0, n, &chars_of("rejected")) {
            self.rejected = self.rejected.saturating_add(1);
        } else if slice_eq(&o, 0, n, &chars_of("retry_error")) {
            self.retry_error = self.retry_error.saturating_add(1);
        } else if slice_eq(&o, 0, n, &chars_of("accepted")) {
            self.accepted = self.accepted.saturating_add(1);
        }
        assert(o@.subrange(0, n as int) =~= o@);
    }

    /// Counts one complete log line.
    pub fn record_line(&mut self, line: &str)
        ensures
            *final(self) == after_line(*old(self), line@),
    {
        if parse_raw_fields(line).is_some() {
            self.record_sample();
        }
        match parse_raw_integrity_event(line) {
            Some(event) => self.record_event(event),
            None => {},
        }
    }

    /// Appends `text` to the partial line in `line_buf` and counts every line
    /// it completes, carriage returns trimmed; what follows the last line
    /// break stays in `line_buf`.
    pub fn record_text(&mut self, text: &str, line_buf: &mut String)
        ensures
            ({
                let (lines, rest) = split_lines(old(line_buf)@ + text@);
                &&& *final(self) == after_lines(*old(self), lines)
                &&& final(line_buf)@ == rest
            }),
    {
        let mut all = chars_of(line_buf.as_str());
        let extra = chars_of(text);
        let mut j: usize = 0;
        while j < extra.len()
            invariant
                j <= extra@.len(),
                all@ == old(line_buf)@ + extra@.take(j as int),
            decreases extra@.len() - j,
        {
            all.push(extra[j]);
            j = j + 1;
            assert(all@ =~= old(line_buf)@ + extra@.take(j as int));
        }
        assert(extra@.take(extra@.len() as int) =~= text@);
        let ghost st0 = *self;
        let mut start: usize = 0;
        let mut i: usize = 0;
        while i < all.len()
            invariant
                all@ == old(line_buf)@ + text@,
                start <= i <= all@.len(),
                split_lines(all@.take(i as int)).1 == all@.subrange(start as int, i as int),
                *self == after_lines(st0, split_lines(all@.take(i as int)).0),
            decreases all@.len() - i,
        {
            proof {
                lemma_split_lines_step(all@, i as int);
            }
            let ghost lines = split_lines(all@.take(i as int)).0;
            if all[i] == '\n' {
                let end = trimmed_end(&all, start, i);
                let line = crate::rawline::copy_range(&all, start, end);
                self.record_line(line.as_str());
                proof {
                    let rest = all@.subrange(start as int, i as int);
                    assert(lines.push(rest).drop_last() =~= lines);
                }
                start = i + 1;
            }
            i = i + 1;
            assert(all@.subrange(start as int, i as int) =~= split_lines(all@.take(i as int)).1);
        }
        assert(all@.take(all@.len() as int) =~= all@);
        let rest = crate::rawline::copy_range(&all, start, all.len());
        *line_buf = rest;
    }

    /// Suspicious events of every outcome.
    pub fn suspicious(&self) -> (n: u64)
        ensures
            n == suspicious_count(*self),
    {
        self.recovered.saturating_add(self.rejected).saturating_add(self.retry_error).saturating_add(
            self.accepted,
        )
    }

    /// Samples neither recovered by a retry nor accepted while suspicious;
    /// rejected samples and retry errors were never counted as samples.
    pub fn clean(&self) -> (n: u64)
        ensures
            n == clean_count(*self),
    {
        self.total.saturating_sub(self.recovered.saturating_add(self.accepted))
    }

    /// The one-line summary the tools print.
    pub fn summary_line(&self) -> (s: String)
        ensures
            s@ == summary_text(*self),
    {
        let mut s = String::new();
        push_str(&mut s, "integrity_stats samples=");
        push_decimal(&mut s, self.total);
        push_str(&mut s, " clean_samples=");
        push_decimal(&mut s, self.clean());
        push_str(&mut s, " suspicious_events=");
        push_decimal(&mut s, self.suspicious());
        push_str(&mut s, " recovered=");
        push_decimal(&mut s, self.recovered);
        push_str(&mut s, " rejected=");
        push_decimal(&mut s, self.rejected);
        push_str(&mut s, " retry_error=");
        push_decimal(&mut s, self.retry_error);
        push_str(&mut s, " accepted=");
        push_decimal(&mut s, self.accepted);
        s
    }
}

/// Counts what is left in the line buffer when a capture ends, if anything
/// remains once whitespace is trimmed.
pub fn record_partial_text_line(stats: &mut IntegrityStats, line_buf: &str)
    ensures
        *final(stats) == if trim_ws(line_buf@).len() == 0 {
            *old(stats)
        } else {
            after_line(*old(stats), trim_ws(line_buf@))
        },
{
    let s = chars_of(line_buf);
    let mut a: usize = 0;
    assert(s@.skip(0) =~= s@);
    while a < s.len() && is_whitespace(s[a])
        invariant
            a <= s@.len(),
            leading_ws(s@) == a + leading_ws(s@.skip(a as int)),
        decreases s@.len() - a,
    {
        assert(s@.skip(a as int).drop_first() =~= s@.skip(a + 1));
        a = a + 1;
    }
    if a == s.len() {
        assert(s@.skip(a as int).len() == 0);
        return;
    }
    let mut b: usize = s.len();
    assert(s@.take(s@.len() as int) =~= s@);
    while b > a && is_whitespace(s[b - 1])
        invariant
            a < s@.len(),
            a < b <= s@.len(),
            !is_ws(s@[a as int]),
            trailing_ws(s@) == (s@.len() - b) + trailing_ws(s@.take(b as int)),
        decreases b,
    {
        assert(s@.take(b as int).drop_last() =~= s@.take(b - 1));
        b = b - 1;
    }
    assert(!is_ws(s@.skip(a as int)[0]));
    assert(leading_ws(s@) == a);
    assert(b > a);
    assert(!is_ws(s@.take(b as int).last()));
    assert(trailing_ws(s@) == s@.len() - b);
    let line = crate::rawline::copy_range(&s, a, b);
    stats.record_line(line.as_str());
}

} // verus!
