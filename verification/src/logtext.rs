//! Reading a captured firmware log: its raw sample lines, and the `key=value`
//! lines of its verification summary.
use crate::fields::{is_whitespace, slice_eq, slice_starts_with};
use crate::integrity::trim_ws;
use crate::rawline::{copy_range, parse_raw_fields, raw_core, RawLine};
use crate::text::chars_of;
use vstd::prelude::*;

verus! {

/// The pieces of `s` between line breaks, the last one included even when
/// empty.
pub open spec fn segments(s: Seq<char>) -> Seq<Seq<char>>
    decreases s.len(),
{
    if s.len() == 0 {
        seq![Seq::empty()]
    } else {
        let w = segments(s.drop_last());
        if s.last() == '\n' {
            w.push(Seq::empty())
        } else {
            w.update(w.len() - 1, w.last().push(s.last()))
        }
    }
}

/// Lines put together, each but the last followed by a line break.
pub open spec fn joined_lines(ls: Seq<Seq<char>>) -> Seq<char>
    decreases ls.len(),
{
    if ls.len() == 0 {
        Seq::empty()
    } else if ls.len() == 1 {
        ls[0]
    } else {
        joined_lines(ls.drop_last()) + seq!['\n'] + ls.last()
    }
}

/// There is always at least one segment.
proof fn lemma_segments_len(s: Seq<char>)
    ensures
        segments(s).len() >= 1,
    decreases s.len(),
{
    if s.len() > 0 {
        lemma_segments_len(s.drop_last());
    }
}

/// Text without a line break is one segment.
proof fn lemma_segments_plain(y: Seq<char>)
    requires
        !y.contains('\n'),
    ensures
        segments(y) == seq![y],
    decreases y.len(),
{
    if y.len() > 0 {
        let p = y.drop_last();
        assert(!p.contains('\n')) by {
            if p.contains('\n') {
                let i = choose|i: int| 0 <= i < p.len() && p[i] == '\n';
                assert(y[i] == '\n');
            }
        }
        lemma_segments_plain(p);
        assert(y.last() != '\n') by {
            assert(y[y.len() - 1] == y.last());
        }
        assert(p.push(y.last()) =~= y);
        assert(seq![p].update(0, p.push(y.last())) =~= seq![y]);
    } else {
        assert(y =~= Seq::<char>::empty());
    }
}

/// The segments of two texts joined at a line break are those of each.
proof fn lemma_segments_after_break(x: Seq<char>, y: Seq<char>)
    ensures
        segments(x + seq!['\n'] + y) == segments(x) + segments(y),
    decreases y.len(),
{
    let s = x + seq!['\n'] + y;
    if y.len() == 0 {
        assert(s.drop_last() =~= x);
        assert(s.last() == '\n');
        assert(segments(y) == seq![Seq::<char>::empty()]);
        assert(segments(x).push(Seq::<char>::empty()) =~= segments(x) + segments(y));
    } else {
        let p = y.drop_last();
        lemma_segments_after_break(x, p);
        lemma_segments_len(p);
        assert(s.drop_last() =~= x + seq!['\n'] + p);
        assert(s.last() == y.last());
        let a = segments(x);
        let b = segments(p);
        if y.last() == '\n' {
            assert((a + b).push(Seq::<char>::empty()) =~= a + b.push(Seq::<char>::empty()));
        } else {
            assert((a + b).update((a + b).len() - 1, (a + b).last().push(y.last())) =~= a + b.update(
                b.len() - 1,
                b.last().push(y.last()),
            ));
        }
    }
}

/// Lines without line breaks, joined, split back into those lines.
pub proof fn lemma_segments_of_joined(ls: Seq<Seq<char>>)
    requires
        ls.len() >= 1,
        forall|i: int| 0 <= i < ls.len() ==> !(#[trigger] ls[i]).contains('\n'),
    ensures
        segments(joined_lines(ls)) == ls,
    decreases ls.len(),
{
    if ls.len() == 1 {
        lemma_segments_plain(ls[0]);
        assert(seq![ls[0]] =~= ls);
    } else {
        let p = ls.drop_last();
        assert forall|i: int| 0 <= i < p.len() implies !(#[trigger] p[i]).contains('\n') by {
            assert(p[i] == ls[i]);
        }
        lemma_segments_of_joined(p);
        lemma_segments_after_break(joined_lines(p), ls.last());
        assert(!ls[ls.len() - 1].contains('\n'));
        lemma_segments_plain(ls.last());
        assert(p + seq![ls.last()] =~= ls);
    }
}

/// A character of a summary key: an ASCII letter, digit or `_`.
pub open spec fn key_char(c: char) -> bool {
    ||| 'a' <= c <= 'z'
    ||| 'A' <= c <= 'Z'
    ||| '0' <= c <= '9'
    ||| c == '_'
}

/// The number of leading key characters of `s`.
pub open spec fn key_len(s: Seq<char>) -> int
    decreases s.len(),
{
    if s.len() > 0 && key_char(s[0]) {
        1 + key_len(s.drop_first())
    } else {
        0
    }
}

/// A summary line `key=value`: a non-empty key of key characters, `=`, and a
/// non-empty value.
pub open spec fn summary_pair(line: Seq<char>) -> Option<(Seq<char>, Seq<char>)> {
    let p = key_len(line);
    if p > 0 && p + 1 < line.len() && line[p] == '=' {
        Some((line.take(p), line.skip(p + 1)))
    } else {
        None
    }
}

/// What reading the log has gathered so far.
pub ghost struct LogState {
    pub in_summary: bool,
    pub pairs: Seq<(Seq<char>, Seq<char>)>,
    pub raw_lines: Seq<Seq<char>>,
}

/// The state after one (trimmed) line: the summary markers open and close the
/// summary; a raw sample line is kept wherever it stands; inside the summary a
/// `key=value` line is kept as a pair.
pub open spec fn log_step(st: LogState, line: Seq<char>) -> LogState {
    if line == "verification_summary_begin"@ {
        LogState { in_summary: true, ..st }
    } else if line == "verification_summary_end"@ {
        LogState { in_summary: false, ..st }
    } else if raw_core(line) is Some {
        LogState { raw_lines: st.raw_lines.push(line), ..st }
    } else if st.in_summary && summary_pair(line) is Some {
        LogState { pairs: st.pairs.push(summary_pair(line)->0), ..st }
    } else {
        st
    }
}

/// The state after the first `k` lines of `lines`, each trimmed.
pub open spec fn log_after(lines: Seq<Seq<char>>, k: int) -> LogState
    decreases k,
{
    if k <= 0 {
        LogState { in_summary: false, pairs: Seq::empty(), raw_lines: Seq::empty() }
    } else {
        log_step(log_after(lines, k - 1), trim_ws(lines[k - 1]))
    }
}

/// A captured log: its raw samples, and its summary pairs in order.
pub struct LogContents {
    pub summary: Vec<(String, String)>,
    pub samples: Vec<RawLine>,
}

/// `contents` holds what `st` gathered.
pub open spec fn contents_match(contents: LogContents, st: LogState) -> bool {
    &&& contents.summary@.len() == st.pairs.len()
    &&& forall|i: int|
        0 <= i < st.pairs.len() ==> (#[trigger] contents.summary@[i]).0@ == st.pairs[i].0
            && contents.summary@[i].1@ == st.pairs[i].1
    &&& contents.samples@.len() == st.raw_lines.len()
    &&& forall|i: int|
        0 <= i < st.raw_lines.len() ==> crate::rawline::raw_line_spec(
            st.raw_lines[i],
            Some(#[trigger] contents.samples@[i]),
        )
}

/// The span of `s[from..to]` without leading and trailing whitespace.
pub(crate) fn trim_span(s: &Vec<char>, from: usize, to: usize) -> (r: (usize, usize))
    requires
        from <= to <= s@.len(),
    ensures
        from <= r.0 <= r.1 <= to,
        s@.subrange(r.0 as int, r.1 as int) == trim_ws(s@.subrange(from as int, to as int)),
{
    let ghost seg = s@.subrange(from as int, to as int);
    let mut a = from;
    assert(seg.skip(0) =~= seg);
    while a < to && is_whitespace(s[a])
        invariant
            from <= a <= to <= s@.len(),
            seg == s@.subrange(from as int, to as int),
            crate::integrity::leading_ws(seg) == (a - from) + crate::integrity::leading_ws(
                seg.skip(a - from),
            ),
        decreases to - a,
    {
        assert(seg.skip(a - from).drop_first() =~= seg.skip(a - from + 1));
        a = a + 1;
    }
    if a == to {
        assert(seg.skip(a - from).len() == 0);
        assert(s@.subrange(a as int, a as int) =~= Seq::<char>::empty());
        return (a, a);
    }
    let mut b = to;
    assert(seg.take(seg.len() as int) =~= seg);
    while b > a && is_whitespace(s[b - 1])
        invariant
            from <= a < b <= to <= s@.len(),
            seg == s@.subrange(from as int, to as int),
            !crate::fields::is_ws(s@[a as int]),
            crate::integrity::trailing_ws(seg) == (to - b) + crate::integrity::trailing_ws(
                seg.take(b - from),
            ),
        decreases b,
    {
        assert(seg.take(b - from).drop_last() =~= seg.take(b - from - 1));
        b = b - 1;
    }
    assert(!crate::fields::is_ws(seg.skip(a - from)[0]));
    assert(crate::integrity::leading_ws(seg) == a - from);
    assert(!crate::fields::is_ws(seg.take(b - from).last()));
    assert(crate::integrity::trailing_ws(seg) == to - b);
    assert(s@.subrange(a as int, b as int) =~= seg.subrange(a - from, b - from));
    (a, b)
}

/// Whether `s[from..to]` is a `key=value` line, and where its `=` is.
fn summary_split(s: &Vec<char>, from: usize, to: usize) -> (r: Option<usize>)
    requires
        from <= to <= s@.len(),
    ensures
        ({
            let line = s@.subrange(from as int, to as int);
            match r {
                Some(p) => from < p && p + 1 < to && summary_pair(line) == Some(
                    (s@.subrange(from as int, p as int), s@.subrange(p + 1, to as int)),
                ),
                None => summary_pair(line) is None,
            }
        }),
{
    let ghost line = s@.subrange(from as int, to as int);
    let mut p = from;
    assert(line.skip(0) =~= line);
    while p < to && (('a' <= s[p] && s[p] <= 'z') || ('A' <= s[p] && s[p] <= 'Z') || ('0' <= s[p]
        && s[p] <= '9') || s[p] == '_')
        invariant
            from <= p <= to <= s@.len(),
            line == s@.subrange(from as int, to as int),
            key_len(line) == (p - from) + key_len(line.skip(p - from)),
        decreases to - p,
    {
        assert(line.skip(p - from).drop_first() =~= line.skip(p - from + 1));
        p = p + 1;
    }
    assert(key_len(line.skip(p - from)) == 0);
    if p > from && to - p > 1 && s[p] == '=' {
        assert(line.take(p - from) =~= s@.subrange(from as int, p as int));
        assert(line.skip(p - from + 1) =~= s@.subrange(p + 1, to as int));
        Some(p)
    } else {
        None
    }
}

/// Two lists of lines that agree on their first `k` lines leave the same
/// state after them.
proof fn lemma_log_after_agree(l1: Seq<Seq<char>>, l2: Seq<Seq<char>>, k: int)
    requires
        0 <= k <= l1.len(),
        k <= l2.len(),
        forall|j: int| 0 <= j < k ==> l1[j] == l2[j],
    ensures
        log_after(l1, k) == log_after(l2, k),
    decreases k,
{
    if k > 0 {
        lemma_log_after_agree(l1, l2, k - 1);
    }
}

/// Takes one trimmed line `s[a..b]` into the gathered contents.
fn absorb_line(
    s: &Vec<char>,
    a: usize,
    b: usize,
    begin: &Vec<char>,
    end_marker: &Vec<char>,
    in_summary: &mut bool,
    summary: &mut Vec<(String, String)>,
    samples: &mut Vec<RawLine>,
    Ghost(st): Ghost<LogState>,
)
    requires
        a <= b <= s@.len(),
        begin@ == "verification_summary_begin"@,
        end_marker@ == "verification_summary_end"@,
        *old(in_summary) == st.in_summary,
        contents_match(LogContents { summary: *old(summary), samples: *old(samples) }, st),
    ensures
        ({
            let st1 = log_step(st, s@.subrange(a as int, b as int));
            &&& *final(in_summary) == st1.in_summary
            &&& contents_match(LogContents { summary: *final(summary), samples: *final(samples) }, st1)
        }),
{
    let ghost line = s@.subrange(a as int, b as int);
    if slice_eq(s, a, b, begin) {
        *in_summary = true;
    } else if slice_eq(s, a, b, end_marker) {
        *in_summary = false;
    } else {
        let piece = copy_range(s, a, b);
        match parse_raw_fields(piece.as_str()) {
            Some(raw) => {
                samples.push(raw);
                assert(log_step(st, line).raw_lines =~= st.raw_lines.push(line));
            },
            None => {
                if *in_summary {
                    match summary_split(s, a, b) {
                        Some(p) => {
                            let key = copy_range(s, a, p);
                            let value = copy_range(s, p + 1, b);
                            summary.push((key, value));
                        },
                        None => {},
                    }
                }
            },
        }
    }
}

/// Reads a captured log: every raw sample line, and the `key=value` lines
/// between `verification_summary_begin` and `verification_summary_end`; each
/// line is trimmed first.
pub fn parse_log_text(text: &str) -> (r: LogContents)
    ensures
        contents_match(r, log_after(segments(text@), segments(text@).len() as int)),
{
    let s = chars_of(text);
    let begin = chars_of("verification_summary_begin");
    let end_marker = chars_of("verification_summary_end");
    let mut summary: Vec<(String, String)> = Vec::new();
    let mut samples: Vec<RawLine> = Vec::new();
    let mut in_summary = false;
    let mut start: usize = 0;
    let mut i: usize = 0;
    let ghost mut done: int = 0;
    assert(s@.take(0) =~= Seq::<char>::empty());
    assert(s@.subrange(0, 0) =~= Seq::<char>::empty());
    while i < s.len()
        invariant
            s@ == text@,
            begin@ == "verification_summary_begin"@,
            end_marker@ == "verification_summary_end"@,
            start <= i <= s@.len(),
            done >= 0,
            segments(s@.take(i as int)).len() == done + 1,
            segments(s@.take(i as int))[done] == s@.subrange(start as int, i as int),
            ({
                let st = log_after(segments(s@.take(i as int)), done);
                &&& in_summary == st.in_summary
                &&& contents_match(LogContents { summary, samples }, st)
            }),
        decreases s@.len() - i,
    {
        let ghost before = segments(s@.take(i as int));
        assert(s@.take(i + 1).drop_last() =~= s@.take(i as int));
        if s[i] == '\n' {
            let (a, b) = trim_span(&s, start, i);
            absorb_line(
                &s,
                a,
                b,
                &begin,
                &end_marker,
                &mut in_summary,
                &mut summary,
                &mut samples,
                Ghost(log_after(before, done)),
            );
            proof {
                let after = segments(s@.take(i + 1));
                assert(after == before.push(Seq::<char>::empty()));
                lemma_log_after_agree(before, after, done);
                done = done + 1;
            }
            start = i + 1;
            i = i + 1;
            assert(s@.subrange(start as int, i as int) =~= Seq::<char>::empty());
        } else {
            proof {
                let after = segments(s@.take(i + 1));
                assert(after == before.update(done, before[done].push(s@[i as int])));
                lemma_log_after_agree(before, after, done);
                assert(s@.subrange(start as int, i + 1) =~= s@.subrange(start as int, i as int).push(
                    s@[i as int],
                ));
            }
            i = i + 1;
        }
    }
    assert(s@.take(s@.len() as int) =~= s@);
    let (a, b) = trim_span(&s, start, s.len());
    absorb_line(
        &s,
        a,
        b,
        &begin,
        &end_marker,
        &mut in_summary,
        &mut summary,
        &mut samples,
        Ghost(log_after(segments(s@), done)),
    );
    LogContents { summary, samples }
}

/// The index of face `f` in the order `+X, -X, +Y, -Y, +Z, -Z`, if it is one.
pub open spec fn face_index(f: Seq<char>) -> Option<usize> {
    if f == "+X"@ {
        Some(0)
    } else if f == "-X"@ {
        Some(1)
    } else if f == "+Y"@ {
        Some(2)
    } else if f == "-Y"@ {
        Some(3)
    } else if f == "+Z"@ {
        Some(4)
    } else if f == "-Z"@ {
        Some(5)
    } else {
        None
    }
}

/// What reading a six-face capture has gathered so far: the face whose
/// section is open, and the raw lines of each face.
pub ghost struct FaceState {
    pub current: Option<Seq<char>>,
    pub faces: Seq<Seq<Seq<char>>>,
}

/// The state after one (trimmed) line: `# face_begin F` opens the section of
/// `F`, `# face_end ...` closes it, and a raw sample line inside the section of
/// one of the six faces is kept for that face.
pub open spec fn face_step(st: FaceState, line: Seq<char>) -> FaceState {
    if crate::fields::starts_with(line, "# face_begin "@) {
        FaceState { current: Some(line.skip(13)), ..st }
    } else if crate::fields::starts_with(line, "# face_end "@) {
        FaceState { current: None, ..st }
    } else if st.current matches Some(f) && face_index(f) is Some && raw_core(line) is Some {
        let k = face_index(st.current->0)->0 as int;
        FaceState { faces: st.faces.update(k, st.faces[k].push(line)), ..st }
    } else {
        st
    }
}

/// The state after the first `k` lines of `lines`, each trimmed.
pub open spec fn faces_after(lines: Seq<Seq<char>>, k: int) -> FaceState
    decreases k,
{
    if k <= 0 {
        FaceState { current: None, faces: Seq::new(6, |i: int| Seq::empty()) }
    } else {
        face_step(faces_after(lines, k - 1), trim_ws(lines[k - 1]))
    }
}

/// `faces` holds, for each of the six faces in order, the samples of the raw
/// lines `st` kept for it.
pub open spec fn faces_match(faces: Vec<Vec<RawLine>>, st: FaceState) -> bool {
    &&& faces@.len() == 6
    &&& st.faces.len() == 6
    &&& forall|k: int|
        0 <= k < 6 ==> (#[trigger] faces@[k])@.len() == st.faces[k].len() && forall|i: int|
            0 <= i < st.faces[k].len() ==> crate::rawline::raw_line_spec(
                st.faces[k][i],
                Some(#[trigger] faces@[k]@[i]),
            )
}

/// The open face as an index, given the open section's name.
pub open spec fn open_face(current: Option<Seq<char>>) -> Option<usize> {
    match current {
        Some(f) => face_index(f),
        None => None,
    }
}

/// The face named by `s[from..to]`, if it is one of the six.
fn face_slot(s: &Vec<char>, from: usize, to: usize) -> (r: Option<usize>)
    requires
        from <= to <= s@.len(),
    ensures
        r == face_index(s@.subrange(from as int, to as int)),
{
    let ghost f = s@.subrange(from as int, to as int);
    proof {
        reveal_strlit("+X");
        reveal_strlit("-X");
        reveal_strlit("+Y");
        reveal_strlit("-Y");
        reveal_strlit("+Z");
        reveal_strlit("-Z");
        assert("+X"@ =~= seq!['+', 'X']);
        assert("-X"@ =~= seq!['-', 'X']);
        assert("+Y"@ =~= seq!['+', 'Y']);
        assert("-Y"@ =~= seq!['-', 'Y']);
        assert("+Z"@ =~= seq!['+', 'Z']);
        assert("-Z"@ =~= seq!['-', 'Z']);
    }
    if to - from != 2 {
        assert(f.len() != 2);
        return None;
    }
    let sign = s[from];
    let axis = s[from + 1];
    assert(f =~= seq![sign, axis]);
    if sign == '+' && axis == 'X' {
        Some(0)
    } else if sign == '-' && axis == 'X' {
        Some(1)
    } else if sign == '+' && axis == 'Y' {
        Some(2)
    } else if sign == '-' && axis == 'Y' {
        Some(3)
    } else if sign == '+' && axis == 'Z' {
        Some(4)
    } else if sign == '-' && axis == 'Z' {
        Some(5)
    } else {
        None
    }
}

/// Two lists of lines that agree on their first `k` lines leave the same
/// face state after them.
proof fn lemma_faces_after_agree(l1: Seq<Seq<char>>, l2: Seq<Seq<char>>, k: int)
    requires
        0 <= k <= l1.len(),
        k <= l2.len(),
        forall|j: int| 0 <= j < k ==> l1[j] == l2[j],
    ensures
        faces_after(l1, k) == faces_after(l2, k),
    decreases k,
{
    if k > 0 {
        lemma_faces_after_agree(l1, l2, k - 1);
    }
}

/// Takes one trimmed line `s[a..b]` of a six-face capture.
fn absorb_face_line(
    s: &Vec<char>,
    a: usize,
    b: usize,
    begin: &Vec<char>,
    end_marker: &Vec<char>,
    current: &mut Option<usize>,
    faces: &mut Vec<Vec<RawLine>>,
    Ghost(st): Ghost<FaceState>,
)
    requires
        a <= b <= s@.len(),
        begin@ == "# face_begin "@,
        end_marker@ == "# face_end "@,
        *old(current) == open_face(st.current),
        faces_match(*old(faces), st),
    ensures
        ({
            let st1 = face_step(st, s@.subrange(a as int, b as int));
            &&& *final(current) == open_face(st1.current)
            &&& faces_match(*final(faces), st1)
        }),
{
    let ghost line = s@.subrange(a as int, b as int);
    proof {
        reveal_strlit("# face_begin ");
    }
    if slice_starts_with(s, a, b, begin) {
        *current = face_slot(s, a + 13, b);
        assert(s@.subrange(a + 13, b as int) =~= line.skip(13));
    } else if slice_starts_with(s, a, b, end_marker) {
        *current = None;
    } else {
        match *current {
            Some(k) => {
                let piece = copy_range(s, a, b);
                match parse_raw_fields(piece.as_str()) {
                    Some(raw) => {
                        let ghost before = faces@;
                        let mut list = faces.remove(k);
                        list.push(raw);
                        faces.insert(k, list);
                        proof {
                            let st1 = face_step(st, line);
                            assert(st1.faces == st.faces.update(k as int, st.faces[k as int].push(line)));
                            assert forall|j: int| 0 <= j < 6 implies (#[trigger] faces@[j])@.len()
                                == st1.faces[j].len() && forall|i: int|
                                0 <= i < st1.faces[j].len() ==> crate::rawline::raw_line_spec(
                                st1.faces[j][i],
                                Some(#[trigger] faces@[j]@[i]),
                            ) by {
                                if j == k {
                                    assert(faces@[j]@ == before[j]@.push(raw));
                                } else {
                                    assert(faces@[j] == before[j]);
                                }
                            }
                        }
                    },
                    None => {},
                }
            },
            None => {},
        }
    }
}

/// Reads a six-face capture: the raw sample lines inside each
/// `# face_begin F` ... `# face_end F` section, for the six faces in the order
/// `+X, -X, +Y, -Y, +Z, -Z`; each line is trimmed first, and sections of other
/// names are ignored.
pub fn parse_sixface_text(text: &str) -> (r: Vec<Vec<RawLine>>)
    ensures
        faces_match(r, faces_after(segments(text@), segments(text@).len() as int)),
{
    let s = chars_of(text);
    let begin = chars_of("# face_begin ");
    let end_marker = chars_of("# face_end ");
    let mut faces: Vec<Vec<RawLine>> = Vec::new();
    let mut n: usize = 0;
    while n < 6
        invariant
            n <= 6,
            faces@.len() == n,
            forall|k: int| 0 <= k < n ==> (#[trigger] faces@[k])@.len() == 0,
        decreases 6 - n,
    {
        faces.push(Vec::new());
        n = n + 1;
    }
    let mut current: Option<usize> = None;
    let mut start: usize = 0;
    let mut i: usize = 0;
    let ghost mut done: int = 0;
    assert(s@.take(0) =~= Seq::<char>::empty());
    assert(s@.subrange(0, 0) =~= Seq::<char>::empty());
    assert(faces_match(faces, faces_after(segments(s@.take(0)), 0)));
    while i < s.len()
        invariant
            s@ == text@,
            begin@ == "# face_begin "@,
            end_marker@ == "# face_end "@,
            start <= i <= s@.len(),
            done >= 0,
            segments(s@.take(i as int)).len() == done + 1,
            segments(s@.take(i as int))[done] == s@.subrange(start as int, i as int),
            ({
                let st = faces_after(segments(s@.take(i as int)), done);
                &&& current == open_face(st.current)
                &&& faces_match(faces, st)
            }),
        decreases s@.len() - i,
    {
        let ghost before = segments(s@.take(i as int));
        assert(s@.take(i + 1).drop_last() =~= s@.take(i as int));
        if s[i] == '\n' {
            let (a, b) = trim_span(&s, start, i);
            absorb_face_line(
                &s,
                a,
                b,
                &begin,
                &end_marker,
                &mut current,
                &mut faces,
                Ghost(faces_after(before, done)),
            );
            proof {
                let after = segments(s@.take(i + 1));
                assert(after == before.push(Seq::<char>::empty()));
                lemma_faces_after_agree(before, after, done);
                done = done + 1;
            }
            start = i + 1;
            i = i + 1;
            assert(s@.subrange(start as int, i as int) =~= Seq::<char>::empty());
        } else {
            proof {
                let after = segments(s@.take(i + 1));
                assert(after == before.update(done, before[done].push(s@[i as int])));
                lemma_faces_after_agree(before, after, done);
                assert(s@.subrange(start as int, i + 1) =~= s@.subrange(start as int, i as int).push(
                    s@[i as int],
                ));
            }
            i = i + 1;
        }
    }
    assert(s@.take(s@.len() as int) =~= s@);
    let (a, b) = trim_span(&s, start, s.len());
    absorb_face_line(
        &s,
        a,
        b,
        &begin,
        &end_marker,
        &mut current,
        &mut faces,
        Ghost(faces_after(segments(s@), done)),
    );
    faces
}

/// Why a face mapping was refused.
#[derive(Debug, Clone, PartialEq, Eq)]
pub enum FaceMappingError {
    /// An axis value is not a string.
    NotString,
    /// A face or an axis is not one of the six.
    Invalid { face: String, axis: String },
}

/// The first refusal among `entries` (a face and its axis, if the axis is a
/// string), or none.
pub open spec fn mapping_refusal(entries: Seq<(String, Option<String>)>) -> Option<FaceMappingError>
    decreases entries.len(),
{
    if entries.len() == 0 {
        None
    } else {
        let (face, axis) = entries[0];
        match axis {
            None => Some(FaceMappingError::NotString),
            Some(a) => if face_index(face@) is None || face_index(a@) is None {
                Some(FaceMappingError::Invalid { face, axis: a })
            } else {
                mapping_refusal(entries.drop_first())
            },
        }
    }
}

/// Checks a face-to-axis mapping: every axis must be a string, and every face
/// and axis one of `+X, -X, +Y, -Y, +Z, -Z`; the first entry that is not is
/// refused. On success the pairs are returned in order.
pub fn check_face_mapping(entries: Vec<(String, Option<String>)>) -> (r: Result<
    Vec<(String, String)>,
    FaceMappingError,
>)
    ensures
        match mapping_refusal(entries@) {
            Some(e) => r == Err::<Vec<(String, String)>, FaceMappingError>(e),
            None => r matches Ok(pairs) && pairs@.len() == entries@.len() && forall|i: int|
                0 <= i < entries@.len() ==> (#[trigger] pairs@[i]).0 == entries@[i].0 && Some(
                    pairs@[i].1,
                ) == entries@[i].1,
        },
{
    let mut out: Vec<(String, String)> = Vec::new();
    let mut i: usize = 0;
    assert(entries@.skip(0) =~= entries@);
    while i < entries.len()
        invariant
            i <= entries@.len(),
            out@.len() == i,
            forall|j: int|
                0 <= j < i ==> (#[trigger] out@[j]).0 == entries@[j].0 && Some(out@[j].1)
                    == entries@[j].1,
            mapping_refusal(entries@) == mapping_refusal(entries@.skip(i as int)),
        decreases entries@.len() - i,
    {
        let ghost rest = entries@.skip(i as int);
        assert(rest[0] == entries@[i as int]);
        assert(rest.drop_first() =~= entries@.skip(i + 1));
        let face = entries[i].0.clone();
        match &entries[i].1 {
            None => {
                return Err(FaceMappingError::NotString);
            },
            Some(axis) => {
                let fc = chars_of(face.as_str());
                let ac = chars_of(axis.as_str());
                assert(fc@.subrange(0, fc@.len() as int) =~= fc@);
                assert(ac@.subrange(0, ac@.len() as int) =~= ac@);
                let f = face_slot(&fc, 0, fc.len());
                let a = face_slot(&ac, 0, ac.len());
                if f.is_none() || a.is_none() {
                    return Err(FaceMappingError::Invalid { face, axis: axis.clone() });
                }
                out.push((face, axis.clone()));
            },
        }
        i = i + 1;
    }
    assert(entries@.skip(i as int).len() == 0);
    Ok(out)
}

} // verus!
