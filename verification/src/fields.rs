//! Splitting lines of the serial log into whitespace-separated fields and
//! `key=value` pairs.
use vstd::prelude::*;

verus! {

/// Unicode `White_Space`, the set `char::is_whitespace` tests.
pub open spec fn is_ws(c: char) -> bool {
    ||| '\u{9}' <= c <= '\u{d}'
    ||| c == ' '
    ||| c == '\u{85}'
    ||| c == '\u{a0}'
    ||| c == '\u{1680}'
    ||| '\u{2000}' <= c <= '\u{200a}'
    ||| c == '\u{2028}'
    ||| c == '\u{2029}'
    ||| c == '\u{202f}'
    ||| c == '\u{205f}'
    ||| c == '\u{3000}'
}

/// Whether `c` is Unicode whitespace.
pub fn is_whitespace(c: char) -> (r: bool)
    ensures
        r == is_ws(c),
{
    ('\u{9}' <= c && c <= '\u{d}') || c == ' ' || c == '\u{85}' || c == '\u{a0}' || c == '\u{1680}'
        || ('\u{2000}' <= c && c <= '\u{200a}') || c == '\u{2028}' || c == '\u{2029}' || c
        == '\u{202f}' || c == '\u{205f}' || c == '\u{3000}'
}

/// The spans (start, end) of the maximal runs of non-whitespace characters of
/// `s`, in order: the fields `split_whitespace` yields.
pub open spec fn spans(s: Seq<char>) -> Seq<(usize, usize)>
    decreases s.len(),
{
    if s.len() == 0 {
        Seq::empty()
    } else {
        let w = spans(s.drop_last());
        let n = s.len();
        if is_ws(s.last()) {
            w
        } else if n >= 2 && !is_ws(s[n - 2]) {
            w.update(w.len() - 1, (w.last().0, n as usize))
        } else {
            w.push(((n - 1) as usize, n as usize))
        }
    }
}

/// The characters of `s` in `span`.
pub open spec fn field(s: Seq<char>, span: (usize, usize)) -> Seq<char> {
    s.subrange(span.0 as int, span.1 as int)
}

/// The fields of `s`.
pub open spec fn fields(s: Seq<char>) -> Seq<Seq<char>> {
    spans(s).map_values(|sp: (usize, usize)| field(s, sp))
}

/// Every span lies within `s`, in increasing order.
pub open spec fn spans_ok(s: Seq<char>, sp: Seq<(usize, usize)>) -> bool {
    forall|i: int| #![trigger sp[i]] 0 <= i < sp.len() ==> sp[i].0 < sp[i].1 <= s.len()
}

/// The whitespace-separated fields of `s`, as spans.
pub fn split_whitespace(s: &Vec<char>) -> (r: Vec<(usize, usize)>)
    ensures
        r@ == spans(s@),
        spans_ok(s@, r@),
{
    let mut out: Vec<(usize, usize)> = Vec::new();
    let mut i: usize = 0;
    while i < s.len()
        invariant
            i <= s@.len(),
            out@ == spans(s@.take(i as int)),
            spans_ok(s@.take(i as int), out@),
            (i > 0 && !is_ws(s@[i - 1])) ==> out@.len() > 0 && out@.last().1 == i,
        decreases s@.len() - i,
    {
        let c = s[i];
        let ghost prefix = s@.take(i as int + 1);
        assert(prefix.drop_last() =~= s@.take(i as int));
        if is_whitespace(c) {
        } else if i > 0 && !is_whitespace(s[i - 1]) {
            let last = out.len() - 1;
            let start = out[last].0;
            out.set(last, (start, i + 1));
        } else {
            out.push((i, i + 1));
        }
        i = i + 1;
    }
    assert(s@.take(s@.len() as int) =~= s@);
    out
}

/// `s` begins with `prefix`.
pub open spec fn starts_with(s: Seq<char>, prefix: Seq<char>) -> bool {
    s.len() >= prefix.len() && s.take(prefix.len() as int) == prefix
}

/// Whether `s[from..to]` equals `lit`.
pub fn slice_eq(s: &Vec<char>, from: usize, to: usize, lit: &Vec<char>) -> (r: bool)
    requires
        from <= to <= s@.len(),
    ensures
        r == (s@.subrange(from as int, to as int) == lit@),
{
    if to - from != lit.len() {
        return false;
    }
    let mut i: usize = 0;
    while i < lit.len()
        invariant
            to - from == lit@.len(),
            from <= to <= s@.len(),
            i <= lit@.len(),
            forall|j: int| 0 <= j < i ==> s@[from + j] == lit@[j],
        decreases lit@.len() - i,
    {
        if s[from + i] != lit[i] {
            assert(s@.subrange(from as int, to as int)[i as int] != lit@[i as int]);
            return false;
        }
        i = i + 1;
    }
    assert(s@.subrange(from as int, to as int) =~= lit@);
    true
}

/// Whether `s[from..to]` begins with `lit`.
pub fn slice_starts_with(s: &Vec<char>, from: usize, to: usize, lit: &Vec<char>) -> (r: bool)
    requires
        from <= to <= s@.len(),
    ensures
        r == starts_with(s@.subrange(from as int, to as int), lit@),
{
    if to - from < lit.len() {
        return false;
    }
    let r = slice_eq(s, from, from + lit.len(), lit);
    assert(s@.subrange(from as int, to as int).take(lit@.len() as int) =~= s@.subrange(
        from as int,
        from + lit@.len(),
    ));
    r
}

/// ASCII upper-case letters made lower-case; everything else unchanged.
pub open spec fn ascii_lower(c: char) -> char {
    if 'A' <= c <= 'Z' {
        (((c as u32) + 32) as u8) as char
    } else {
        c
    }
}

/// `s` with ASCII letters made lower-case.
pub open spec fn to_ascii_lower(s: Seq<char>) -> Seq<char> {
    s.map_values(|c: char| ascii_lower(c))
}

/// `s[from..to]` with ASCII letters made lower-case.
pub fn lower_slice(s: &Vec<char>, from: usize, to: usize) -> (r: String)
    requires
        from <= to <= s@.len(),
    ensures
        r@ == to_ascii_lower(s@.subrange(from as int, to as int)),
{
    let mut out = String::new();
    let mut i = from;
    while i < to
        invariant
            from <= i <= to <= s@.len(),
            out@ == to_ascii_lower(s@.subrange(from as int, i as int)),
        decreases to - i,
    {
        let c = s[i];
        let l = if 'A' <= c && c <= 'Z' {
            let code = (c as u32 + 32) as u8;
            code as char
        } else {
            c
        };
        crate::text::push_char(&mut out, l);
        i = i + 1;
        assert(out@ =~= to_ascii_lower(s@.subrange(from as int, i as int)));
    }
    out
}

/// `words` joined with single spaces.
pub open spec fn joined(words: Seq<Seq<char>>) -> Seq<char>
    decreases words.len(),
{
    if words.len() == 0 {
        Seq::empty()
    } else if words.len() == 1 {
        words[0]
    } else {
        joined(words.drop_last()) + seq![' '] + words.last()
    }
}

/// A non-empty word without whitespace.
pub open spec fn plain_word(w: Seq<char>) -> bool {
    &&& w.len() > 0
    &&& forall|i: int| 0 <= i < w.len() ==> !is_ws(#[trigger] w[i])
}

/// A whitespace character leaves the fields as they were.
proof fn lemma_spans_push_ws(s: Seq<char>, c: char)
    requires
        is_ws(c),
    ensures
        spans(s.push(c)) == spans(s),
{
    assert(s.push(c).drop_last() =~= s);
}

/// A word appended after whitespace (or at the start) becomes one more field.
proof fn lemma_spans_append_word(s: Seq<char>, w: Seq<char>, k: int)
    requires
        plain_word(w),
        1 <= k <= w.len(),
        s.len() == 0 || is_ws(s.last()),
        s.len() + w.len() <= usize::MAX,
    ensures
        spans(s + w.take(k)) == spans(s).push((s.len() as usize, (s.len() + k) as usize)),
    decreases k,
{
    let t = s + w.take(k);
    assert(t.drop_last() =~= s + w.take(k - 1));
    assert(t.last() == w[k - 1]);
    if k == 1 {
        assert(s + w.take(0) =~= s);
    } else {
        lemma_spans_append_word(s, w, k - 1);
        assert(t[t.len() - 2] == w[k - 2]);
    }
}

/// Words joined by single spaces split back into those words.
pub proof fn lemma_fields_of_joined(words: Seq<Seq<char>>)
    requires
        forall|i: int| 0 <= i < words.len() ==> plain_word(#[trigger] words[i]),
        joined(words).len() <= usize::MAX,
    ensures
        fields(joined(words)) == words,
{
    lemma_fields_of_joined_after(Seq::empty(), words);
    assert(Seq::<char>::empty() + joined(words) =~= joined(words));
}

/// Words joined by single spaces, after some whitespace, split back into
/// those words.
pub proof fn lemma_fields_of_joined_after(lead: Seq<char>, words: Seq<Seq<char>>)
    requires
        forall|i: int| 0 <= i < words.len() ==> plain_word(#[trigger] words[i]),
        forall|i: int| 0 <= i < lead.len() ==> is_ws(#[trigger] lead[i]),
        lead.len() + joined(words).len() <= usize::MAX,
    ensures
        fields(lead + joined(words)) == words,
    decreases words.len(),
{
    let j = lead + joined(words);
    if words.len() == 0 {
        lemma_spans_all_ws(lead);
        assert(lead + joined(words) =~= lead);
        assert(fields(j) =~= words);
    } else {
        let init = words.drop_last();
        let w = words.last();
        assert(plain_word(w));
        let p = if words.len() == 1 {
            lead
        } else {
            lead + joined(init) + seq![' ']
        };
        assert(j =~= p + w);
        if words.len() > 1 {
            lemma_fields_of_joined_after(lead, init);
            lemma_spans_push_ws(lead + joined(init), ' ');
            assert((lead + joined(init)).push(' ') =~= p);
        } else {
            lemma_spans_all_ws(lead);
        }
        assert(p.len() == 0 || is_ws(p.last()));
        lemma_spans_append_word(p, w, w.len() as int);
        assert(w.take(w.len() as int) =~= w);
        let sp = spans(j);
        assert(sp == spans(p).push((p.len() as usize, (p.len() + w.len()) as usize)));
        assert forall|i: int| 0 <= i < words.len() implies #[trigger] fields(j)[i] == words[i] by {
            if i < words.len() - 1 {
                let q = lead + joined(init);
                assert(spans(p) == spans(q));
                assert(fields(q)[i] == init[i]);
                let spi = spans(p)[i];
                assert(field(q, spi) == init[i]);
                assert(spi.0 < spi.1 <= q.len()) by {
                    lemma_spans_ok(q);
                }
                assert(j.subrange(0, q.len() as int) =~= q);
                assert(field(j, spi) =~= field(q, spi));
            } else {
                assert(field(j, sp[i]) =~= w);
            }
        }
        assert(fields(j) =~= words);
    }
}

/// Whitespace alone has no fields.
proof fn lemma_spans_all_ws(s: Seq<char>)
    requires
        forall|i: int| 0 <= i < s.len() ==> is_ws(#[trigger] s[i]),
    ensures
        spans(s) == Seq::<(usize, usize)>::empty(),
    decreases s.len(),
{
    if s.len() > 0 {
        assert(is_ws(s[s.len() - 1]));
        lemma_spans_all_ws(s.drop_last());
    }
}

/// Every span lies within the text, in order.
pub proof fn lemma_spans_ok(s: Seq<char>)
    requires
        s.len() <= usize::MAX,
    ensures
        spans_ok(s, spans(s)),
    decreases s.len(),
{
    if s.len() > 0 {
        lemma_spans_ok(s.drop_last());
        let w = spans(s.drop_last());
        let n = s.len();
        if !is_ws(s.last()) && n >= 2 && !is_ws(s[n - 2]) {
            assert(s.drop_last().last() == s[n - 2]);
            lemma_last_span_ends_at(s.drop_last());
        }
        let sp = spans(s);
        assert forall|i: int| 0 <= i < sp.len() implies #[trigger] sp[i].0 < sp[i].1 <= s.len() by {
            if i < w.len() {
                assert(spans_ok(s.drop_last(), w));
                assert(w[i].0 < w[i].1 <= s.drop_last().len());
            }
        }
    }
}

/// When the text ends in a non-whitespace character, the last span ends at
/// the end of the text.
proof fn lemma_last_span_ends_at(s: Seq<char>)
    requires
        s.len() > 0,
        s.len() <= usize::MAX,
        !is_ws(s.last()),
    ensures
        spans(s).len() > 0,
        spans(s).last().1 == s.len(),
        spans(s).last().0 < spans(s).last().1,
    decreases s.len(),
{
    let n = s.len();
    if n >= 2 && !is_ws(s[n - 2]) {
        assert(s.drop_last().last() == s[n - 2]);
        lemma_last_span_ends_at(s.drop_last());
    }
}

} // verus!
