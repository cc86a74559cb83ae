//! The text exposition format: one line per metric, made of the metric's
//! name, an optional `{key="value",...}` label suffix, blanks, and the value
//! in decimal notation.

use crate::identity::{IdentityView, MetricIdentity};
use crate::labels::{has_key, label_insert, LabelSeq, LabelSet};
use crate::registry::{metric_views, Metric, MetricView};
use crate::sample::{RawSample, SampleView};
use crate::sample::{sample_views, samples_wf, ParseOutcome};
use crate::text::{
    byte_is_word_start, bytes_of, copy_bytes, lemma_text_of_lines_concat, decimal_text, decimal_value, is_valid_name, lemma_run_len,
    lines_of, next_line, parse_decimal, push_bytes, push_decimal, run_len, scan, text_of_lines,
    valid_key, valid_name, ByteClass,
};
use vstd::prelude::*;
use vstd::slice::slice_subrange;
use vstd::string::StringSliceAdditionalSpecFns;

verus! {

/// How one byte of a label value is written between the quotes: a
/// backslash, a double quote and a line feed are written as two-byte escape
/// sequences, every other byte stands for itself.
pub open spec fn escape_byte(b: u8) -> Seq<u8> {
    if b == 92 {
        seq![92u8, 92u8]
    } else if b == 34 {
        seq![92u8, 34u8]
    } else if b == 10 {
        seq![92u8, 110u8]
    } else {
        seq![b]
    }
}

/// A label value as it is written between the quotes.
pub open spec fn escaped(v: Seq<u8>) -> Seq<u8>
    decreases v.len(),
{
    if v.len() == 0 {
        Seq::empty()
    } else {
        escape_byte(v[0]) + escaped(v.skip(1))
    }
}

/// One label as text: `key="value"`.
pub open spec fn label_text(l: (Seq<u8>, Seq<u8>)) -> Seq<u8> {
    l.0 + seq![61u8, 34u8] + escaped(l.1) + seq![34u8]
}

/// The labels of `s` from index `i` on as text, each followed by a comma
/// but the last, which is followed by the closing brace.
pub open spec fn labels_text_from(s: LabelSeq, i: int) -> Seq<u8>
    decreases s.len() - i,
{
    if i < 0 || i >= s.len() {
        Seq::empty()
    } else if i == s.len() - 1 {
        label_text(s[i]) + seq![125u8]
    } else {
        label_text(s[i]) + seq![44u8] + labels_text_from(s, i + 1)
    }
}

/// An identity as text: the name, followed by the labels in braces where
/// there are any.
pub open spec fn identity_text(id: IdentityView) -> Seq<u8> {
    if id.labels.len() == 0 {
        id.name
    } else {
        id.name + seq![123u8] + labels_text_from(id.labels, 0)
    }
}

/// The line of one metric: identity, a single space, the value.
pub open spec fn metric_line(m: MetricView) -> Seq<u8> {
    identity_text(m.identity) + seq![32u8] + decimal_text(m.value)
}

/// The lines of a sequence of metrics, in order.
pub open spec fn metric_lines(s: Seq<MetricView>) -> Seq<Seq<u8>> {
    s.map_values(|m: MetricView| metric_line(m))
}

/// The content type of the exposition format.
pub open spec fn text_content_type() -> Seq<char> {
    "text/plain; version=0.0.4"@
}

/// The byte that follows a backslash in an escape sequence.
pub open spec fn is_escape_code(b: u8) -> bool {
    b == 92 || b == 34 || b == 110
}

/// The byte that an escape sequence with code `b` stands for.
pub open spec fn unescape_code(b: u8) -> u8 {
    if b == 110 {
        10
    } else {
        b
    }
}

/// Reads a label value up to its closing quote: the value, and the number
/// of bytes read, the quote included. `None` where the quote is missing or
/// a backslash is followed by anything but a backslash, a quote or `n`.
pub open spec fn read_quoted(s: Seq<u8>) -> Option<(Seq<u8>, nat)>
    decreases s.len(),
{
    if s.len() == 0 {
        None
    } else if s[0] == 34 {
        Some((Seq::empty(), 1nat))
    } else if s[0] == 92 {
        if s.len() >= 2 && is_escape_code(s[1]) {
            match read_quoted(s.skip(2)) {
                Some((v, n)) => Some((seq![unescape_code(s[1])] + v, n + 2)),
                None => None,
            }
        } else {
            None
        }
    } else {
        match read_quoted(s.skip(1)) {
            Some((v, n)) => Some((seq![s[0]] + v, n + 1)),
            None => None,
        }
    }
}

/// Reads labels up to the closing brace, starting at a key: the labels
/// read, added to `acc`, and the number of bytes read, the brace included.
/// `None` where the text has another shape or a key comes twice.
pub open spec fn read_labels(s: Seq<u8>, acc: LabelSeq) -> Option<(LabelSeq, nat)>
    decreases s.len(),
{
    let k = run_len(s, ByteClass::Key);
    let key = s.take(k as int);
    if !valid_key(key) || has_key(acc, key) || k + 2 > s.len() || s[k as int] != 61 || s[k as int
        + 1] != 34 {
        None
    } else {
        match read_quoted(s.skip(k as int + 2)) {
            None => None,
            Some((v, n)) => {
                let used = k + 2 + n;
                let next = label_insert(acc, key, v);
                if used < s.len() && s[used as int] == 44 {
                    match read_labels(s.skip(used as int + 1), next) {
                        Some((labels, m)) => Some((labels, used + 1 + m)),
                        None => None,
                    }
                } else if used < s.len() && s[used as int] == 125 {
                    Some((next, (used + 1) as nat))
                } else {
                    None
                }
            },
        }
    }
}

/// Reads the optional label suffix that follows a name: nothing, `{}`, or
/// labels in braces.
pub open spec fn read_suffix(s: Seq<u8>) -> Option<(LabelSeq, nat)> {
    if s.len() > 0 && s[0] == 123 {
        if s.len() > 1 && s[1] == 125 {
            Some((Seq::empty(), 2nat))
        } else {
            match read_labels(s.skip(1), Seq::empty()) {
                Some((labels, n)) => Some((labels, n + 1)),
                None => None,
            }
        }
    } else {
        Some((Seq::empty(), 0nat))
    }
}

/// Reads the value that ends a line: at least one blank, a value in
/// decimal notation, optional blanks, and nothing more.
pub open spec fn read_value(s: Seq<u8>) -> Option<i64> {
    let gap = run_len(s, ByteClass::Blank);
    let after_gap = s.skip(gap as int);
    let width = run_len(after_gap, ByteClass::Graphic);
    let after_value = after_gap.skip(width as int);
    let trail = run_len(after_value, ByteClass::Blank);
    if gap > 0 && trail == after_value.len() {
        decimal_value(after_gap.take(width as int))
    } else {
        None
    }
}

/// The sample that a line denotes: optional blanks, a metric name, an
/// optional label suffix directly behind it, at least one blank, a value in
/// decimal notation, optional blanks. `None` for every other line.
pub open spec fn sample_of_line(line: Seq<u8>) -> Option<SampleView> {
    let lead = run_len(line, ByteClass::Blank);
    let after_lead = line.skip(lead as int);
    let n = run_len(after_lead, ByteClass::Name);
    let name = after_lead.take(n as int);
    let after_name = after_lead.skip(n as int);
    if !valid_name(name) {
        None
    } else {
        match read_suffix(after_name) {
            None => None,
            Some((labels, used)) => match read_value(after_name.skip(used as int)) {
                Some(v) => Some(
                    SampleView { identity: IdentityView { name, labels }, value: v as int },
                ),
                None => None,
            },
        }
    }
}

/// A line that carries nothing: blank, or a comment, which starts with `#`
/// after optional blanks.
pub open spec fn is_ignorable_line(line: Seq<u8>) -> bool {
    let lead = run_len(line, ByteClass::Blank);
    lead == line.len() || line[lead as int] == 35
}

/// A malformed line: one that carries something and is no sample.
pub open spec fn is_malformed_line(line: Seq<u8>) -> bool {
    !is_ignorable_line(line) && sample_of_line(line).is_none()
}

/// The samples of an exposition text: those of its sample lines, in order.
pub open spec fn exposition_samples(raw: Seq<u8>) -> Seq<SampleView> {
    lines_samples(lines_of(raw))
}

/// The samples that the given lines denote, in order.
pub open spec fn lines_samples(lines: Seq<Seq<u8>>) -> Seq<SampleView> {
    lines.filter_map(
        |l: Seq<u8>|
            if is_ignorable_line(l) {
                None
            } else {
                sample_of_line(l)
            },
    )
}

/// The number of malformed lines among the given lines.
pub open spec fn lines_malformed(lines: Seq<Seq<u8>>) -> nat {
    lines.filter(|l: Seq<u8>| is_malformed_line(l)).len()
}

/// Appends a label value as it is written between the quotes.
fn push_escaped(out: &mut Vec<u8>, v: &[u8])
    ensures
        final(out)@ == old(out)@ + escaped(v@),
{
    let mut i: usize = 0;
    assert(v@.skip(0) =~= v@);
    while i < v.len()
        invariant
            i <= v.len(),
            out@ + escaped(v@.skip(i as int)) == old(out)@ + escaped(v@),
        decreases v.len() - i,
    {
        let b: u8 = v[i];
        let ghost before = out@;
        proof {
            assert(v@.skip(i as int)[0] == b);
            assert(v@.skip(i as int).skip(1) =~= v@.skip(i + 1));
        }
        if b == 92 {
            out.push(92);
            out.push(92);
        } else if b == 34 {
            out.push(92);
            out.push(34);
        } else if b == 10 {
            out.push(92);
            out.push(110);
        } else {
            out.push(b);
        }
        proof {
            assert(out@ =~= before + escape_byte(b));
            assert(out@ + escaped(v@.skip(i + 1)) =~= before + escaped(v@.skip(i as int)));
        }
        i += 1;
    }
    assert(out@ + escaped(v@.skip(v.len() as int)) =~= out@);
}

/// Appends an identity as text.
fn push_identity(out: &mut Vec<u8>, identity: &MetricIdentity)
    ensures
        final(out)@ == old(out)@ + identity_text(identity@),
{
    push_bytes(out, identity.name().as_slice());
    let labels = identity.labels();
    let n = labels.len();
    if n > 0 {
        out.push(123);
        let ghost base = out@;
        let mut i: usize = 0;
        while i < n
            invariant
                i <= n,
                n == labels@.len(),
                n > 0,
                out@ + labels_text_from(labels@, i as int) == base + labels_text_from(labels@, 0),
            decreases n - i,
        {
            let ghost before = out@;
            push_bytes(out, labels.key_at(i).as_slice());
            out.push(61);
            out.push(34);
            push_escaped(out, labels.value_at(i).as_slice());
            out.push(34);
            if i + 1 < n {
                out.push(44);
            } else {
                out.push(125);
            }
            proof {
                let l = labels@[i as int];
                if i + 1 < n {
                    assert(out@ =~= before + (label_text(l) + seq![44u8]));
                    assert(out@ + labels_text_from(labels@, i + 1) =~= before + labels_text_from(
                        labels@,
                        i as int,
                    ));
                } else {
                    assert(out@ =~= before + (label_text(l) + seq![125u8]));
                    assert(out@ + labels_text_from(labels@, i + 1) =~= before + labels_text_from(
                        labels@,
                        i as int,
                    ));
                }
            }
            i += 1;
        }
        assert(out@ + labels_text_from(labels@, n as int) =~= out@);
        assert(out@ =~= old(out)@ + identity_text(identity@));
    }
}

/// Appends the line of one metric, without a line feed.
pub fn push_metric_line(out: &mut Vec<u8>, metric: &Metric)
    ensures
        final(out)@ == old(out)@ + metric_line(metric@),
{
    push_identity(out, metric.identity());
    out.push(32);
    push_decimal(out, metric.value());
    assert(out@ =~= old(out)@ + metric_line(metric@));
}

/// The content type under which an exposition payload is served.
pub fn content_type() -> (r: &'static str)
    ensures
        r@ == text_content_type(),
{
    "text/plain; version=0.0.4"
}

/// Renders a snapshot: one line per metric, in snapshot order, each closed
/// by a line feed, together with the content type of the format.
pub fn render(snapshot: &Vec<Metric>) -> (r: (Vec<u8>, &'static str))
    ensures
        r.0@ == text_of_lines(metric_lines(metric_views(snapshot@))),
        r.1@ == text_content_type(),
{
    let mut out: Vec<u8> = Vec::new();
    let mut i: usize = 0;
    let ghost lines = metric_lines(metric_views(snapshot@));
    assert(text_of_lines(lines.take(0)) =~= Seq::<u8>::empty());
    while i < snapshot.len()
        invariant
            i <= snapshot.len(),
            lines == metric_lines(metric_views(snapshot@)),
            out@ == text_of_lines(lines.take(i as int)),
        decreases snapshot.len() - i,
    {
        push_metric_line(&mut out, &snapshot[i]);
        out.push(10);
        proof {
            assert(lines.take(i + 1).drop_last() =~= lines.take(i as int));
            assert(lines.take(i + 1).last() == metric_line(snapshot@[i as int]@));
            assert(out@ =~= text_of_lines(lines.take(i + 1)));
        }
        i += 1;
    }
    assert(lines.take(snapshot.len() as int) =~= lines);
    (out, content_type())
}

/// A reading of a quoted value that continues after `k` bytes that gave
/// `prefix`.
spec fn quoted_after(prefix: Seq<u8>, k: nat, r: Option<(Seq<u8>, nat)>) -> Option<
    (Seq<u8>, nat),
> {
    match r {
        Some((v, n)) => Some((prefix + v, n + k)),
        None => None,
    }
}

/// A reading of labels that continues after `k` bytes.
spec fn labels_after(k: nat, r: Option<(LabelSeq, nat)>) -> Option<(LabelSeq, nat)> {
    match r {
        Some((l, n)) => Some((l, n + k)),
        None => None,
    }
}

/// Reads the label value that starts at index `start` of `t`, up to its
/// closing quote.
fn read_quoted_value(t: &[u8], start: usize) -> (r: Option<(Vec<u8>, usize)>)
    requires
        start <= t.len(),
    ensures
        match r {
            Some((v, n)) => read_quoted(t@.skip(start as int)) == Some((v@, n as nat)) && start + n
                <= t.len(),
            None => read_quoted(t@.skip(start as int)).is_none(),
        },
{
    let mut acc: Vec<u8> = Vec::new();
    let mut i: usize = start;
    let ghost whole = read_quoted(t@.skip(start as int));
    proof {
        match whole {
            Some((v, n)) => {
                assert(Seq::<u8>::empty() + v =~= v);
            },
            None => {},
        }
    }
    loop
        invariant
            start <= i <= t.len(),
            whole == read_quoted(t@.skip(start as int)),
            whole == quoted_after(acc@, (i - start) as nat, read_quoted(t@.skip(i as int))),
        decreases t.len() - i,
    {
        let ghost s = t@.skip(i as int);
        if i >= t.len() {
            return None;
        }
        let b: u8 = t[i];
        assert(s[0] == b);
        if b == 34 {
            assert(acc@ + Seq::<u8>::empty() =~= acc@);
            return Some((acc, i + 1 - start));
        }
        if b == 92 {
            if i + 1 >= t.len() {
                return None;
            }
            let code: u8 = t[i + 1];
            assert(s[1] == code);
            if !(code == 92 || code == 34 || code == 110) {
                return None;
            }
            let ghost before = acc@;
            acc.push(if code == 110 { 10 } else { code });
            proof {
                assert(s.skip(2) =~= t@.skip(i + 2));
                match read_quoted(s.skip(2)) {
                    Some((v, n)) => {
                        assert(before + (seq![unescape_code(code)] + v) =~= acc@ + v);
                    },
                    None => {},
                }
            }
            i += 2;
        } else {
            let ghost before = acc@;
            acc.push(b);
            proof {
                assert(s.skip(1) =~= t@.skip(i + 1));
                match read_quoted(s.skip(1)) {
                    Some((v, n)) => {
                        assert(before + (seq![b] + v) =~= acc@ + v);
                    },
                    None => {},
                }
            }
            i += 1;
        }
    }
}

/// Reads the labels that start at index `start` of `t`, just behind the
/// opening brace, up to the closing brace.
fn read_label_list(t: &[u8], start: usize) -> (r: Option<(LabelSet, usize)>)
    requires
        start <= t.len(),
    ensures
        match r {
            Some((labels, n)) => read_labels(t@.skip(start as int), Seq::empty()) == Some(
                (labels@, n as nat),
            ) && start + n <= t.len() && labels.wf(),
            None => read_labels(t@.skip(start as int), Seq::empty()).is_none(),
        },
{
    let mut labels = LabelSet::new();
    let mut i: usize = start;
    let ghost whole = read_labels(t@.skip(start as int), Seq::empty());
    loop
        invariant
            start <= i <= t.len(),
            labels.wf(),
            whole == read_labels(t@.skip(start as int), Seq::empty()),
            whole == labels_after((i - start) as nat, read_labels(t@.skip(i as int), labels@)),
        decreases t.len() - i,
    {
        let ghost s = t@.skip(i as int);
        let k = scan(t, i, ByteClass::Key);
        let key = slice_subrange(t, i, i + k);
        proof {
            assert(key@ =~= s.take(k as int));
            lemma_run_len(s, ByteClass::Key);
            if k > 0 {
                assert(s[0] == t@[i as int]);
                assert(key@[0] == s[0]);
                assert forall|j: int| 0 <= j < key@.len() implies crate::text::is_key_byte(
                    #[trigger] key@[j],
                ) by {
                    assert(key@[j] == s[j]);
                }
            }
        }
        if k == 0 || !byte_is_word_start(t[i]) || labels.contains_key(key) {
            return None;
        }
        if t.len() - (i + k) < 2 || t[i + k] != 61 || t[i + k + 1] != 34 {
            assert(i + k + 2 <= t.len() ==> s[k as int] == t@[i + k] && s[k as int + 1] == t@[i
                + k + 1]);
            return None;
        }
        assert(s[k as int] == t@[i + k] && s[k as int + 1] == t@[i + k + 1]);
        assert(s.skip(k as int + 2) =~= t@.skip(i + k + 2));
        match read_quoted_value(t, i + k + 2) {
            None => {
                return None;
            },
            Some((value, n)) => {
                let p = i + k + 2 + n;
                if p >= t.len() {
                    return None;
                }
                let b: u8 = t[p];
                assert(s[k + 2 + n] == b);
                if b != 44 && b != 125 {
                    return None;
                }
                let ok = labels.insert(copy_bytes(key), value);
                assert(ok);
                if b == 125 {
                    return Some((labels, p + 1 - start));
                }
                assert(s.skip(k + 2 + n + 1) =~= t@.skip(p + 1));
                i = p + 1;
            },
        }
    }
}

/// Reads the optional label suffix at index `start` of `t`.
fn read_label_suffix(t: &[u8], start: usize) -> (r: Option<(LabelSet, usize)>)
    requires
        start <= t.len(),
    ensures
        match r {
            Some((labels, n)) => read_suffix(t@.skip(start as int)) == Some((labels@, n as nat))
                && start + n <= t.len() && labels.wf(),
            None => read_suffix(t@.skip(start as int)).is_none(),
        },
{
    let ghost s = t@.skip(start as int);
    if start < t.len() && t[start] == 123 {
        assert(s[0] == 123);
        if start + 1 < t.len() && t[start + 1] == 125 {
            assert(s[1] == 125);
            Some((LabelSet::new(), 2))
        } else {
            assert(start + 1 < t.len() ==> s[1] == t@[start + 1]);
            assert(s.skip(1) =~= t@.skip(start + 1));
            match read_label_list(t, start + 1) {
                Some((labels, n)) => Some((labels, n + 1)),
                None => None,
            }
        }
    } else {
        assert(start < t.len() ==> s[0] == t@[start as int]);
        Some((LabelSet::new(), 0))
    }
}

/// Reads the value that ends the line `t` from index `start` on.
fn read_value_at(t: &[u8], start: usize) -> (r: Option<i64>)
    requires
        start <= t.len(),
    ensures
        r == read_value(t@.skip(start as int)),
{
    let gap = scan(t, start, ByteClass::Blank);
    let g = start + gap;
    let width = scan(t, g, ByteClass::Graphic);
    let e = g + width;
    let trail = scan(t, e, ByteClass::Blank);
    let digits = slice_subrange(t, g, e);
    proof {
        let s = t@.skip(start as int);
        let after_gap = s.skip(gap as int);
        assert(after_gap =~= t@.skip(g as int));
        assert(after_gap.skip(width as int) =~= t@.skip(e as int));
        assert(digits@ =~= after_gap.take(width as int));
    }
    if gap == 0 || e + trail != t.len() {
        return None;
    }
    parse_decimal(digits)
}

/// Reads one line of exposition text as a sample; `None` for a line that
/// denotes no sample.
pub fn parse_line(line: &[u8]) -> (r: Option<RawSample>)
    ensures
        match r {
            Some(sample) => sample_of_line(line@) == Some(sample@) && sample.wf(),
            None => sample_of_line(line@).is_none(),
        },
{
    let lead = scan(line, 0, ByteClass::Blank);
    assert(line@.skip(0) =~= line@);
    let n = scan(line, lead, ByteClass::Name);
    let name = slice_subrange(line, lead, lead + n);
    let ghost after_lead = line@.skip(lead as int);
    let ghost after_name = after_lead.skip(n as int);
    assert(name@ =~= after_lead.take(n as int));
    assert(after_name =~= line@.skip(lead + n));
    if !is_valid_name(name) {
        return None;
    }
    match read_label_suffix(line, lead + n) {
        None => None,
        Some((labels, used)) => {
            assert(after_name.skip(used as int) =~= line@.skip(lead + n + used));
            match read_value_at(line, lead + n + used) {
                None => None,
                Some(v) => {
                    let identity = MetricIdentity::new(copy_bytes(name), labels);
                    Some(RawSample::new(identity.unwrap(), v))
                },
            }
        },
    }
}

/// Whether a line carries nothing: it is blank or a comment.
pub fn line_is_ignorable(line: &[u8]) -> (r: bool)
    ensures
        r == is_ignorable_line(line@),
{
    let lead = scan(line, 0, ByteClass::Blank);
    assert(line@.skip(0) =~= line@);
    lead == line.len() || line[lead] == 35
}

/// Parses exposition text line by line: every sample line gives a sample,
/// blank lines and comments are passed over, and every other line is
/// skipped and counted.
pub fn parse_exposition(raw: &[u8]) -> (out: ParseOutcome)
    ensures
        sample_views(out.samples@) == exposition_samples(raw@),
        out.skipped == lines_malformed(lines_of(raw@)),
        samples_wf(out.samples@),
{
    let mut samples: Vec<RawSample> = Vec::new();
    let mut skipped: usize = 0;
    let mut i: usize = 0;
    let ghost mut done: Seq<Seq<u8>> = Seq::empty();
    proof {
        assert(raw@.skip(0) =~= raw@);
        assert(done + lines_of(raw@) =~= lines_of(raw@));
        assert(sample_views(samples@) =~= lines_samples(done));
        reveal(Seq::filter);
    }
    while i < raw.len()
        invariant
            i <= raw.len(),
            done.len() <= i,
            lines_of(raw@) == done + lines_of(raw@.skip(i as int)),
            sample_views(samples@) == lines_samples(done),
            skipped == lines_malformed(done),
            samples_wf(samples@),
        decreases raw.len() - i,
    {
        let (end, next) = next_line(raw, i);
        let line = slice_subrange(raw, i, end);
        let ghost before = done;
        let ghost views = sample_views(samples@);
        proof {
            done = done.push(line@);
            assert(done.drop_last() =~= before);
            assert(before + (seq![line@] + lines_of(raw@.skip(next as int))) =~= done + lines_of(
                raw@.skip(next as int),
            ));
            reveal(Seq::filter);
        }
        if !line_is_ignorable(line) {
            match parse_line(line) {
                Some(sample) => {
                    samples.push(sample);
                    assert(sample_views(samples@) =~= views + seq![sample@]);
                },
                None => {
                    skipped += 1;
                },
            }
        }
        i = next;
    }
    proof {
        assert(lines_of(raw@.skip(raw.len() as int)) =~= Seq::<Seq<u8>>::empty());
        assert(done + Seq::<Seq<u8>>::empty() =~= done);
    }
    ParseOutcome { samples, skipped }
}

/// The comment line that opens a payload served after a cycle in which
/// every source failed.
pub open spec fn failure_notice() -> Seq<u8> {
    "# Error collecting metrics: every source failed".spec_bytes()
}

/// The lines of a response: the lines of the metrics, after the failure
/// notice where every source of the cycle failed.
pub open spec fn response_lines(s: Seq<MetricView>, all_failed: bool) -> Seq<Seq<u8>> {
    if all_failed {
        seq![failure_notice()] + metric_lines(s)
    } else {
        metric_lines(s)
    }
}

/// Renders the response to a scrape: the snapshot, opened by a comment
/// line that notes the failure where every source of the cycle failed.
pub fn render_response(snapshot: &Vec<Metric>, all_failed: bool) -> (r: (Vec<u8>, &'static str))
    ensures
        r.0@ == text_of_lines(response_lines(metric_views(snapshot@), all_failed)),
        r.1@ == text_content_type(),
{
    let (payload, kind) = render(snapshot);
    if all_failed {
        let mut out = bytes_of("# Error collecting metrics: every source failed");
        out.push(10);
        push_bytes(&mut out, payload.as_slice());
        proof {
            let lines = metric_lines(metric_views(snapshot@));
            lemma_text_of_lines_concat(seq![failure_notice()], lines);
            let head = seq![failure_notice()];
            assert(head.drop_last() =~= Seq::<Seq<u8>>::empty());
            assert(text_of_lines(head.drop_last()) =~= Seq::<u8>::empty());
            assert(head.last() == failure_notice());
            assert(text_of_lines(head) =~= failure_notice() + seq![10u8]);
            assert(out@ =~= text_of_lines(head) + text_of_lines(lines));
        }
        (out, kind)
    } else {
        (payload, kind)
    }
}

} // verus!
