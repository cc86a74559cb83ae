//! Laws of the exposition format: what the renderer writes, the parser
//! reads back.

use crate::exposition::{
    failure_notice, response_lines, escape_byte, escaped, exposition_samples, identity_text, is_ignorable_line,
    is_malformed_line, label_text, labels_text_from, lines_malformed, lines_samples, metric_line,
    metric_lines, read_labels, read_quoted, read_suffix, read_value, sample_of_line,
    unescape_code,
};
use crate::identity::{valid_identity, IdentityView};
use crate::labels::{
    canonical_labels, has_key, keys_sorted, label_insert, lemma_insert_canonical,
    lemma_insert_last, LabelSeq,
};
use crate::registry::{valid_metric, MetricKind, MetricView};
use crate::sample::{valid_sample, SampleView};
use crate::text::{
    decimal_text, in_class, is_blank, is_key_byte, is_name_byte,
    lemma_decimal_round_trip, lemma_lines_of_text, lemma_run_len_is, lex_lt, lines_of,
    run_len, single_line, text_of_lines, valid_key, valid_name, ByteClass,
};
use vstd::prelude::*;
use vstd::string::is_ascii;
use vstd::string::StringSliceAdditionalSpecFns;

verus! {

/// The sample that a metric is rendered as.
pub open spec fn sample_of_metric(m: MetricView) -> SampleView {
    SampleView { identity: m.identity, value: m.value }
}

/// The samples that a sequence of metrics is rendered as.
pub open spec fn metric_samples(s: Seq<MetricView>) -> Seq<SampleView> {
    s.map_values(|m: MetricView| sample_of_metric(m))
}

/// A string of bytes of one class, followed by nothing or by a byte
/// outside the class, is the run of that class.
proof fn lemma_run_prefix(a: Seq<u8>, rest: Seq<u8>, c: ByteClass)
    requires
        forall|i: int| 0 <= i < a.len() ==> in_class(c, #[trigger] a[i]),
        rest.len() == 0 || !in_class(c, rest[0]),
    ensures
        run_len(a + rest, c) == a.len(),
{
    let t = a + rest;
    assert forall|i: int| 0 <= i < a.len() implies in_class(c, #[trigger] t[i]) by {
        assert(t[i] == a[i]);
    }
    if a.len() < t.len() {
        assert(t[a.len() as int] == rest[0]);
    }
    lemma_run_len_is(t, c, a.len());
}

/// Reading a written label value, its closing quote and whatever follows
/// gives the value back and stops behind the quote.
proof fn lemma_read_escaped(v: Seq<u8>, rest: Seq<u8>)
    ensures
        read_quoted(escaped(v) + seq![34u8] + rest) == Some((v, (escaped(v).len() + 1) as nat)),
    decreases v.len(),
{
    let s = escaped(v) + seq![34u8] + rest;
    if v.len() == 0 {
        assert(s[0] == 34);
        assert(v =~= Seq::<u8>::empty());
    } else {
        let b = v[0];
        let tail = v.skip(1);
        lemma_read_escaped(tail, rest);
        let s_tail = escaped(tail) + seq![34u8] + rest;
        assert(escaped(v) == escape_byte(b) + escaped(tail));
        if b == 92 || b == 34 || b == 10 {
            assert(s[0] == 92);
            assert(s[1] == escape_byte(b)[1]);
            assert(s.skip(2) =~= s_tail);
            assert(seq![unescape_code(s[1])] + tail =~= v);
        } else {
            assert(s[0] == b);
            assert(s.skip(1) =~= s_tail);
            assert(seq![b] + tail =~= v);
        }
    }
}

/// Reading the written labels from index `i` on, after the ones before
/// `i` were read, gives all the labels and stops behind the closing brace.
proof fn lemma_read_labels_text(labels: LabelSeq, i: int, rest: Seq<u8>)
    requires
        canonical_labels(labels),
        0 <= i < labels.len(),
    ensures
        read_labels(labels_text_from(labels, i) + rest, labels.take(i)) == Some(
            (labels, labels_text_from(labels, i).len()),
        ),
    decreases labels.len() - i,
{
    let key = labels[i].0;
    let value = labels[i].1;
    let acc = labels.take(i);
    let last = i == labels.len() - 1;
    let sep: u8 = if last {
        125
    } else {
        44
    };
    let more = if last {
        Seq::<u8>::empty()
    } else {
        labels_text_from(labels, i + 1)
    };
    let text = labels_text_from(labels, i);
    let s = text + rest;
    let after_value = seq![sep] + more + rest;
    let after_key = seq![61u8, 34u8] + escaped(value) + seq![34u8] + after_value;
    assert(text =~= label_text(labels[i]) + seq![sep] + more);
    assert(s =~= key + after_key);
    assert(valid_key(key));
    assert forall|j: int| 0 <= j < key.len() implies in_class(ByteClass::Key, #[trigger] key[j]) by {
        assert(is_key_byte(key[j]));
    }
    assert(after_key[0] == 61);
    lemma_run_prefix(key, after_key, ByteClass::Key);
    let k = key.len();
    assert(run_len(s, ByteClass::Key) == k);
    assert(s.take(k as int) =~= key);
    assert forall|j: int| 0 <= j < acc.len() implies lex_lt(
        #[trigger] acc[j].0,
        key,
    ) by {
        assert(acc[j] == labels[j]);
    }
    assert(keys_sorted(acc)) by {
        assert forall|a: int, b: int| 0 <= a < b < acc.len() implies lex_lt(
            #[trigger] acc[a].0,
            #[trigger] acc[b].0,
        ) by {
            assert(acc[a] == labels[a]);
            assert(acc[b] == labels[b]);
        }
    }
    lemma_insert_last(acc, key, value);
    assert(s[k as int] == 61);
    assert(s[k as int + 1] == 34);
    assert(s.skip(k as int + 2) =~= escaped(value) + seq![34u8] + after_value);
    lemma_read_escaped(value, after_value);
    let n = (escaped(value).len() + 1) as nat;
    let used = k + 2 + n;
    assert(s[used as int] == sep);
    let next = label_insert(acc, key, value);
    assert(next =~= labels.take(i + 1));
    assert(text.len() == used + 1 + more.len());
    if last {
        assert(labels.take(i + 1) =~= labels);
    } else {
        assert(s.skip(used as int + 1) =~= more + rest);
        lemma_read_labels_text(labels, i + 1, rest);
    }
}

/// Reading the written label suffix of an identity, followed by a space,
/// gives the labels of the identity and stops at the space.
proof fn lemma_read_suffix_text(id: IdentityView, rest: Seq<u8>)
    requires
        valid_identity(id),
        rest.len() > 0,
        rest[0] == 32,
    ensures
        read_suffix(identity_text(id).skip(id.name.len() as int) + rest) == Some(
            (id.labels, (identity_text(id).len() - id.name.len()) as nat),
        ),
{
    let suffix = identity_text(id).skip(id.name.len() as int);
    let s = suffix + rest;
    if id.labels.len() == 0 {
        assert(suffix =~= Seq::<u8>::empty());
        assert(s =~= rest);
        assert(id.labels =~= Seq::empty());
    } else {
        let text = labels_text_from(id.labels, 0);
        assert(suffix =~= seq![123u8] + text);
        assert(s[0] == 123);
        let key = id.labels[0].0;
        assert(valid_key(key));
        assert(text =~= key + text.skip(key.len() as int)) by {
            let l = id.labels[0];
            if id.labels.len() == 1 {
                assert(text =~= label_text(l) + seq![125u8]);
            } else {
                assert(text =~= label_text(l) + seq![44u8] + labels_text_from(id.labels, 1));
            }
        }
        assert(s[1] == key[0]);
        assert(s.skip(1) =~= text + rest);
        assert(id.labels.take(0) =~= Seq::empty());
        lemma_read_labels_text(id.labels, 0, rest);
    }
}

/// Reading a space and a written value gives the value.
proof fn lemma_read_value_text(v: i64)
    ensures
        read_value(seq![32u8] + decimal_text(v as int)) == Some(v),
{
    let digits = decimal_text(v as int);
    let rest = seq![32u8] + digits;
    lemma_decimal_round_trip(v);
    assert(!is_blank(digits[0]));
    assert forall|j: int| 0 <= j < 1 implies in_class(
        ByteClass::Blank,
        #[trigger] seq![32u8][j],
    ) by {}
    lemma_run_prefix(seq![32u8], digits, ByteClass::Blank);
    assert(rest.skip(1) =~= digits);
    assert forall|j: int| 0 <= j < digits.len() implies in_class(
        ByteClass::Graphic,
        #[trigger] digits[j],
    ) by {
        assert(!is_blank(digits[j]));
    }
    lemma_run_prefix(digits, Seq::empty(), ByteClass::Graphic);
    assert(digits + Seq::<u8>::empty() =~= digits);
    assert(digits.take(digits.len() as int) =~= digits);
    assert(digits.skip(digits.len() as int) =~= Seq::<u8>::empty());
    assert(run_len(Seq::<u8>::empty(), ByteClass::Blank) == 0);
}

/// Parsing the line of a well-formed metric gives the metric's name,
/// labels and value back; such a line is a single line and never one that
/// the parser passes over.
pub proof fn lemma_line_round_trip(m: MetricView)
    requires
        valid_metric(m),
    ensures
        sample_of_line(metric_line(m)) == Some(sample_of_metric(m)),
        !is_ignorable_line(metric_line(m)),
        !is_malformed_line(metric_line(m)),
{
    let id = m.identity;
    let name = id.name;
    let line = metric_line(m);
    let digits = decimal_text(m.value);
    let rest = seq![32u8] + digits;
    let id_text = identity_text(id);
    let suffix = id_text.skip(name.len() as int);
    lemma_decimal_round_trip(m.value as i64);
    assert(id_text =~= name + suffix);
    assert(line =~= name + (suffix + rest));
    assert(valid_name(name));
    assert(line[0] == name[0]);
    assert(!is_blank(name[0]));
    // no leading blanks
    assert(run_len(line, ByteClass::Blank) == 0);
    assert(line.skip(0) =~= line);
    // the name
    assert forall|j: int| 0 <= j < name.len() implies in_class(
        ByteClass::Name,
        #[trigger] name[j],
    ) by {
        assert(is_name_byte(name[j]));
    }
    assert((suffix + rest)[0] == 123 || (suffix + rest)[0] == 32) by {
        if id.labels.len() == 0 {
            assert(suffix =~= Seq::<u8>::empty());
        } else {
            assert(suffix =~= seq![123u8] + labels_text_from(id.labels, 0));
        }
    }
    lemma_run_prefix(name, suffix + rest, ByteClass::Name);
    let n = name.len();
    assert(line.take(n as int) =~= name);
    assert(line.skip(n as int) =~= suffix + rest);
    // the labels
    lemma_read_suffix_text(id, rest);
    let used = suffix.len();
    assert((suffix + rest).skip(used as int) =~= rest);
    lemma_read_value_text(m.value as i64);
}

/// Two strings without a line feed make one without a line feed.
proof fn lemma_single_line_concat(a: Seq<u8>, b: Seq<u8>)
    requires
        single_line(a),
        single_line(b),
    ensures
        single_line(a + b),
{
    assert forall|i: int| 0 <= i < (a + b).len() implies #[trigger] (a + b)[i] != 10 by {
        if i < a.len() {
            assert((a + b)[i] == a[i]);
        } else {
            assert((a + b)[i] == b[i - a.len()]);
        }
    }
}

/// A written label value holds no line feed.
proof fn lemma_escaped_single_line(v: Seq<u8>)
    ensures
        single_line(escaped(v)),
    decreases v.len(),
{
    if v.len() > 0 {
        lemma_escaped_single_line(v.skip(1));
        lemma_single_line_concat(escape_byte(v[0]), escaped(v.skip(1)));
    }
}

/// Written labels hold no line feed.
proof fn lemma_labels_text_single_line(labels: LabelSeq, i: int)
    requires
        canonical_labels(labels),
        0 <= i,
    ensures
        single_line(labels_text_from(labels, i)),
    decreases labels.len() - i,
{
    if i < labels.len() {
        let key = labels[i].0;
        assert(valid_key(key));
        assert forall|j: int| 0 <= j < key.len() implies #[trigger] key[j] != 10 by {
            assert(is_key_byte(key[j]));
        }
        lemma_escaped_single_line(labels[i].1);
        lemma_single_line_concat(key, seq![61u8, 34u8]);
        lemma_single_line_concat(key + seq![61u8, 34u8], escaped(labels[i].1));
        lemma_single_line_concat(key + seq![61u8, 34u8] + escaped(labels[i].1), seq![34u8]);
        if i == labels.len() - 1 {
            lemma_single_line_concat(label_text(labels[i]), seq![125u8]);
        } else {
            lemma_labels_text_single_line(labels, i + 1);
            lemma_single_line_concat(label_text(labels[i]), seq![44u8]);
            lemma_single_line_concat(
                label_text(labels[i]) + seq![44u8],
                labels_text_from(labels, i + 1),
            );
        }
    }
}

/// The line of a well-formed metric holds no line feed.
pub proof fn lemma_metric_line_single(m: MetricView)
    requires
        valid_metric(m),
    ensures
        single_line(metric_line(m)),
{
    let name = m.identity.name;
    let digits = decimal_text(m.value);
    lemma_decimal_round_trip(m.value as i64);
    assert forall|j: int| 0 <= j < name.len() implies #[trigger] name[j] != 10 by {
        assert(is_name_byte(name[j]));
    }
    assert(single_line(digits));
    if m.identity.labels.len() > 0 {
        lemma_labels_text_single_line(m.identity.labels, 0);
        lemma_single_line_concat(name, seq![123u8]);
        lemma_single_line_concat(name + seq![123u8], labels_text_from(m.identity.labels, 0));
    }
    lemma_single_line_concat(identity_text(m.identity), seq![32u8]);
    lemma_single_line_concat(identity_text(m.identity) + seq![32u8], digits);
}

/// Labels read into a canonical sequence make a canonical sequence.
proof fn lemma_read_labels_canonical(s: Seq<u8>, acc: LabelSeq)
    requires
        canonical_labels(acc),
    ensures
        match read_labels(s, acc) {
            Some((labels, n)) => canonical_labels(labels),
            None => true,
        },
    decreases s.len(),
{
    let k = run_len(s, ByteClass::Key);
    let key = s.take(k as int);
    if !valid_key(key) || has_key(acc, key) || k + 2 > s.len() || s[k as int] != 61 || s[k as int
        + 1] != 34 {
    } else {
        match read_quoted(s.skip(k as int + 2)) {
            None => {},
            Some((v, n)) => {
                let used = k + 2 + n;
                lemma_insert_canonical(acc, key, v);
                if used < s.len() && s[used as int] == 44 {
                    lemma_read_labels_canonical(s.skip(used as int + 1), label_insert(acc, key, v));
                }
            },
        }
    }
}

/// Whatever sample a line denotes is well formed.
pub proof fn lemma_parsed_sample_valid(line: Seq<u8>)
    ensures
        match sample_of_line(line) {
            Some(sample) => valid_sample(sample),
            None => true,
        },
{
    let lead = run_len(line, ByteClass::Blank);
    let after_lead = line.skip(lead as int);
    let n = run_len(after_lead, ByteClass::Name);
    let after_name = after_lead.skip(n as int);
    if after_name.len() > 0 && after_name[0] == 123 {
        lemma_read_labels_canonical(after_name.skip(1), Seq::empty());
    }
}

/// Round trip of a line: the sample that a line denotes, rendered as the
/// line of a metric of any kind, denotes the same name, labels and value
/// again, with the labels in canonical order.
pub proof fn lemma_parse_render_round_trip(line: Seq<u8>, kind: MetricKind)
    requires
        sample_of_line(line).is_some(),
        kind == MetricKind::Counter ==> sample_of_line(line).unwrap().value >= 0,
    ensures
        ({
            let sample = sample_of_line(line).unwrap();
            let metric = MetricView { identity: sample.identity, kind, value: sample.value };
            sample_of_line(metric_line(metric)) == Some(sample)
        }),
{
    let sample = sample_of_line(line).unwrap();
    lemma_parsed_sample_valid(line);
    lemma_line_round_trip(MetricView { identity: sample.identity, kind, value: sample.value });
}

/// The samples of some lines taken together are the samples of the first
/// lines followed by those of the rest, and the malformed lines add up.
pub proof fn lemma_lines_concat(a: Seq<Seq<u8>>, b: Seq<Seq<u8>>)
    ensures
        lines_samples(a + b) == lines_samples(a) + lines_samples(b),
        lines_malformed(a + b) == lines_malformed(a) + lines_malformed(b),
    decreases b.len(),
{
    Seq::filter_distributes_over_add(a, b, |l: Seq<u8>| is_malformed_line(l));
    if b.len() == 0 {
        assert(a + b =~= a);
        assert(lines_samples(a) + lines_samples(b) =~= lines_samples(a));
    } else {
        lemma_lines_concat(a, b.drop_last());
        assert((a + b).drop_last() =~= a + b.drop_last());
        assert((a + b).last() == b.last());
        let f = |l: Seq<u8>|
            if is_ignorable_line(l) {
                None
            } else {
                sample_of_line(l)
            };
        match f(b.last()) {
            Some(x) => {
                assert(lines_samples(a) + lines_samples(b.drop_last()) + seq![x] =~= lines_samples(
                    a,
                ) + (lines_samples(b.drop_last()) + seq![x]));
            },
            None => {},
        }
    }
}

/// A malformed line among other lines is skipped and counted once: the
/// samples are those of the lines around it, and the count of skipped
/// lines is one more than theirs.
pub proof fn lemma_malformed_line_skipped(a: Seq<Seq<u8>>, bad: Seq<u8>, b: Seq<Seq<u8>>)
    requires
        is_malformed_line(bad),
    ensures
        lines_samples(a + seq![bad] + b) == lines_samples(a) + lines_samples(b),
        lines_malformed(a + seq![bad] + b) == lines_malformed(a) + lines_malformed(b) + 1,
{
    lemma_lines_concat(a + seq![bad], b);
    lemma_lines_concat(a, seq![bad]);
    reveal_with_fuel(Seq::filter, 2);
    reveal_with_fuel(Seq::filter_map, 2);
    assert(seq![bad].drop_last() =~= Seq::<Seq<u8>>::empty());
    assert(lines_samples(seq![bad]) =~= Seq::<SampleView>::empty());
    assert(lines_samples(a) + Seq::<SampleView>::empty() =~= lines_samples(a));
    assert(lines_malformed(seq![bad]) == 1);
}

/// Parsing the text of some lines gives exactly the samples of its sample
/// lines, in order, and skips exactly its malformed lines.
pub proof fn lemma_parse_text_of_lines(lines: Seq<Seq<u8>>)
    requires
        forall|i: int| 0 <= i < lines.len() ==> single_line(#[trigger] lines[i]),
    ensures
        exposition_samples(text_of_lines(lines)) == lines_samples(lines),
        lines_malformed(lines_of(text_of_lines(lines))) == lines_malformed(lines),
{
    lemma_lines_of_text(lines);
}

/// The lines of well-formed metrics denote the samples of the metrics, and
/// none of them is malformed.
proof fn lemma_metric_lines_samples(s: Seq<MetricView>)
    requires
        forall|i: int| 0 <= i < s.len() ==> valid_metric(#[trigger] s[i]),
    ensures
        lines_samples(metric_lines(s)) == metric_samples(s),
        lines_malformed(metric_lines(s)) == 0,
    decreases s.len(),
{
    reveal(Seq::filter);
    let lines = metric_lines(s);
    let samples = metric_samples(s);
    if s.len() == 0 {
        assert(lines_samples(lines) =~= samples);
    } else {
        let init = s.drop_last();
        assert forall|i: int| 0 <= i < init.len() implies valid_metric(#[trigger] init[i]) by {
            assert(init[i] == s[i]);
        }
        lemma_metric_lines_samples(init);
        lemma_line_round_trip(s.last());
        assert(lines.drop_last() =~= metric_lines(init));
        assert(lines.last() == metric_line(s.last()));
        assert(samples =~= metric_samples(init) + seq![
            sample_of_metric(s.last()),
        ]);
    }
}

/// Round trip of a payload: parsing what the renderer writes for
/// well-formed metrics gives one sample per metric, in order, with the
/// metric's name, labels and value, and skips no line.
pub proof fn lemma_render_parse_round_trip(s: Seq<MetricView>)
    requires
        forall|i: int| 0 <= i < s.len() ==> valid_metric(#[trigger] s[i]),
    ensures
        exposition_samples(text_of_lines(metric_lines(s))) == metric_samples(s),
        lines_malformed(lines_of(text_of_lines(metric_lines(s)))) == 0,
{
    let lines = metric_lines(s);
    assert forall|i: int| 0 <= i < lines.len() implies single_line(#[trigger] lines[i]) by {
        lemma_metric_line_single(s[i]);
    }
    lemma_lines_of_text(lines);
    lemma_metric_lines_samples(s);
}

/// The failure notice is a comment: a single line that the parser passes
/// over.
pub proof fn lemma_failure_notice_ignored()
    ensures
        single_line(failure_notice()),
        is_ignorable_line(failure_notice()),
        !is_malformed_line(failure_notice()),
{
    reveal_strlit("# Error collecting metrics: every source failed");
    assert(is_ascii("# Error collecting metrics: every source failed"));
    let notice = failure_notice();
    assert(notice[0] == 35);
    assert(run_len(notice, ByteClass::Blank) == 0);
}

/// Every response is well formed: parsing it gives one sample per metric
/// of the registry that it was rendered from, in order, and skips no line,
/// with or without the failure notice.
pub proof fn lemma_response_round_trip(s: Seq<MetricView>, all_failed: bool)
    requires
        forall|i: int| 0 <= i < s.len() ==> valid_metric(#[trigger] s[i]),
    ensures
        exposition_samples(text_of_lines(response_lines(s, all_failed))) == metric_samples(s),
        lines_malformed(lines_of(text_of_lines(response_lines(s, all_failed)))) == 0,
{
    let lines = metric_lines(s);
    let all = response_lines(s, all_failed);
    lemma_failure_notice_ignored();
    assert forall|i: int| 0 <= i < all.len() implies single_line(#[trigger] all[i]) by {
        if all_failed {
            if i > 0 {
                lemma_metric_line_single(s[i - 1]);
                assert(all[i] == lines[i - 1]);
            }
        } else {
            lemma_metric_line_single(s[i]);
        }
    }
    lemma_lines_of_text(all);
    lemma_metric_lines_samples(s);
    if all_failed {
        let head = seq![failure_notice()];
        lemma_lines_concat(head, lines);
        reveal_with_fuel(Seq::filter, 2);
        reveal_with_fuel(Seq::filter_map, 2);
        assert(head.drop_last() =~= Seq::<Seq<u8>>::empty());
        assert(lines_samples(head) =~= Seq::<SampleView>::empty());
        assert(lines_samples(head) + lines_samples(lines) =~= lines_samples(lines));
        assert(lines_malformed(head) == 0);
    }
}

} // verus!
