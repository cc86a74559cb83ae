use metrics_bridge::exposition::{
    content_type, parse_exposition, parse_line, render, render_response,
};
use metrics_bridge::identity::MetricIdentity;
use metrics_bridge::registry::Registry;
use metrics_bridge::sample::RawSample;

fn name_of(sample: &RawSample) -> Vec<u8> {
    sample.identity().name().clone()
}

fn label_of(sample: &RawSample, key: &[u8]) -> Option<Vec<u8>> {
    sample.identity().labels().get(key).cloned()
}

#[test]
fn a_plain_line_is_a_sample() {
    let sample = parse_line(b"up 1").unwrap();
    assert_eq!(name_of(&sample), b"up".to_vec());
    assert_eq!(sample.identity().labels().len(), 0);
    assert_eq!(sample.value(), 1);
}

#[test]
fn a_labelled_line_is_a_sample() {
    let sample = parse_line(b"http_requests_total{method=\"GET\",code=\"200\"} 1027").unwrap();
    assert_eq!(name_of(&sample), b"http_requests_total".to_vec());
    assert_eq!(sample.identity().labels().len(), 2);
    assert_eq!(label_of(&sample, b"method"), Some(b"GET".to_vec()));
    assert_eq!(label_of(&sample, b"code"), Some(b"200".to_vec()));
    assert_eq!(sample.identity().labels().key_at(0).as_slice(), b"code");
    assert_eq!(sample.identity().labels().key_at(1).as_slice(), b"method");
    assert_eq!(sample.value(), 1027);
}

#[test]
fn blanks_around_a_sample_are_allowed() {
    let sample = parse_line(b"  up \t -3 \r").unwrap();
    assert_eq!(name_of(&sample), b"up".to_vec());
    assert_eq!(sample.value(), -3);
}

#[test]
fn empty_braces_are_no_labels() {
    let sample = parse_line(b"up{} 1").unwrap();
    assert_eq!(sample.identity().labels().len(), 0);
    assert!(sample.identity().equals(&MetricIdentity::named("up").unwrap()));
}

#[test]
fn escapes_in_a_label_value_are_read() {
    let sample = parse_line(b"m{path=\"C:\\\\dir\",quote=\"say \\\"hi\\\"\",two=\"a\\nb\"} 5").unwrap();
    assert_eq!(label_of(&sample, b"path"), Some(b"C:\\dir".to_vec()));
    assert_eq!(label_of(&sample, b"quote"), Some(b"say \"hi\"".to_vec()));
    assert_eq!(label_of(&sample, b"two"), Some(b"a\nb".to_vec()));
}

#[test]
fn a_label_value_may_hold_anything_else() {
    let sample = parse_line(b"m{k=\"a b,c}={\"} 5").unwrap();
    assert_eq!(label_of(&sample, b"k"), Some(b"a b,c}={".to_vec()));
    let empty = parse_line(b"m{k=\"\"} 5").unwrap();
    assert_eq!(label_of(&empty, b"k"), Some(Vec::new()));
}

#[test]
fn malformed_lines_are_no_samples() {
    assert!(parse_line(b"").is_none());
    assert!(parse_line(b"up").is_none());
    assert!(parse_line(b"up ").is_none());
    assert!(parse_line(b"up one").is_none());
    assert!(parse_line(b"up 1.5").is_none());
    assert!(parse_line(b"up 1 2").is_none());
    assert!(parse_line(b"9up 1").is_none());
    assert!(parse_line(b"up{ 1").is_none());
    assert!(parse_line(b"up{a} 1").is_none());
    assert!(parse_line(b"up{a=1} 1").is_none());
    assert!(parse_line(b"up{a=\"1} 1").is_none());
    assert!(parse_line(b"up{a=\"1\",} 1").is_none());
    assert!(parse_line(b"up{a=\"1\" b=\"2\"} 1").is_none());
    assert!(parse_line(b"up{a=\"1\",a=\"2\"} 1").is_none());
    assert!(parse_line(b"up{a=\"\\x\"} 1").is_none());
    assert!(parse_line(b"up{a=\"1\"}1").is_none());
    assert!(parse_line(b"up {a=\"1\"} 1").is_none());
    assert!(parse_line(b"up{1a=\"1\"} 1").is_none());
    assert!(parse_line(b"up 9223372036854775808").is_none());
    assert!(parse_line(b"# HELP up whether it is up").is_none());
}

#[test]
fn valid_lines_among_malformed_ones_are_all_found() {
    let text = b"# a comment\nup 1\nthis is not a sample\n\nrequests_total{code=\"200\"} 7\nbroken{ 3\n   \nlag -4\nnumber 1e9";
    let out = parse_exposition(text);
    assert_eq!(out.samples.len(), 3);
    assert_eq!(out.skipped, 3);
    assert_eq!(name_of(&out.samples[0]), b"up".to_vec());
    assert_eq!(out.samples[0].value(), 1);
    assert_eq!(name_of(&out.samples[1]), b"requests_total".to_vec());
    assert_eq!(out.samples[1].value(), 7);
    assert_eq!(name_of(&out.samples[2]), b"lag".to_vec());
    assert_eq!(out.samples[2].value(), -4);
}

#[test]
fn one_bad_line_in_a_hundred_costs_one_sample() {
    let mut text: Vec<u8> = Vec::new();
    for i in 0..100 {
        if i == 37 {
            text.extend_from_slice(b"oops\n");
        } else {
            text.extend_from_slice(format!("metric_{} {}\n", i, i).as_bytes());
        }
    }
    let out = parse_exposition(&text);
    assert_eq!(out.samples.len(), 99);
    assert_eq!(out.skipped, 1);
    assert_eq!(name_of(&out.samples[37]), b"metric_38".to_vec());
    assert_eq!(out.samples[98].value(), 99);
}

#[test]
fn parsing_twice_gives_the_same_samples() {
    let text = b"a 1\nb{x=\"y\"} 2\nbad\n";
    let first = parse_exposition(text);
    let second = parse_exposition(text);
    assert_eq!(first.skipped, second.skipped);
    assert_eq!(first.samples.len(), second.samples.len());
    for i in 0..first.samples.len() {
        assert!(first.samples[i].identity().equals(second.samples[i].identity()));
        assert_eq!(first.samples[i].value(), second.samples[i].value());
    }
}

#[test]
fn empty_text_has_no_samples() {
    let out = parse_exposition(b"");
    assert_eq!(out.samples.len(), 0);
    assert_eq!(out.skipped, 0);
    let blank = parse_exposition(b"\n\n  \n");
    assert_eq!(blank.samples.len(), 0);
    assert_eq!(blank.skipped, 0);
}

#[test]
fn carriage_returns_end_a_line_too() {
    let out = parse_exposition(b"a 1\r\nb 2\r\n");
    assert_eq!(out.samples.len(), 2);
    assert_eq!(out.skipped, 0);
    assert_eq!(out.samples[1].value(), 2);
}

#[test]
fn render_writes_one_line_per_metric() {
    let mut registry = Registry::new();
    registry.set_gauge(&MetricIdentity::named("up").unwrap(), 1).unwrap();
    let lag = MetricIdentity::named("lag")
        .unwrap()
        .with_label("topic", "orders")
        .unwrap()
        .with_label("group", "billing")
        .unwrap();
    registry.set_gauge(&lag, -5).unwrap();
    registry.increment_counter(&MetricIdentity::named("requests_total").unwrap(), 12).unwrap();
    let (payload, kind) = render(&registry.snapshot());
    assert_eq!(
        String::from_utf8(payload).unwrap(),
        "up 1\nlag{group=\"billing\",topic=\"orders\"} -5\nrequests_total 12\n"
    );
    assert_eq!(kind, "text/plain; version=0.0.4");
    assert_eq!(content_type(), "text/plain; version=0.0.4");
}

#[test]
fn render_of_nothing_is_empty() {
    let (payload, _) = render(&Registry::new().snapshot());
    assert!(payload.is_empty());
}

#[test]
fn render_escapes_label_values() {
    let mut registry = Registry::new();
    let key = MetricIdentity::named("m").unwrap().with_label("v", "a\\b\"c\nd").unwrap();
    registry.set_gauge(&key, 0).unwrap();
    let (payload, _) = render(&registry.snapshot());
    assert_eq!(payload, b"m{v=\"a\\\\b\\\"c\\nd\"} 0\n".to_vec());
}

#[test]
fn render_is_deterministic() {
    let mut registry = Registry::new();
    registry.set_gauge(&MetricIdentity::named("a").unwrap().with_label("z", "1").unwrap().with_label("y", "2").unwrap(), 3).unwrap();
    registry.set_gauge(&MetricIdentity::named("b").unwrap(), i64::MIN).unwrap();
    let snapshot = registry.snapshot();
    let (one, _) = render(&snapshot);
    let (two, _) = render(&snapshot);
    assert_eq!(one, two);
    assert_eq!(one, b"a{y=\"2\",z=\"1\"} 3\nb -9223372036854775808\n".to_vec());
}

#[test]
fn a_parsed_line_is_rendered_back() {
    let sample = parse_line(b"http_requests_total{method=\"GET\",code=\"200\"}   42").unwrap();
    let mut registry = Registry::new();
    registry.set_gauge(sample.identity(), sample.value()).unwrap();
    let (payload, _) = render(&registry.snapshot());
    assert_eq!(payload, b"http_requests_total{code=\"200\",method=\"GET\"} 42\n".to_vec());
    let again = parse_exposition(&payload);
    assert_eq!(again.skipped, 0);
    assert_eq!(again.samples.len(), 1);
    assert!(again.samples[0].identity().equals(sample.identity()));
    assert_eq!(again.samples[0].value(), 42);
}

#[test]
fn a_rendered_registry_is_parsed_back() {
    let mut registry = Registry::new();
    let keys = vec![
        MetricIdentity::named("plain").unwrap(),
        MetricIdentity::named("odd").unwrap().with_label("v", "q\"\\\n,}{= ").unwrap(),
        MetricIdentity::named("two:parts").unwrap().with_label("b", "").unwrap().with_label("a", "\u{e9}").unwrap(),
    ];
    let values: Vec<i64> = vec![0, i64::MAX, i64::MIN];
    for i in 0..keys.len() {
        registry.set_gauge(&keys[i], values[i]).unwrap();
    }
    let (payload, _) = render(&registry.snapshot());
    let out = parse_exposition(&payload);
    assert_eq!(out.skipped, 0);
    assert_eq!(out.samples.len(), 3);
    for i in 0..keys.len() {
        assert!(out.samples[i].identity().equals(&keys[i]));
        assert_eq!(out.samples[i].value(), values[i]);
    }
}

#[test]
fn the_failure_notice_is_a_comment() {
    let mut registry = Registry::new();
    registry.set_gauge(&MetricIdentity::named("up").unwrap(), 1).unwrap();
    let (payload, kind) = render_response(&registry.snapshot(), true);
    assert_eq!(
        String::from_utf8(payload.clone()).unwrap(),
        "# Error collecting metrics: every source failed\nup 1\n"
    );
    assert_eq!(kind, "text/plain; version=0.0.4");
    let out = parse_exposition(&payload);
    assert_eq!(out.skipped, 0);
    assert_eq!(out.samples.len(), 1);
    let (plain, _) = render_response(&registry.snapshot(), false);
    assert_eq!(plain, b"up 1\n".to_vec());
}
