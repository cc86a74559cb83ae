use metrics_bridge::config::settings::{ExporterConfig, RedpandaConfig, Settings};
use metrics_bridge::coordinator::{
    apply_sample, collect, kind_of_name, merge, run_cycle, scrape, Collector, Cycle, CycleState,
    MergeReport, ReaderKind, SourceFailure, SourceReading, SourceResult,
};
use metrics_bridge::exposition::parse_exposition;
use metrics_bridge::identity::MetricIdentity;
use metrics_bridge::kernel::CpuTicks;
use metrics_bridge::metrics::redpanda::register_metrics;
use metrics_bridge::registry::{MetricKind, Registry, RegistryError};
use metrics_bridge::sample::RawSample;

fn id(name: &str) -> MetricIdentity {
    MetricIdentity::named(name).unwrap()
}

fn remote(text: &str) -> SourceReading {
    SourceReading { reader: ReaderKind::RemoteExposition, outcome: Ok(text.as_bytes().to_vec()) }
}

fn failed(reader: ReaderKind, failure: SourceFailure) -> SourceReading {
    SourceReading { reader, outcome: Err(failure) }
}

fn scrape_pair(collector: &mut Collector, readings: &Vec<SourceReading>) -> (Vec<u8>, &'static str) {
    let response = scrape(collector, readings);
    (response.payload, response.content_type)
}

fn text_of(payload: Vec<u8>) -> String {
    String::from_utf8(payload).unwrap()
}

#[test]
fn names_that_end_in_total_are_counters() {
    assert_eq!(kind_of_name(b"requests_total"), MetricKind::Counter);
    assert_eq!(kind_of_name(b"_total"), MetricKind::Counter);
    assert_eq!(kind_of_name(b"total"), MetricKind::Gauge);
    assert_eq!(kind_of_name(b"requests_total_bytes"), MetricKind::Gauge);
    assert_eq!(kind_of_name(b"up"), MetricKind::Gauge);
}

#[test]
fn a_gauge_sample_sets_the_gauge() {
    let mut registry = Registry::new();
    assert_eq!(apply_sample(&mut registry, &RawSample::new(id("load"), 7)), Ok(()));
    assert_eq!(apply_sample(&mut registry, &RawSample::new(id("load"), 2)), Ok(()));
    assert_eq!(registry.current(&id("load")), Some((MetricKind::Gauge, 2)));
}

#[test]
fn a_counter_sample_moves_the_counter_to_its_total() {
    let mut registry = Registry::new();
    assert_eq!(apply_sample(&mut registry, &RawSample::new(id("hits_total"), 5)), Ok(()));
    assert_eq!(registry.current(&id("hits_total")), Some((MetricKind::Counter, 5)));
    assert_eq!(apply_sample(&mut registry, &RawSample::new(id("hits_total"), 8)), Ok(()));
    assert_eq!(registry.current(&id("hits_total")), Some((MetricKind::Counter, 8)));
    assert_eq!(apply_sample(&mut registry, &RawSample::new(id("hits_total"), 8)), Ok(()));
    assert_eq!(
        apply_sample(&mut registry, &RawSample::new(id("hits_total"), i64::MAX)),
        Ok(())
    );
    assert_eq!(registry.current(&id("hits_total")), Some((MetricKind::Counter, i64::MAX)));
}

#[test]
fn a_counter_sample_that_goes_back_is_refused() {
    let mut registry = Registry::new();
    apply_sample(&mut registry, &RawSample::new(id("hits_total"), 5)).unwrap();
    assert_eq!(
        apply_sample(&mut registry, &RawSample::new(id("hits_total"), 4)),
        Err(RegistryError::InvalidDelta)
    );
    assert_eq!(registry.current(&id("hits_total")), Some((MetricKind::Counter, 5)));
    assert_eq!(
        apply_sample(&mut registry, &RawSample::new(id("fresh_total"), -1)),
        Err(RegistryError::InvalidDelta)
    );
    assert!(registry.current(&id("fresh_total")).is_none());
}

#[test]
fn a_sample_of_the_wrong_kind_is_refused() {
    let mut registry = Registry::new();
    registry.set_gauge(&id("odd_total"), 3).unwrap();
    assert_eq!(
        apply_sample(&mut registry, &RawSample::new(id("odd_total"), 9)),
        Err(RegistryError::KindMismatch)
    );
    assert_eq!(
        apply_sample(&mut registry, &RawSample::new(id("odd_total"), 1)),
        Err(RegistryError::InvalidDelta)
    );
    registry.increment_counter(&id("load"), 3).unwrap();
    assert_eq!(
        apply_sample(&mut registry, &RawSample::new(id("load"), 9)),
        Err(RegistryError::KindMismatch)
    );
    assert_eq!(registry.current(&id("odd_total")), Some((MetricKind::Gauge, 3)));
    assert_eq!(registry.current(&id("load")), Some((MetricKind::Counter, 3)));
}

#[test]
fn merge_counts_what_was_taken_and_refused() {
    let mut registry = Registry::new();
    let samples = vec![
        RawSample::new(id("a"), 1),
        RawSample::new(id("b_total"), 5),
        RawSample::new(id("b_total"), 3),
        RawSample::new(id("a"), -1),
    ];
    assert_eq!(
        merge(&mut registry, &samples),
        MergeReport { applied: 3, kind_mismatches: 0, invalid_deltas: 1 }
    );
    assert_eq!(registry.current(&id("a")), Some((MetricKind::Gauge, -1)));
    assert_eq!(registry.current(&id("b_total")), Some((MetricKind::Counter, 5)));
}

#[test]
fn collect_parses_or_passes_the_failure_on() {
    let kept = CpuTicks { idle: 800, total: 1000 };
    let (result, next) = collect(&kept, &remote("up 1\nbad\n"));
    assert_eq!(next, kept);
    match result {
        SourceResult::Samples(out) => {
            assert_eq!(out.samples.len(), 1);
            assert_eq!(out.skipped, 1);
        },
        SourceResult::Failed(_) => panic!("the source delivered"),
    }
    let (result, next) = collect(&kept, &failed(ReaderKind::LocalCpu, SourceFailure::ReadFailed));
    assert_eq!(next, kept);
    match result {
        SourceResult::Samples(_) => panic!("the source failed"),
        SourceResult::Failed(e) => assert_eq!(e, SourceFailure::ReadFailed),
    }
    let stat = SourceReading {
        reader: ReaderKind::LocalCpu,
        outcome: Ok(b"cpu  200 0 100 1500 100 0 0 0 0 0\ncpu0 1 2 3 4\n".to_vec()),
    };
    let (result, next) = collect(&kept, &stat);
    assert_eq!(next, CpuTicks { idle: 1500, total: 1900 });
    match result {
        SourceResult::Samples(out) => {
            assert_eq!(out.samples.len(), 1);
            assert_eq!(out.samples[0].identity().name().as_slice(), b"cpu_usage_percent");
            assert_eq!(out.samples[0].value(), 22);
            assert_eq!(out.skipped, 1);
        },
        SourceResult::Failed(_) => panic!("the source delivered"),
    }
    let none = SourceReading { reader: ReaderKind::LocalCpu, outcome: Ok(b"intr 1 2\n".to_vec()) };
    let (_, next) = collect(&kept, &none);
    assert_eq!(next, kept);
    let memory = SourceReading {
        reader: ReaderKind::LocalMemory,
        outcome: Ok(b"cpu 1 2 3 4\n".to_vec()),
    };
    let (_, next) = collect(&kept, &memory);
    assert_eq!(next, kept);
}

#[test]
fn a_cycle_goes_from_idle_to_running_to_completed() {
    let mut collector = Collector::new();
    let mut cycle = Cycle::new();
    assert_eq!(cycle.state(), CycleState::Idle);
    assert!(cycle.absorb(&mut collector, &remote("up 1\n")).is_none());
    assert_eq!(collector.registry.len(), 0);
    assert_eq!(cycle.finish(), CycleState::Idle);
    assert!(cycle.start());
    assert_eq!(cycle.state(), CycleState::Running);
    assert!(!cycle.start());
    let report = cycle.absorb(&mut collector, &remote("up 1\nbad line\nhits_total 2\n")).unwrap();
    assert_eq!(report.failure, None);
    assert_eq!(report.applied, 2);
    assert_eq!(report.kind_mismatches, 0);
    assert_eq!(report.invalid_deltas, 0);
    assert_eq!(report.skipped, 1);
    assert_eq!(cycle.state(), CycleState::Running);
    assert_eq!(cycle.finish(), CycleState::Completed);
    assert_eq!(cycle.state(), CycleState::Completed);
    assert!(!cycle.start());
    assert!(cycle.absorb(&mut collector, &remote("up 0\n")).is_none());
    assert_eq!(collector.registry.current(&id("up")), Some((MetricKind::Gauge, 1)));
    assert_eq!(cycle.finish(), CycleState::Completed);
}

#[test]
fn a_failed_source_makes_the_cycle_partially_failed() {
    let mut collector = Collector::new();
    let mut cycle = Cycle::new();
    cycle.start();
    let report = cycle
        .absorb(&mut collector, &failed(ReaderKind::RemoteExposition, SourceFailure::FetchFailed))
        .unwrap();
    assert_eq!(report.failure, Some(SourceFailure::FetchFailed));
    assert_eq!(report.applied, 0);
    assert_eq!(collector.registry.len(), 0);
    cycle.absorb(&mut collector, &remote("up 1\n")).unwrap();
    assert_eq!(cycle.finish(), CycleState::PartiallyFailed);
    assert_eq!(collector.registry.current(&id("up")), Some((MetricKind::Gauge, 1)));
}

#[test]
fn one_source_times_out_while_another_succeeds() {
    let mut collector = Collector::new();
    let first = run_cycle(
        &mut collector,
        &vec![remote("first_load 3\n"), remote("second_load 4\n")],
    );
    assert_eq!(first.state, CycleState::Completed);
    assert_eq!(first.sources, 2);
    assert_eq!(first.failed_sources, 0);
    let second = run_cycle(
        &mut collector,
        &vec![
            failed(ReaderKind::RemoteExposition, SourceFailure::FetchFailed),
            remote("second_load 9\n"),
        ],
    );
    assert_eq!(second.state, CycleState::PartiallyFailed);
    assert_eq!(second.sources, 2);
    assert_eq!(second.failed_sources, 1);
    assert_eq!(collector.registry.current(&id("first_load")), Some((MetricKind::Gauge, 3)));
    assert_eq!(collector.registry.current(&id("second_load")), Some((MetricKind::Gauge, 9)));
}

#[test]
fn a_source_that_never_delivered_is_absent() {
    let mut collector = Collector::new();
    let report = run_cycle(
        &mut collector,
        &vec![
            failed(ReaderKind::RemoteExposition, SourceFailure::FetchFailed),
            remote("second_load 9\n"),
        ],
    );
    assert_eq!(report.state, CycleState::PartiallyFailed);
    assert_eq!(collector.registry.len(), 1);
    assert!(collector.registry.current(&id("first_load")).is_none());
}

#[test]
fn a_cycle_without_sources_is_completed() {
    let mut collector = Collector::new();
    let report = run_cycle(&mut collector, &Vec::new());
    assert_eq!(report.state, CycleState::Completed);
    assert_eq!(report.sources, 0);
    assert_eq!(collector.registry.len(), 0);
}

#[test]
fn memory_used_is_total_minus_available_in_bytes() {
    let mut collector = Collector::new();
    let reading = SourceReading {
        reader: ReaderKind::LocalMemory,
        outcome: Ok(b"MemTotal: 1000000 kB\nMemAvailable: 400000 kB\n".to_vec()),
    };
    let (payload, kind) = scrape_pair(&mut collector, &vec![reading]);
    assert_eq!(kind, "text/plain; version=0.0.4");
    assert_eq!(
        collector.registry.current(&id("memory_used_bytes")),
        Some((MetricKind::Gauge, (1000000 - 400000) * 1024))
    );
    assert_eq!(
        text_of(payload),
        "memory_total_bytes 1024000000\nmemory_used_bytes 614400000\nmemory_free_bytes 409600000\n"
    );
}

#[test]
fn cpu_usage_is_taken_since_the_last_cycle() {
    let mut collector = Collector::new();
    let first = SourceReading {
        reader: ReaderKind::LocalCpu,
        outcome: Ok(b"cpu  100 0 50 800 50 0 0 0 0 0\ncpu0 1 2 3 4\n".to_vec()),
    };
    let (payload, _) = scrape_pair(&mut collector, &vec![first]);
    assert_eq!(text_of(payload), "cpu_usage_percent 20\n");
    assert_eq!(collector.cpu, CpuTicks { idle: 800, total: 1000 });
    let second = SourceReading {
        reader: ReaderKind::LocalCpu,
        outcome: Ok(b"cpu  200 0 100 1500 100 0 0 0 0 0\n".to_vec()),
    };
    let (payload, _) = scrape_pair(&mut collector, &vec![second]);
    assert_eq!(text_of(payload), "cpu_usage_percent 22\n");
    assert_eq!(collector.cpu, CpuTicks { idle: 1500, total: 1900 });
    let third = SourceReading {
        reader: ReaderKind::LocalCpu,
        outcome: Ok(b"cpu  10 0 10 100 10 0 0 0 0 0\n".to_vec()),
    };
    let mut cycle = Cycle::new();
    cycle.start();
    let report = cycle.absorb(&mut collector, &third).unwrap();
    assert_eq!(report.applied, 0);
    assert_eq!(report.kind_mismatches, 0);
    assert_eq!(report.invalid_deltas, 0);
    assert_eq!(collector.cpu, CpuTicks { idle: 100, total: 130 });
    assert_eq!(collector.registry.len(), 1);
    assert_eq!(
        collector.registry.current(&id("cpu_usage_percent")),
        Some((MetricKind::Gauge, 22))
    );
    let fourth = SourceReading {
        reader: ReaderKind::LocalCpu,
        outcome: Ok(b"cpu  20 0 10 150 10 0 0 0 0 0\n".to_vec()),
    };
    cycle.absorb(&mut collector, &fourth).unwrap();
    assert_eq!(
        collector.registry.current(&id("cpu_usage_percent")),
        Some((MetricKind::Gauge, 16))
    );
}

#[test]
fn a_processor_reading_changes_the_usage_gauge_alone() {
    let mut collector = Collector::new();
    scrape_pair(
        &mut collector,
        &vec![remote("cpu_ticks_total 7\nload 3\n"), SourceReading {
            reader: ReaderKind::LocalMemory,
            outcome: Ok(b"MemTotal: 10 kB\nMemAvailable: 4 kB\n".to_vec()),
        }],
    );
    let before = text_of(scrape_pair(&mut collector, &Vec::new()).0);
    let stat = SourceReading {
        reader: ReaderKind::LocalCpu,
        outcome: Ok(b"cpu 1 1 1 1\n".to_vec()),
    };
    let (payload, _) = scrape_pair(&mut collector, &vec![stat]);
    assert_eq!(text_of(payload), format!("{}cpu_usage_percent 75\n", before));
    assert_eq!(collector.registry.len(), 6);
    assert_eq!(
        collector.registry.current(&id("cpu_ticks_total")),
        Some((MetricKind::Counter, 7))
    );
    assert!(collector.registry.current(&id("cpu_idle_ticks_total")).is_none());
}

#[test]
fn a_remote_sample_does_not_change_the_next_usage() {
    let mut collector = Collector::new();
    let stat = |text: &[u8]| SourceReading {
        reader: ReaderKind::LocalCpu,
        outcome: Ok(text.to_vec()),
    };
    scrape_pair(&mut collector, &vec![stat(b"cpu 100 0 50 800 50\n")]);
    scrape_pair(
        &mut collector,
        &vec![remote("cpu_ticks_total 1500\ncpu_idle_ticks_total 1500\n")],
    );
    scrape_pair(&mut collector, &vec![stat(b"cpu 200 0 100 1500 100\n")]);
    assert_eq!(
        collector.registry.current(&id("cpu_usage_percent")),
        Some((MetricKind::Gauge, 22))
    );
}

#[test]
fn only_the_summary_line_of_a_processor_reading_is_read() {
    let stat = |text: &[u8]| SourceReading {
        reader: ReaderKind::LocalCpu,
        outcome: Ok(text.to_vec()),
    };
    let mut one = Collector::new();
    let mut two = Collector::new();
    let (first, _) = scrape_pair(&mut one, &vec![stat(b"cpu 0 0 0 1\n")]);
    let (second, _) = scrape_pair(&mut two, &vec![stat(b"cpu 0 0 0 1\ncpu 1 0 0 0\nintr 5\n")]);
    assert_eq!(text_of(first.clone()), "cpu_usage_percent 0\n");
    assert_eq!(first, second);
    assert_eq!(one.cpu, two.cpu);
    let mut three = Collector::new();
    let (third, _) = scrape_pair(&mut three, &vec![stat(b"cpu 1 0 0 0\ncpu 0 0 0 1\n")]);
    assert_eq!(text_of(third), "cpu_usage_percent 100\n");
}

#[test]
fn every_source_failing_still_gives_a_payload() {
    let mut collector = Collector::new();
    scrape_pair(&mut collector, &vec![remote("up 1\n")]);
    let (payload, kind) = scrape_pair(
        &mut collector,
        &vec![
            failed(ReaderKind::RemoteExposition, SourceFailure::FetchFailed),
            failed(ReaderKind::LocalMemory, SourceFailure::ReadFailed),
        ],
    );
    assert_eq!(kind, "text/plain; version=0.0.4");
    assert_eq!(
        text_of(payload.clone()),
        "# Error collecting metrics: every source failed\nup 1\n"
    );
    let out = parse_exposition(&payload);
    assert_eq!(out.skipped, 0);
    assert_eq!(out.samples.len(), 1);
}

#[test]
fn two_scrapes_of_one_registry_are_both_well_formed() {
    let mut collector = Collector::new();
    let (first, _) = scrape_pair(
        &mut collector,
        &vec![remote("load{host=\"a\"} 1\nhits_total 10\n"), remote("garbage\n")],
    );
    let (second, _) = scrape_pair(
        &mut collector,
        &vec![
            remote("load{host=\"a\"} 2\nhits_total 12\n"),
            failed(ReaderKind::LocalCpu, SourceFailure::ReadFailed),
        ],
    );
    assert_eq!(text_of(first.clone()), "load{host=\"a\"} 1\nhits_total 10\n");
    assert_eq!(text_of(second.clone()), "load{host=\"a\"} 2\nhits_total 12\n");
    for payload in [first, second] {
        assert!(!payload.is_empty());
        let out = parse_exposition(&payload);
        assert_eq!(out.skipped, 0);
        assert_eq!(out.samples.len(), 2);
    }
}

#[test]
fn a_payload_with_no_metrics_and_no_sources_is_empty() {
    let mut collector = Collector::new();
    let (payload, _) = scrape_pair(&mut collector, &Vec::new());
    assert!(payload.is_empty());
}

#[test]
fn register_metrics_declares_the_broker_metrics() {
    let mut collector = Collector::new();
    let config = RedpandaConfig {
        brokers: vec!["localhost:9092".to_string()],
        topics: vec!["orders".to_string(), "refunds".to_string()],
        consumer_groups: vec!["billing".to_string()],
    };
    assert_eq!(register_metrics(&mut collector.registry, &config), Ok(()));
    assert_eq!(collector.registry.len(), 4);
    let (payload, _) = scrape_pair(&mut collector, &Vec::new());
    assert_eq!(
        text_of(payload),
        "redpanda_messages_total{topic=\"orders\"} 0\n\
         redpanda_consumer_lag{consumer_group=\"billing\",topic=\"orders\"} 0\n\
         redpanda_messages_total{topic=\"refunds\"} 0\n\
         redpanda_consumer_lag{consumer_group=\"billing\",topic=\"refunds\"} 0\n"
    );
    assert_eq!(register_metrics(&mut collector.registry, &config), Ok(()));
    assert_eq!(collector.registry.len(), 4);
}

#[test]
fn register_metrics_keeps_values_and_reports_a_conflict() {
    let mut registry = Registry::new();
    let orders = id("redpanda_messages_total").with_label("topic", "orders").unwrap();
    let refunds = id("redpanda_messages_total").with_label("topic", "refunds").unwrap();
    registry.increment_counter(&orders, 5).unwrap();
    registry.set_gauge(&refunds, 1).unwrap();
    let config = RedpandaConfig {
        brokers: Vec::new(),
        topics: vec!["orders".to_string(), "refunds".to_string(), "late".to_string()],
        consumer_groups: Vec::new(),
    };
    assert_eq!(register_metrics(&mut registry, &config), Err(RegistryError::KindMismatch));
    assert_eq!(registry.current(&orders), Some((MetricKind::Counter, 5)));
    assert_eq!(registry.current(&refunds), Some((MetricKind::Gauge, 1)));
    let late = id("redpanda_messages_total").with_label("topic", "late").unwrap();
    assert_eq!(registry.current(&late), Some((MetricKind::Counter, 0)));
}

#[test]
fn exporter_defaults() {
    let exporter = ExporterConfig::default();
    assert_eq!(exporter.port, 9102);
    assert_eq!(exporter.metrics_path, "/metrics");
    let settings = Settings {
        redpanda: RedpandaConfig {
            brokers: Vec::new(),
            topics: Vec::new(),
            consumer_groups: Vec::new(),
        },
        exporter,
    };
    assert_eq!(settings.exporter.port, 9102);
    assert!(settings.redpanda.topics.is_empty());
}

#[test]
fn a_kind_mismatch_is_reported_by_the_cycle() {
    let mut collector = Collector::new();
    collector.registry.increment_counter(&id("load"), 1).unwrap();
    let quiet = run_cycle(&mut collector, &vec![remote("other 1\n")]);
    assert!(!quiet.kind_mismatch);
    let response = scrape(&mut collector, &vec![remote("up 1\n"), remote("load 5\nup 2\n")]);
    assert!(response.report.kind_mismatch);
    assert_eq!(response.report.state, CycleState::Completed);
    assert_eq!(response.report.sources, 2);
    assert_eq!(response.report.failed_sources, 0);
    assert_eq!(collector.registry.current(&id("load")), Some((MetricKind::Counter, 1)));
    assert_eq!(text_of(response.payload), "load 1\nother 1\nup 2\n");
    let mut cycle = Cycle::new();
    cycle.start();
    let report = cycle.absorb(&mut collector, &remote("load 5\nload 6\nother_total 1\n")).unwrap();
    assert_eq!(report.kind_mismatches, 2);
    assert_eq!(report.invalid_deltas, 0);
    assert_eq!(report.applied, 1);
}
