use metrics_bridge::config::settings::RedpandaConfig;
use metrics_bridge::coordinator::{CycleState, ReaderKind, SourceFailure, SourceReading};
use metrics_bridge::exposition::parse_exposition;
use metrics_bridge::identity::MetricIdentity;
use metrics_bridge::registry::{MetricKind, Registry, RegistryError};
use metrics_bridge::shared::SharedRegistry;

fn slow_cycle(round: usize) -> Vec<SourceReading> {
    let mut text = String::new();
    for i in 0..200 {
        text.push_str(&format!("load{{host=\"h{}\"}} {}\n", i, i * round));
    }
    text.push_str(&format!("rounds_total {}\n", round));
    vec![
        SourceReading { reader: ReaderKind::RemoteExposition, outcome: Ok(text.into_bytes()) },
        SourceReading { reader: ReaderKind::LocalMemory, outcome: Err(SourceFailure::ReadFailed) },
    ]
}

fn request(shared: &SharedRegistry, round: usize) -> Vec<u8> {
    let response = shared.scrape(&slow_cycle(round));
    assert_eq!(response.content_type, "text/plain; version=0.0.4");
    assert_eq!(response.report.state, CycleState::PartiallyFailed);
    assert_eq!(response.report.failed_sources, 1);
    response.payload
}

#[test]
fn two_requests_on_one_registry_both_get_a_well_formed_payload() {
    let shared = SharedRegistry::new();
    let first_handler = &shared;
    let second_handler = &shared;
    let mut payloads: Vec<Vec<u8>> = Vec::new();
    for round in 0..10usize {
        payloads.push(request(first_handler, 100 + round));
        payloads.push(request(second_handler, 200 + round));
    }
    assert_eq!(payloads.len(), 20);
    for payload in payloads {
        assert!(!payload.is_empty());
        assert_eq!(payload.last(), Some(&b'\n'));
        let out = parse_exposition(&payload);
        assert_eq!(out.skipped, 0);
        assert_eq!(out.samples.len(), 201);
    }
    assert_eq!(shared.snapshot().len(), 201);
}

#[test]
fn a_shared_registry_serves_cycles_and_snapshots() {
    let shared = SharedRegistry::new();
    assert!(shared.snapshot().is_empty());
    let report = shared.run_cycle(&slow_cycle(1));
    assert_eq!(report.state, CycleState::PartiallyFailed);
    assert_eq!(report.sources, 2);
    assert_eq!(report.failed_sources, 1);
    let snapshot = shared.snapshot();
    assert_eq!(snapshot.len(), 201);
    assert_eq!(snapshot[200].identity().name().as_slice(), b"rounds_total");
    assert_eq!(snapshot[200].value(), 1);
    let config = RedpandaConfig {
        brokers: Vec::new(),
        topics: vec!["orders".to_string()],
        consumer_groups: Vec::new(),
    };
    assert_eq!(shared.register_metrics(&config), Ok(()));
    assert_eq!(shared.snapshot().len(), 202);
}

#[test]
fn a_new_shared_registry_is_empty() {
    let shared = SharedRegistry::new();
    assert!(shared.snapshot().is_empty());
    let response = shared.scrape(&Vec::new());
    assert!(response.payload.is_empty());
}

#[test]
fn a_shared_registry_keeps_what_it_was_shared_with() {
    let mut registry = Registry::new();
    let hits = MetricIdentity::named("hits_total").unwrap();
    let load = MetricIdentity::named("load").unwrap();
    registry.increment_counter(&hits, 5).unwrap();
    registry.set_gauge(&load, 3).unwrap();
    let shared = SharedRegistry::from_registry(registry);
    let first = shared.snapshot();
    assert_eq!(first.len(), 2);
    assert!(first[0].identity().equals(&hits));
    assert_eq!(first[0].value(), 5);
    let reading = SourceReading {
        reader: ReaderKind::RemoteExposition,
        outcome: Ok(b"fresh 1\nhits_total 2\nload -7\n".to_vec()),
    };
    shared.run_cycle(&vec![reading]);
    let second = shared.snapshot();
    assert_eq!(second.len(), 3);
    assert!(second[0].identity().equals(&hits));
    assert_eq!(second[0].kind(), MetricKind::Counter);
    assert_eq!(second[0].value(), 5);
    assert!(second[1].identity().equals(&load));
    assert_eq!(second[1].kind(), MetricKind::Gauge);
    assert_eq!(second[1].value(), -7);
    assert_eq!(second[2].identity().name().as_slice(), b"fresh");
}

#[test]
fn register_metrics_on_a_shared_registry_reports_a_conflict() {
    let config = RedpandaConfig {
        brokers: Vec::new(),
        topics: vec!["orders".to_string()],
        consumer_groups: vec!["billing".to_string()],
    };
    let mut registry = Registry::new();
    let orders = MetricIdentity::named("redpanda_messages_total")
        .unwrap()
        .with_label("topic", "orders")
        .unwrap();
    registry.set_gauge(&orders, 4).unwrap();
    let conflicting = SharedRegistry::from_registry(registry);
    assert_eq!(conflicting.register_metrics(&config), Err(RegistryError::KindMismatch));
    let snapshot = conflicting.snapshot();
    assert_eq!(snapshot.len(), 2);
    assert_eq!(snapshot[0].kind(), MetricKind::Gauge);
    assert_eq!(snapshot[0].value(), 4);
    let fresh = SharedRegistry::new();
    assert_eq!(fresh.register_metrics(&config), Ok(()));
    assert_eq!(fresh.register_metrics(&config), Ok(()));
    assert_eq!(fresh.snapshot().len(), 2);
    let nothing = RedpandaConfig {
        brokers: Vec::new(),
        topics: Vec::new(),
        consumer_groups: vec!["billing".to_string()],
    };
    assert_eq!(conflicting.register_metrics(&nothing), Ok(()));
}
