//! The registry as shared state: one collector behind a lock, reached by
//! shared reference from every collection cycle and every scrape request.
//! A cycle holds the lock from its first merge to the rendering of its
//! payload, so cycles are serialised, and whatever is read was the whole
//! registry at one moment.

use crate::config::settings::RedpandaConfig;
use crate::coordinator::{
    all_failed, cycle_kind_mismatch, cycle_outcome, cycle_payload, failed_count,
    lemma_cycle_keeps_entries, reading_views, run_cycle, scrape, Collector, CollectorView,
    CycleReport, ScrapeResponse, SourceReading,
};
use crate::exposition::{exposition_samples, lines_malformed, response_lines, text_content_type};
use crate::metrics::redpanda::{
    lemma_registration_keeps_entries, register_metrics, registration_result,
};
use crate::registry::{
    keeps_entries, lemma_keeps_entries_transitive, metric_views, valid_registry, Metric,
    MetricView, Registry, RegistryError,
};
use crate::round_trip::{lemma_response_round_trip, metric_samples};
use crate::text::{lines_of, text_of_lines};
use vstd::prelude::*;
use vstd::rwlock::{RwLock, RwLockPredicate};

verus! {

/// What the lock keeps true of the collector it guards: its registry is
/// well formed, and it keeps what it held when it was shared. Entries live
/// as long as the registry does: none is removed, none changes its place or
/// its kind, and no counter falls below the value it was shared with.
pub struct RegistryInvariant {
    pub initial: Seq<MetricView>,
}

impl RwLockPredicate<Collector> for RegistryInvariant {
    open spec fn inv(self, v: Collector) -> bool {
        v.wf() && keeps_entries(self.initial, v@.metrics)
    }
}

/// A payload that renders some well-formed registry, with or without the
/// failure notice.
pub open spec fn well_formed_payload(payload: Seq<u8>, notice: bool) -> bool {
    exists|s: Seq<MetricView>|
        valid_registry(s) && payload == #[trigger] text_of_lines(response_lines(s, notice))
}

/// A registry shared between threads, together with what its cycles keep
/// beside it.
pub struct SharedRegistry {
    lock: RwLock<Collector, RegistryInvariant>,
}

impl SharedRegistry {
    /// An empty shared registry.
    pub fn new() -> (r: SharedRegistry)
        ensures
            r.initial() == Seq::<MetricView>::empty(),
    {
        SharedRegistry::from_registry(Registry::new())
    }

    /// A copy of every entry as of one moment: what is returned is one
    /// state of the registry, never a mix of two. It is well formed, and
    /// it holds every entry that the registry was shared with, at its
    /// place and with its kind, no counter lower than it was then.
    pub fn snapshot(&self) -> (r: Vec<Metric>)
        ensures
            self.admits(metric_views(r@)),
    {
        let handle = self.lock.acquire_read();
        let snapshot = handle.borrow().registry.snapshot();
        handle.release_read();
        snapshot
    }

    /// Registers the broker metrics, under the lock. The result is what
    /// registering them gives in the state in which the lock was taken:
    /// `KindMismatch` where one of their identities is registered there
    /// with another kind, success otherwise.
    pub fn register_metrics(&self, config: &RedpandaConfig) -> (r: Result<(), RegistryError>)
        ensures
            exists|s: Seq<MetricView>| #[trigger]
                self.admits(s) && r == registration_result(
                    s,
                    config.topics@,
                    config.consumer_groups@,
                ),
    {
        let (mut collector, handle) = self.lock.acquire_write();
        let ghost before = collector@.metrics;
        let r = register_metrics(&mut collector.registry, config);
        proof {
            lemma_registration_keeps_entries(before, config.topics@, config.consumer_groups@);
            lemma_keeps_entries_transitive(self.initial(), before, collector@.metrics);
            assert(self.admits(before));
        }
        handle.release_write(collector);
        r
    }

    /// The contents that the registry was shared with.
    pub closed spec fn initial(&self) -> Seq<MetricView> {
        self.lock.pred().initial
    }

    /// `s` is a state that this registry can be in: a well-formed registry
    /// that keeps what this one was shared with.
    pub open spec fn admits(&self, s: Seq<MetricView>) -> bool {
        valid_registry(s) && keeps_entries(self.initial(), s)
    }

    /// Shares a registry as it stands.
    pub fn from_registry(registry: Registry) -> (r: SharedRegistry)
        requires
            registry.wf(),
        ensures
            r.initial() == registry@,
    {
        let ghost initial = registry@;
        SharedRegistry {
            lock: RwLock::new(
                Collector::with_registry(registry),
                Ghost(RegistryInvariant { initial }),
            ),
        }
    }

    /// Runs one cycle over what the readers delivered, under the lock.
    /// The report is that of the cycle run on the state in which the lock
    /// was taken.
    pub fn run_cycle(&self, readings: &Vec<SourceReading>) -> (r: CycleReport)
        ensures
            r.state == cycle_outcome(reading_views(readings@)),
            r.sources == readings@.len(),
            r.failed_sources == failed_count(reading_views(readings@)),
            exists|c: CollectorView|
                self.admits(c.metrics) && r.kind_mismatch == #[trigger] cycle_kind_mismatch(
                    c,
                    reading_views(readings@),
                ),
    {
        let (mut collector, handle) = self.lock.acquire_write();
        let ghost before = collector@;
        let report = run_cycle(&mut collector, readings);
        proof {
            lemma_cycle_keeps_entries(before, reading_views(readings@));
            lemma_keeps_entries_transitive(self.initial(), before.metrics, collector@.metrics);
            assert(self.admits(before.metrics) && report.kind_mismatch == cycle_kind_mismatch(
                before,
                reading_views(readings@),
            ));
        }
        handle.release_write(collector);
        report
    }

    /// Answers one scrape, under the lock: runs a cycle on the state in
    /// which the lock was taken and renders the registry as the cycle left
    /// it. The payload is well formed whatever other requests do
    /// meanwhile: it renders one state of the registry, and no line of it
    /// is malformed.
    pub fn scrape(&self, readings: &Vec<SourceReading>) -> (r: ScrapeResponse)
        ensures
            exists|c: CollectorView|
                {
                    &&& self.admits(c.metrics)
                    &&& r.payload@ == #[trigger] cycle_payload(c, reading_views(readings@))
                    &&& r.report.kind_mismatch == cycle_kind_mismatch(
                        c,
                        reading_views(readings@),
                    )
                },
            well_formed_payload(r.payload@, all_failed(reading_views(readings@))),
            lines_malformed(lines_of(r.payload@)) == 0,
            r.content_type@ == text_content_type(),
            r.report.state == cycle_outcome(reading_views(readings@)),
            r.report.sources == readings@.len(),
            r.report.failed_sources == failed_count(reading_views(readings@)),
    {
        let (mut collector, handle) = self.lock.acquire_write();
        let ghost before = collector@;
        let r = scrape(&mut collector, readings);
        proof {
            let views = reading_views(readings@);
            lemma_response_round_trip(collector@.metrics, all_failed(views));
            lemma_cycle_keeps_entries(before, views);
            lemma_keeps_entries_transitive(self.initial(), before.metrics, collector@.metrics);
            assert(self.admits(before.metrics) && r.payload@ == cycle_payload(before, views)
                && r.report.kind_mismatch == cycle_kind_mismatch(before, views));
        }
        handle.release_write(collector);
        r
    }
}

/// A well-formed payload is parsed back without a skipped line, into one
/// sample per metric of the registry that it renders.
pub proof fn lemma_well_formed_payload(payload: Seq<u8>, notice: bool)
    requires
        well_formed_payload(payload, notice),
    ensures
        lines_malformed(lines_of(payload)) == 0,
        exists|s: Seq<MetricView>|
            valid_registry(s) && #[trigger] metric_samples(s) == exposition_samples(payload),
{
    let s = choose|s: Seq<MetricView>|
        valid_registry(s) && payload == #[trigger] text_of_lines(response_lines(s, notice));
    lemma_response_round_trip(s, notice);
    assert(metric_samples(s) == exposition_samples(payload));
}

} // verus!
