//! The collection cycle coordinator: takes what each source reader
//! delivered in one cycle, parses it and merges the samples into the
//! registry, keeping the failure of one source from touching the others.

use crate::exposition::{
    exposition_samples, lines_malformed, metric_lines, render_response, response_lines,
    sample_of_line, text_content_type,
};
use crate::identity::{plain_identity, IdentityView};
use crate::kernel::{
    cpu_usage_name, lemma_summary_line_decides, remembered_ticks, ticks_of_line, CpuTicks,
};
use crate::parser::{parse, parse_cpu, parsed_samples, parsed_skipped, SourceKind};
use crate::registry::{
    distinct_identities, has_identity, increment_result, increment_state, index_of,
    keeps_entries, lemma_operations_keep_entries, lemma_updates_are_local, set_gauge_result,
    set_gauge_state, value_of,
    MetricKind, MetricView, Registry, RegistryError,
};
use crate::round_trip::{lemma_parsed_sample_valid, lemma_render_parse_round_trip, metric_samples};
use crate::sample::{sample_views, samples_wf, ParseOutcome, RawSample, SampleView};
use crate::text::{bytes_of, ends_with, has_suffix, lines_of, single_line, text_of_lines};
use vstd::prelude::*;
use vstd::string::StringSliceAdditionalSpecFns;

verus! {

/// The kind of reader that a piece of raw text comes from.
#[derive(Clone, Copy, Debug, PartialEq, Eq, Structural)]
pub enum ReaderKind {
    /// A fetch of exposition text from a remote endpoint.
    RemoteExposition,
    /// A read of the kernel's memory statistics.
    LocalMemory,
    /// A read of the kernel's processor statistics.
    LocalCpu,
}

/// Why a source delivered nothing in a cycle.
#[derive(Clone, Copy, Debug, PartialEq, Eq, Structural)]
pub enum SourceFailure {
    /// The remote fetch failed, timed out or was answered without success.
    FetchFailed,
    /// The local file is missing or could not be read.
    ReadFailed,
}

/// The outcome of one source in one cycle: its samples, or the reason why
/// there are none.
#[derive(Debug)]
pub enum SourceResult {
    Samples(ParseOutcome),
    Failed(SourceFailure),
}

/// The state of a collection cycle.
#[derive(Clone, Copy, Debug, PartialEq, Eq, Structural)]
pub enum CycleState {
    /// Not started.
    Idle,
    /// Started; sources are being absorbed.
    Running,
    /// Finished; every source delivered.
    Completed,
    /// Finished; at least one source failed.
    PartiallyFailed,
}

/// What one reader delivered in one cycle: raw text, or a failure.
#[derive(Debug)]
pub struct SourceReading {
    pub reader: ReaderKind,
    pub outcome: Result<Vec<u8>, SourceFailure>,
}

/// A reading as a mathematical value.
pub struct ReadingView {
    pub reader: ReaderKind,
    pub outcome: Result<Seq<u8>, SourceFailure>,
}

impl View for SourceReading {
    type V = ReadingView;

    open spec fn view(&self) -> ReadingView {
        ReadingView {
            reader: self.reader,
            outcome: match self.outcome {
                Ok(raw) => Ok(raw@),
                Err(e) => Err(e),
            },
        }
    }
}

/// What merging one source did.
#[derive(Clone, Copy, Debug, PartialEq, Eq, Structural)]
pub struct SourceReport {
    /// The failure of the source, if it failed.
    pub failure: Option<SourceFailure>,
    /// The number of samples that the registry took.
    pub applied: usize,
    /// The number of samples refused because their identity is registered
    /// with another kind.
    pub kind_mismatches: usize,
    /// The number of counter samples refused because they report less
    /// than the counter holds.
    pub invalid_deltas: usize,
    /// The number of lines that the parser skipped.
    pub skipped: usize,
}

/// What a whole cycle did.
#[derive(Clone, Copy, Debug, PartialEq, Eq, Structural)]
pub struct CycleReport {
    /// `Completed` or `PartiallyFailed`.
    pub state: CycleState,
    /// The number of sources.
    pub sources: usize,
    /// The number of sources that failed.
    pub failed_sources: usize,
    /// Whether a sample was refused because its identity is registered
    /// with another kind.
    pub kind_mismatch: bool,
}

/// What merging a sequence of samples did.
#[derive(Clone, Copy, Debug, PartialEq, Eq, Structural)]
pub struct MergeReport {
    /// The number of samples that the registry took.
    pub applied: usize,
    /// The number of samples refused for a kind mismatch.
    pub kind_mismatches: usize,
    /// The number of samples refused for an invalid delta.
    pub invalid_deltas: usize,
}

/// What answering a scrape gives: the payload, its content type, and the
/// report of the cycle that was run for it.
#[derive(Debug)]
pub struct ScrapeResponse {
    pub payload: Vec<u8>,
    pub content_type: &'static str,
    pub report: CycleReport,
}

/// The suffix that marks the name of a counter.
pub open spec fn counter_suffix() -> Seq<u8> {
    "_total".spec_bytes()
}

/// The kind that a sample is merged as: a metric whose name ends in
/// `_total` is a counter that reports its cumulative total, every other
/// metric is a gauge.
pub open spec fn sample_kind(name: Seq<u8>) -> MetricKind {
    if has_suffix(name, counter_suffix()) {
        MetricKind::Counter
    } else {
        MetricKind::Gauge
    }
}

/// What the registry answers to one sample. A gauge sample sets the
/// gauge. A counter sample moves the counter by the difference between the
/// total it reports and the last total observed.
pub open spec fn apply_result(s: Seq<MetricView>, x: SampleView) -> Result<(), RegistryError> {
    match sample_kind(x.identity.name) {
        MetricKind::Gauge => set_gauge_result(s, x.identity),
        MetricKind::Counter => increment_result(s, x.identity, x.value - value_of(s, x.identity)),
    }
}

/// The registry after one sample.
pub open spec fn apply_state(s: Seq<MetricView>, x: SampleView) -> Seq<MetricView> {
    match sample_kind(x.identity.name) {
        MetricKind::Gauge => set_gauge_state(s, x.identity, x.value),
        MetricKind::Counter => increment_state(s, x.identity, x.value - value_of(s, x.identity)),
    }
}

/// The registry after a sequence of samples, applied in order.
pub open spec fn merge_state(s: Seq<MetricView>, xs: Seq<SampleView>) -> Seq<MetricView>
    decreases xs.len(),
{
    if xs.len() == 0 {
        s
    } else {
        apply_state(merge_state(s, xs.drop_last()), xs.last())
    }
}

/// The number of samples of a sequence that the registry refuses with
/// error `e`.
pub open spec fn merge_refused(s: Seq<MetricView>, xs: Seq<SampleView>, e: RegistryError) -> nat
    decreases xs.len(),
{
    if xs.len() == 0 {
        0
    } else {
        let before = merge_refused(s, xs.drop_last(), e);
        if apply_result(merge_state(s, xs.drop_last()), xs.last()) == Err::<(), RegistryError>(e) {
            before + 1
        } else {
            before
        }
    }
}

/// What a collector keeps from one cycle to the next: the registry, and
/// beside it the tick counters of the last processor reading, which are no
/// metric and are never published.
#[derive(Debug)]
pub struct Collector {
    pub registry: Registry,
    pub cpu: CpuTicks,
}

/// A collector as a mathematical value.
pub struct CollectorView {
    pub metrics: Seq<MetricView>,
    pub cpu: CpuTicks,
}

impl View for Collector {
    type V = CollectorView;

    open spec fn view(&self) -> CollectorView {
        CollectorView { metrics: self.registry@, cpu: self.cpu }
    }
}

impl Collector {
    /// The invariant of a collector: its registry is well formed.
    pub open spec fn wf(&self) -> bool {
        self.registry.wf()
    }

    /// A collector with an empty registry and no processor reading yet.
    pub fn new() -> (r: Collector)
        ensures
            r.wf(),
            r@ == (CollectorView {
                metrics: Seq::<MetricView>::empty(),
                cpu: CpuTicks { idle: 0, total: 0 },
            }),
    {
        Collector { registry: Registry::new(), cpu: CpuTicks { idle: 0, total: 0 } }
    }

    /// A collector that goes on from a registry as it stands, with no
    /// processor reading yet.
    pub fn with_registry(registry: Registry) -> (r: Collector)
        requires
            registry.wf(),
        ensures
            r.wf(),
            r@ == (CollectorView { metrics: registry@, cpu: CpuTicks { idle: 0, total: 0 } }),
    {
        Collector { registry, cpu: CpuTicks { idle: 0, total: 0 } }
    }
}

/// The kind of text that a reader delivers, given the tick counters of the
/// last processor reading.
pub open spec fn source_kind(reader: ReaderKind, cpu: CpuTicks) -> SourceKind {
    match reader {
        ReaderKind::RemoteExposition => SourceKind::Exposition,
        ReaderKind::LocalMemory => SourceKind::KernelMemory,
        ReaderKind::LocalCpu => SourceKind::KernelCpu(cpu),
    }
}

/// The samples of a reading; none where the source failed.
pub open spec fn reading_samples(cpu: CpuTicks, reading: ReadingView) -> Seq<SampleView> {
    match reading.outcome {
        Ok(raw) => parsed_samples(raw, source_kind(reading.reader, cpu)),
        Err(_) => Seq::empty(),
    }
}

/// The tick counters to keep after a reading: those of a processor
/// reading that gives any, the ones kept before in every other case.
pub open spec fn reading_ticks(cpu: CpuTicks, reading: ReadingView) -> CpuTicks {
    match reading.outcome {
        Ok(raw) => match reading.reader {
            ReaderKind::LocalCpu => remembered_ticks(cpu, raw),
            _ => cpu,
        },
        Err(_) => cpu,
    }
}

/// The collector after a reading: unchanged where the source failed.
pub open spec fn absorbed_state(c: CollectorView, reading: ReadingView) -> CollectorView {
    CollectorView {
        metrics: merge_state(c.metrics, reading_samples(c.cpu, reading)),
        cpu: reading_ticks(c.cpu, reading),
    }
}

/// The collector after the readings of a whole cycle, absorbed in order.
pub open spec fn after_cycle(c: CollectorView, readings: Seq<ReadingView>) -> CollectorView
    decreases readings.len(),
{
    if readings.len() == 0 {
        c
    } else {
        absorbed_state(after_cycle(c, readings.drop_last()), readings.last())
    }
}

/// Whether, in a cycle over the given readings, a sample is refused
/// because its identity is registered with another kind.
pub open spec fn cycle_kind_mismatch(c: CollectorView, readings: Seq<ReadingView>) -> bool
    decreases readings.len(),
{
    if readings.len() == 0 {
        false
    } else {
        let before = after_cycle(c, readings.drop_last());
        cycle_kind_mismatch(c, readings.drop_last()) || merge_refused(
            before.metrics,
            reading_samples(before.cpu, readings.last()),
            RegistryError::KindMismatch,
        ) > 0
    }
}

/// The number of readings whose source failed.
pub open spec fn failed_count(readings: Seq<ReadingView>) -> nat {
    readings.filter(|r: ReadingView| r.outcome.is_err()).len()
}

/// The state in which a cycle over the given readings ends.
pub open spec fn cycle_outcome(readings: Seq<ReadingView>) -> CycleState {
    if failed_count(readings) == 0 {
        CycleState::Completed
    } else {
        CycleState::PartiallyFailed
    }
}

/// The views of a sequence of readings.
pub open spec fn reading_views(v: Seq<SourceReading>) -> Seq<ReadingView> {
    v.map_values(|r: SourceReading| r@)
}

/// The kind that a sample of the given name is merged as.
pub fn kind_of_name(name: &[u8]) -> (r: MetricKind)
    ensures
        r == sample_kind(name@),
{
    let suffix = bytes_of("_total");
    if ends_with(name, suffix.as_slice()) {
        MetricKind::Counter
    } else {
        MetricKind::Gauge
    }
}

/// Applies one sample to the registry. A refused sample leaves the
/// registry as it was.
pub fn apply_sample(registry: &mut Registry, sample: &RawSample) -> (r: Result<(), RegistryError>)
    requires
        old(registry).wf(),
        sample.wf(),
    ensures
        final(registry).wf(),
        r == apply_result(old(registry)@, sample@),
        final(registry)@ == apply_state(old(registry)@, sample@),
{
    let identity = sample.identity();
    let value = sample.value();
    match kind_of_name(identity.name().as_slice()) {
        MetricKind::Gauge => registry.set_gauge(identity, value),
        MetricKind::Counter => {
            match registry.current(identity) {
                Some((kind, last)) => {
                    if value < last {
                        Err(RegistryError::InvalidDelta)
                    } else if kind != MetricKind::Counter {
                        Err(RegistryError::KindMismatch)
                    } else {
                        assert(crate::registry::valid_metric(
                            registry@[index_of(registry@, identity@)],
                        ));
                        registry.increment_counter(identity, value - last)
                    }
                },
                None => {
                    if value < 0 {
                        Err(RegistryError::InvalidDelta)
                    } else {
                        registry.increment_counter(identity, value)
                    }
                },
            }
        },
    }
}

/// Applies samples to the registry in order and counts those taken and
/// those refused, by the reason of the refusal.
pub fn merge(registry: &mut Registry, samples: &Vec<RawSample>) -> (r: MergeReport)
    requires
        old(registry).wf(),
        samples_wf(samples@),
    ensures
        final(registry).wf(),
        final(registry)@ == merge_state(old(registry)@, sample_views(samples@)),
        r.kind_mismatches == merge_refused(
            old(registry)@,
            sample_views(samples@),
            RegistryError::KindMismatch,
        ),
        r.invalid_deltas == merge_refused(
            old(registry)@,
            sample_views(samples@),
            RegistryError::InvalidDelta,
        ),
        r.applied + r.kind_mismatches + r.invalid_deltas == samples@.len(),
{
    let mut applied: usize = 0;
    let mut kind_mismatches: usize = 0;
    let mut invalid_deltas: usize = 0;
    let mut i: usize = 0;
    let ghost views = sample_views(samples@);
    while i < samples.len()
        invariant
            i <= samples.len(),
            registry.wf(),
            samples_wf(samples@),
            views == sample_views(samples@),
            registry@ == merge_state(old(registry)@, views.take(i as int)),
            kind_mismatches == merge_refused(
                old(registry)@,
                views.take(i as int),
                RegistryError::KindMismatch,
            ),
            invalid_deltas == merge_refused(
                old(registry)@,
                views.take(i as int),
                RegistryError::InvalidDelta,
            ),
            applied + kind_mismatches + invalid_deltas == i,
        decreases samples.len() - i,
    {
        proof {
            assert(views.take(i + 1).drop_last() =~= views.take(i as int));
            assert(views.take(i + 1).last() == samples@[i as int]@);
        }
        match apply_sample(registry, &samples[i]) {
            Ok(_) => {
                applied += 1;
            },
            Err(RegistryError::KindMismatch) => {
                kind_mismatches += 1;
            },
            Err(RegistryError::InvalidDelta) => {
                invalid_deltas += 1;
            },
        }
        i += 1;
    }
    assert(views.take(samples.len() as int) =~= views);
    MergeReport { applied, kind_mismatches, invalid_deltas }
}

/// Turns what a reader delivered into the source's result: parses the
/// text, or passes the failure on. Processor statistics are read relative
/// to the tick counters of the last processor reading; the tick counters
/// to keep for the next one are returned beside the result.
pub fn collect(cpu: &CpuTicks, reading: &SourceReading) -> (r: (SourceResult, CpuTicks))
    ensures
        r.1 == reading_ticks(*cpu, reading@),
        match r.0 {
            SourceResult::Samples(out) => {
                &&& reading@.outcome.is_ok()
                &&& sample_views(out.samples@) == reading_samples(*cpu, reading@)
                &&& samples_wf(out.samples@)
                &&& out.skipped == parsed_skipped(
                    reading@.outcome.unwrap(),
                    source_kind(reading.reader, *cpu),
                )
            },
            SourceResult::Failed(e) => reading@.outcome == Err::<Seq<u8>, SourceFailure>(e),
        },
{
    match &reading.outcome {
        Err(e) => (SourceResult::Failed(*e), *cpu),
        Ok(raw) => match reading.reader {
            ReaderKind::RemoteExposition => (
                SourceResult::Samples(parse(raw.as_slice(), &SourceKind::Exposition)),
                *cpu,
            ),
            ReaderKind::LocalMemory => (
                SourceResult::Samples(parse(raw.as_slice(), &SourceKind::KernelMemory)),
                *cpu,
            ),
            ReaderKind::LocalCpu => {
                let (out, next) = parse_cpu(raw.as_slice(), cpu);
                (SourceResult::Samples(out), next)
            },
        },
    }
}

/// A collection cycle: `Idle`, then `Running` while sources are absorbed,
/// then `Completed` or `PartiallyFailed`.
#[derive(Clone, Copy, Debug)]
pub struct Cycle {
    state: CycleState,
    failed: bool,
}

/// A cycle as a mathematical value: its state, and whether a source that
/// it absorbed has failed.
pub struct CycleView {
    pub state: CycleState,
    pub failed: bool,
}

impl View for Cycle {
    type V = CycleView;

    closed spec fn view(&self) -> CycleView {
        CycleView { state: self.state, failed: self.failed }
    }
}

impl Cycle {
    /// A cycle that has not started.
    pub fn new() -> (r: Cycle)
        ensures
            r@ == (CycleView { state: CycleState::Idle, failed: false }),
    {
        Cycle { state: CycleState::Idle, failed: false }
    }

    /// The state of the cycle.
    pub fn state(&self) -> (r: CycleState)
        ensures
            r == self@.state,
    {
        self.state
    }

    /// Starts the cycle. Returns whether it did: only an idle cycle
    /// starts, any other stays as it is.
    pub fn start(&mut self) -> (started: bool)
        ensures
            started == (old(self)@.state == CycleState::Idle),
            started ==> final(self)@ == (CycleView { state: CycleState::Running, failed: false }),
            !started ==> final(self)@ == old(self)@,
    {
        if self.state == CycleState::Idle {
            self.state = CycleState::Running;
            self.failed = false;
            true
        } else {
            false
        }
    }

    /// Absorbs what one reader delivered: merges the samples of its text
    /// into the registry, or records its failure and leaves the collector
    /// as it was. Returns the report of the source, or `None`, with
    /// nothing changed, where the cycle is not running.
    pub fn absorb(&mut self, collector: &mut Collector, reading: &SourceReading) -> (r: Option<
        SourceReport,
    >)
        requires
            old(collector).wf(),
        ensures
            final(collector).wf(),
            r.is_some() == (old(self)@.state == CycleState::Running),
            r.is_none() ==> final(self)@ == old(self)@ && final(collector)@ == old(collector)@,
            r.is_some() ==> {
                let report = r.unwrap();
                let samples = reading_samples(old(collector)@.cpu, reading@);
                &&& final(self)@ == (CycleView {
                    state: CycleState::Running,
                    failed: old(self)@.failed || reading@.outcome.is_err(),
                })
                &&& final(collector)@ == absorbed_state(old(collector)@, reading@)
                &&& match reading@.outcome {
                    Ok(raw) => {
                        &&& report.failure.is_none()
                        &&& report.kind_mismatches == merge_refused(
                            old(collector)@.metrics,
                            samples,
                            RegistryError::KindMismatch,
                        )
                        &&& report.invalid_deltas == merge_refused(
                            old(collector)@.metrics,
                            samples,
                            RegistryError::InvalidDelta,
                        )
                        &&& report.applied + report.kind_mismatches + report.invalid_deltas
                            == samples.len()
                        &&& report.skipped == parsed_skipped(
                            raw,
                            source_kind(reading.reader, old(collector)@.cpu),
                        )
                    },
                    Err(e) => report == (SourceReport {
                        failure: Some(e),
                        applied: 0,
                        kind_mismatches: 0,
                        invalid_deltas: 0,
                        skipped: 0,
                    }),
                }
            },
    {
        if self.state != CycleState::Running {
            return None;
        }
        let (result, next) = collect(&collector.cpu, reading);
        match result {
            SourceResult::Failed(e) => {
                self.failed = true;
                Some(
                    SourceReport {
                        failure: Some(e),
                        applied: 0,
                        kind_mismatches: 0,
                        invalid_deltas: 0,
                        skipped: 0,
                    },
                )
            },
            SourceResult::Samples(out) => {
                let merged = merge(&mut collector.registry, &out.samples);
                collector.cpu = next;
                Some(
                    SourceReport {
                        failure: None,
                        applied: merged.applied,
                        kind_mismatches: merged.kind_mismatches,
                        invalid_deltas: merged.invalid_deltas,
                        skipped: out.skipped,
                    },
                )
            },
        }
    }

    /// Finishes the cycle and returns its state: a running cycle ends
    /// `Completed` where every source delivered and `PartiallyFailed`
    /// where one failed; any other cycle stays as it is.
    pub fn finish(&mut self) -> (r: CycleState)
        ensures
            r == final(self)@.state,
            final(self)@.failed == old(self)@.failed,
            old(self)@.state == CycleState::Running ==> r == (if old(self)@.failed {
                CycleState::PartiallyFailed
            } else {
                CycleState::Completed
            }),
            old(self)@.state != CycleState::Running ==> r == old(self)@.state,
    {
        if self.state == CycleState::Running {
            if self.failed {
                self.state = CycleState::PartiallyFailed;
            } else {
                self.state = CycleState::Completed;
            }
        }
        self.state
    }
}

/// Runs one cycle over what the readers delivered: absorbs every reading
/// in order and reports how the cycle ended. A failed source changes
/// nothing in the collector and never keeps the others from being merged.
pub fn run_cycle(collector: &mut Collector, readings: &Vec<SourceReading>) -> (r: CycleReport)
    requires
        old(collector).wf(),
    ensures
        final(collector).wf(),
        final(collector)@ == after_cycle(old(collector)@, reading_views(readings@)),
        r.state == cycle_outcome(reading_views(readings@)),
        r.sources == readings@.len(),
        r.failed_sources == failed_count(reading_views(readings@)),
        r.kind_mismatch == cycle_kind_mismatch(old(collector)@, reading_views(readings@)),
{
    let mut cycle = Cycle::new();
    cycle.start();
    let mut failed_sources: usize = 0;
    let mut kind_mismatch: bool = false;
    let mut i: usize = 0;
    let ghost views = reading_views(readings@);
    proof {
        reveal(Seq::filter);
    }
    while i < readings.len()
        invariant
            i <= readings.len(),
            collector.wf(),
            views == reading_views(readings@),
            collector@ == after_cycle(old(collector)@, views.take(i as int)),
            failed_sources == failed_count(views.take(i as int)),
            failed_sources <= i,
            kind_mismatch == cycle_kind_mismatch(old(collector)@, views.take(i as int)),
            cycle@ == (CycleView { state: CycleState::Running, failed: failed_sources > 0 }),
        decreases readings.len() - i,
    {
        proof {
            assert(views.take(i + 1).drop_last() =~= views.take(i as int));
            assert(views.take(i + 1).last() == readings@[i as int]@);
            reveal(Seq::filter);
        }
        let report = cycle.absorb(collector, &readings[i]).unwrap();
        if report.failure.is_some() {
            failed_sources += 1;
        }
        if report.kind_mismatches > 0 {
            kind_mismatch = true;
        }
        i += 1;
    }
    assert(views.take(readings.len() as int) =~= views);
    let state = cycle.finish();
    CycleReport { state, sources: readings.len(), failed_sources, kind_mismatch }
}

/// Every source of the cycle failed: there was a source, and none
/// delivered.
pub open spec fn all_failed(readings: Seq<ReadingView>) -> bool {
    readings.len() > 0 && failed_count(readings) == readings.len()
}

/// The payload that answers a scrape: what a cycle over the readings
/// leaves of the registry, rendered, after the failure notice where every
/// source failed.
pub open spec fn cycle_payload(c: CollectorView, readings: Seq<ReadingView>) -> Seq<u8> {
    text_of_lines(response_lines(after_cycle(c, readings).metrics, all_failed(readings)))
}

/// Answers one scrape: runs a cycle over what the readers delivered and
/// renders the registry as it then stands. There is a payload whatever the
/// sources did; where all of them failed it opens with a comment line that
/// says so and goes on with the last known values.
pub fn scrape(collector: &mut Collector, readings: &Vec<SourceReading>) -> (r: ScrapeResponse)
    requires
        old(collector).wf(),
    ensures
        final(collector).wf(),
        final(collector)@ == after_cycle(old(collector)@, reading_views(readings@)),
        r.payload@ == cycle_payload(old(collector)@, reading_views(readings@)),
        r.content_type@ == text_content_type(),
        r.report.state == cycle_outcome(reading_views(readings@)),
        r.report.sources == readings@.len(),
        r.report.failed_sources == failed_count(reading_views(readings@)),
        r.report.kind_mismatch == cycle_kind_mismatch(old(collector)@, reading_views(readings@)),
{
    let report = run_cycle(collector, readings);
    let snapshot = collector.registry.snapshot();
    let (payload, content_type) = render_response(
        &snapshot,
        report.sources > 0 && report.failed_sources == report.sources,
    );
    ScrapeResponse { payload, content_type, report }
}

/// A source that failed changes nothing: neither the registry nor the
/// tick counters that are kept.
pub proof fn lemma_failed_source_changes_nothing(c: CollectorView, reading: ReadingView)
    requires
        reading.outcome.is_err(),
    ensures
        absorbed_state(c, reading) == c,
{
}

/// Failures are isolated: a cycle leaves the collector as the same cycle
/// without its failed sources would.
pub proof fn lemma_failures_are_isolated(c: CollectorView, readings: Seq<ReadingView>)
    ensures
        after_cycle(c, readings) == after_cycle(
            c,
            readings.filter(|r: ReadingView| r.outcome.is_ok()),
        ),
    decreases readings.len(),
{
    reveal(Seq::filter);
    if readings.len() > 0 {
        lemma_failures_are_isolated(c, readings.drop_last());
        let delivered = readings.filter(|r: ReadingView| r.outcome.is_ok());
        if readings.last().outcome.is_ok() {
            assert(delivered.drop_last() =~= readings.drop_last().filter(
                |r: ReadingView| r.outcome.is_ok(),
            ));
        }
    }
}

/// A cycle ends `PartiallyFailed` exactly when one of its sources failed,
/// and `Completed` otherwise.
pub proof fn lemma_cycle_outcome(readings: Seq<ReadingView>)
    ensures
        cycle_outcome(readings) == CycleState::PartiallyFailed <==> exists|i: int|
            0 <= i < readings.len() && (#[trigger] readings[i]).outcome.is_err(),
        cycle_outcome(readings) == CycleState::Completed <==> forall|i: int|
            0 <= i < readings.len() ==> (#[trigger] readings[i]).outcome.is_ok(),
        failed_count(readings) <= readings.len(),
    decreases readings.len(),
{
    reveal(Seq::filter);
    if readings.len() > 0 {
        let init = readings.drop_last();
        lemma_cycle_outcome(init);
        if cycle_outcome(init) == CycleState::PartiallyFailed {
            let i = choose|i: int| 0 <= i < init.len() && (#[trigger] init[i]).outcome.is_err();
            assert(readings[i] == init[i]);
        }
        if readings.last().outcome.is_err() {
            assert(readings[readings.len() - 1].outcome.is_err());
        }
        if exists|i: int| 0 <= i < readings.len() && (#[trigger] readings[i]).outcome.is_err() {
            let i = choose|i: int|
                0 <= i < readings.len() && (#[trigger] readings[i]).outcome.is_err();
            if i < init.len() {
                assert(init[i] == readings[i]);
            }
        }
        assert forall|i: int| 0 <= i < init.len() implies init[i] == readings[i] by {}
    }
}

/// Merging samples never removes an entry of the registry, never changes
/// its kind and never lowers a counter; the registry stays free of
/// duplicates.
pub proof fn lemma_merge_keeps_entries(s: Seq<MetricView>, xs: Seq<SampleView>)
    requires
        distinct_identities(s),
    ensures
        keeps_entries(s, merge_state(s, xs)),
        distinct_identities(merge_state(s, xs)),
    decreases xs.len(),
{
    if xs.len() > 0 {
        lemma_merge_keeps_entries(s, xs.drop_last());
        let before = merge_state(s, xs.drop_last());
        let x = xs.last();
        lemma_operations_keep_entries(before, x.identity, MetricKind::Gauge, x.value);
        lemma_operations_keep_entries(
            before,
            x.identity,
            MetricKind::Counter,
            x.value - value_of(before, x.identity),
        );
    }
}

/// A whole cycle never removes an entry of the registry, never changes
/// its kind and never lowers a counter: what a source reported last stays
/// until a source reports it anew.
pub proof fn lemma_cycle_keeps_entries(c: CollectorView, readings: Seq<ReadingView>)
    requires
        distinct_identities(c.metrics),
    ensures
        keeps_entries(c.metrics, after_cycle(c, readings).metrics),
        distinct_identities(after_cycle(c, readings).metrics),
    decreases readings.len(),
{
    if readings.len() > 0 {
        lemma_cycle_keeps_entries(c, readings.drop_last());
        let before = after_cycle(c, readings.drop_last());
        lemma_merge_keeps_entries(before.metrics, reading_samples(before.cpu, readings.last()));
    }
}

/// A processor reading changes the usage gauge alone: every other
/// identity has, after the reading is absorbed, the value that it had, and
/// is absent where it was absent. The tick counters are kept beside the
/// registry and are no metric.
pub proof fn lemma_cpu_reading_changes_usage_alone(
    c: CollectorView,
    reading: ReadingView,
    other: IdentityView,
)
    requires
        distinct_identities(c.metrics),
        reading.reader == ReaderKind::LocalCpu,
        other != plain_identity(cpu_usage_name()),
    ensures
        has_identity(absorbed_state(c, reading).metrics, other) == has_identity(c.metrics, other),
        value_of(absorbed_state(c, reading).metrics, other) == value_of(c.metrics, other),
{
    lemma_merge_is_local(c.metrics, reading_samples(c.cpu, reading), other);
}

/// What follows the summary line of a processor reading changes nothing:
/// two readings with the same first line, that line giving tick counters,
/// leave the collector in the same state.
pub proof fn lemma_cpu_reading_goes_by_first_line(
    c: CollectorView,
    first: Seq<u8>,
    one: Seq<u8>,
    other: Seq<u8>,
)
    requires
        single_line(first),
        ticks_of_line(first).is_some(),
    ensures
        absorbed_state(
            c,
            ReadingView { reader: ReaderKind::LocalCpu, outcome: Ok(first + seq![10u8] + one) },
        ) == absorbed_state(
            c,
            ReadingView { reader: ReaderKind::LocalCpu, outcome: Ok(first + seq![10u8] + other) },
        ),
{
    lemma_summary_line_decides(first, one, c.cpu);
    lemma_summary_line_decides(first, other, c.cpu);
}

/// Round trip through a fresh registry: where a line denotes a sample and
/// an empty registry takes that sample, rendering the registry and parsing
/// the payload gives exactly that sample again, with its name, its labels
/// in canonical order and its value.
pub proof fn lemma_fresh_registry_round_trip(line: Seq<u8>)
    requires
        sample_of_line(line).is_some(),
        apply_result(Seq::empty(), sample_of_line(line).unwrap()).is_ok(),
    ensures
        ({
            let sample = sample_of_line(line).unwrap();
            let payload = text_of_lines(metric_lines(apply_state(Seq::empty(), sample)));
            &&& exposition_samples(payload) == seq![sample]
            &&& lines_malformed(lines_of(payload)) == 0
        }),
{
    let sample = sample_of_line(line).unwrap();
    let empty = Seq::<MetricView>::empty();
    let after = apply_state(empty, sample);
    lemma_parsed_sample_valid(line);
    assert(!has_identity(empty, sample.identity));
    let metric = MetricView {
        identity: sample.identity,
        kind: sample_kind(sample.identity.name),
        value: sample.value,
    };
    assert(after =~= seq![metric]);
    lemma_render_parse_round_trip(after);
    assert(metric_samples(after) =~= seq![sample]);
}

/// What no sample speaks of stays as it is: merging samples leaves an
/// identity that none of them names with the value it had, and absent
/// where it was absent.
pub proof fn lemma_merge_is_local(s: Seq<MetricView>, xs: Seq<SampleView>, other: IdentityView)
    requires
        distinct_identities(s),
        forall|i: int| 0 <= i < xs.len() ==> (#[trigger] xs[i]).identity != other,
    ensures
        has_identity(merge_state(s, xs), other) == has_identity(s, other),
        value_of(merge_state(s, xs), other) == value_of(s, other),
    decreases xs.len(),
{
    if xs.len() > 0 {
        let init = xs.drop_last();
        let x = xs.last();
        assert forall|i: int| 0 <= i < init.len() implies (#[trigger] init[i]).identity
            != other by {
            assert(init[i] == xs[i]);
        }
        lemma_merge_is_local(s, init, other);
        lemma_merge_keeps_entries(s, init);
        let before = merge_state(s, init);
        assert(xs[xs.len() - 1].identity != other);
        lemma_updates_are_local(before, x.identity, other, x.value);
        lemma_updates_are_local(
            before,
            x.identity,
            other,
            x.value - value_of(before, x.identity),
        );
    }
}

} // verus!
