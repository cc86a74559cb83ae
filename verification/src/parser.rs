//! The sample parser: from the raw text of one source to its samples.

use crate::exposition::{exposition_samples, lines_malformed, parse_exposition};
use crate::kernel::{
    cpu_samples, cpu_skipped, cpu_stat_samples, meminfo_samples, memory_samples, memory_skipped,
    parse_cpu_stat, parse_meminfo, remembered_ticks, CpuTicks,
};
use crate::sample::{sample_views, samples_wf, ParseOutcome, RawSample, SampleView};
use crate::text::lines_of;
use vstd::prelude::*;

verus! {

/// The kind of text that a source delivers.
#[derive(Clone, Copy, Debug, PartialEq, Eq, Structural)]
pub enum SourceKind {
    /// Text in the exposition format.
    Exposition,
    /// Kernel memory statistics.
    KernelMemory,
    /// Kernel processor statistics, read relative to the tick counters of
    /// the previous reading; all zero where there was none.
    KernelCpu(CpuTicks),
}

/// The samples that a text of the given kind holds.
pub open spec fn parsed_samples(raw: Seq<u8>, kind: SourceKind) -> Seq<SampleView> {
    match kind {
        SourceKind::Exposition => exposition_samples(raw),
        SourceKind::KernelMemory => meminfo_samples(raw),
        SourceKind::KernelCpu(previous) => cpu_stat_samples(raw, previous),
    }
}

/// The number of lines of a text of the given kind that are skipped.
pub open spec fn parsed_skipped(raw: Seq<u8>, kind: SourceKind) -> nat {
    match kind {
        SourceKind::Exposition => lines_malformed(lines_of(raw)),
        SourceKind::KernelMemory => memory_skipped(lines_of(raw)),
        SourceKind::KernelCpu(_) => cpu_skipped(lines_of(raw)),
    }
}

/// Parses the raw text of one source, line by line. Lines that are
/// malformed or not recognised are skipped and counted, never fatal. The
/// result depends on the arguments alone.
pub fn parse(raw: &[u8], kind: &SourceKind) -> (out: ParseOutcome)
    ensures
        sample_views(out.samples@) == parsed_samples(raw@, *kind),
        out.skipped == parsed_skipped(raw@, *kind),
        samples_wf(out.samples@),
{
    match kind {
        SourceKind::Exposition => parse_exposition(raw),
        SourceKind::KernelMemory => {
            let reading = parse_meminfo(raw);
            ParseOutcome { samples: memory_samples(&reading.counters), skipped: reading.skipped }
        },
        SourceKind::KernelCpu(previous) => parse_cpu(raw, previous).0,
    }
}

/// Parses processor statistics relative to the tick counters of the
/// previous reading. Returns the samples together with the tick counters to
/// keep for the next reading: those of this text, or the previous ones
/// where the text gives none.
pub fn parse_cpu(raw: &[u8], previous: &CpuTicks) -> (r: (ParseOutcome, CpuTicks))
    ensures
        sample_views(r.0.samples@) == cpu_stat_samples(raw@, *previous),
        r.0.skipped == cpu_skipped(lines_of(raw@)),
        samples_wf(r.0.samples@),
        r.1 == remembered_ticks(*previous, raw@),
{
    let reading = parse_cpu_stat(raw);
    match reading.ticks {
        Some(current) => (
            ParseOutcome { samples: cpu_samples(previous, &current), skipped: reading.skipped },
            current,
        ),
        None => {
            let samples: Vec<RawSample> = Vec::new();
            assert(sample_views(samples@) =~= Seq::<SampleView>::empty());
            (ParseOutcome { samples, skipped: reading.skipped }, *previous)
        },
    }
}

} // verus!
