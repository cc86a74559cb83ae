//! Raw samples: what a source reports for one metric in one collection
//! cycle, before it is merged into the registry.

use crate::identity::{valid_identity, IdentityView, MetricIdentity};
use vstd::prelude::*;

verus! {

/// A sample as a mathematical value.
pub struct SampleView {
    pub identity: IdentityView,
    pub value: int,
}

/// A well-formed sample: a well-formed identity and a 64-bit value.
pub open spec fn valid_sample(s: SampleView) -> bool {
    valid_identity(s.identity) && i64::MIN <= s.value <= i64::MAX
}

/// One observed value of one metric.
#[derive(Debug)]
pub struct RawSample {
    identity: MetricIdentity,
    value: i64,
}

impl View for RawSample {
    type V = SampleView;

    closed spec fn view(&self) -> SampleView {
        SampleView { identity: self.identity@, value: self.value as int }
    }
}

impl RawSample {
    /// The invariant of a sample.
    pub open spec fn wf(&self) -> bool {
        valid_sample(self@)
    }

    /// A sample of `identity` with `value`.
    pub fn new(identity: MetricIdentity, value: i64) -> (r: RawSample)
        requires
            identity.wf(),
        ensures
            r.wf(),
            r@ == (SampleView { identity: identity@, value: value as int }),
    {
        RawSample { identity, value }
    }

    /// The metric that the sample is about.
    pub fn identity(&self) -> (r: &MetricIdentity)
        ensures
            r@ == self@.identity,
    {
        &self.identity
    }

    /// The observed value.
    pub fn value(&self) -> (r: i64)
        ensures
            r == self@.value,
    {
        self.value
    }
}

/// The mathematical values of a sequence of samples.
pub open spec fn sample_views(v: Seq<RawSample>) -> Seq<SampleView> {
    v.map_values(|s: RawSample| s@)
}

/// Every sample of `v` is well formed.
pub open spec fn samples_wf(v: Seq<RawSample>) -> bool {
    forall|i: int| 0 <= i < v.len() ==> (#[trigger] v[i]).wf()
}

/// What parsing one source's text gives: the samples found, in the order
/// of their lines, and the number of lines that were skipped.
#[derive(Debug)]
pub struct ParseOutcome {
    pub samples: Vec<RawSample>,
    pub skipped: usize,
}

} // verus!
