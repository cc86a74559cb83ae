//! The identity of a metric: its name together with its label set.

use crate::labels::{canonical_labels, LabelSeq, LabelSet};
use crate::labels::label_insert;
use crate::text::{bytes_equal, bytes_of, copy_bytes, is_valid_name, valid_key, valid_name};
use vstd::string::StringSliceAdditionalSpecFns;
use vstd::prelude::*;

verus! {

/// What identifies a metric: a name and a canonical sequence of labels.
pub struct IdentityView {
    pub name: Seq<u8>,
    pub labels: LabelSeq,
}

/// A well-formed identity: a well-formed name and canonical labels.
pub open spec fn valid_identity(v: IdentityView) -> bool {
    valid_name(v.name) && canonical_labels(v.labels)
}

/// The identity of a metric that has a name and no labels.
pub open spec fn plain_identity(name: Seq<u8>) -> IdentityView {
    IdentityView { name, labels: Seq::empty() }
}

/// The name and label set of one metric. Two identities are the same metric
/// exactly when their names are equal and their label sets map the same keys
/// to the same values.
#[derive(Debug)]
pub struct MetricIdentity {
    name: Vec<u8>,
    labels: LabelSet,
}

impl View for MetricIdentity {
    type V = IdentityView;

    closed spec fn view(&self) -> IdentityView {
        IdentityView { name: self.name@, labels: self.labels@ }
    }
}

impl MetricIdentity {
    /// The invariant of an identity.
    pub open spec fn wf(&self) -> bool {
        valid_identity(self@)
    }

    /// An identity from a name and a label set; `None` where the name is
    /// not a well-formed metric name.
    pub fn new(name: Vec<u8>, labels: LabelSet) -> (r: Option<MetricIdentity>)
        requires
            labels.wf(),
        ensures
            r.is_some() == valid_name(name@),
            r.is_some() ==> r.unwrap().wf() && r.unwrap()@ == (IdentityView {
                name: name@,
                labels: labels@,
            }),
    {
        if is_valid_name(name.as_slice()) {
            Some(MetricIdentity { name, labels })
        } else {
            None
        }
    }

    /// An identity without labels from a name given as a string; `None`
    /// where the name is not a well-formed metric name.
    pub fn named(name: &str) -> (r: Option<MetricIdentity>)
        ensures
            r.is_some() == valid_name(name.spec_bytes()),
            r.is_some() ==> r.unwrap().wf() && r.unwrap()@ == plain_identity(name.spec_bytes()),
    {
        MetricIdentity::new(bytes_of(name), LabelSet::new())
    }

    /// This identity with label `key` set to `value`; `None` where the key
    /// is not a well-formed label key.
    pub fn with_label(self, key: &str, value: &str) -> (r: Option<MetricIdentity>)
        requires
            self.wf(),
        ensures
            r.is_some() == valid_key(key.spec_bytes()),
            r.is_some() ==> r.unwrap().wf() && r.unwrap()@ == (IdentityView {
                name: self@.name,
                labels: label_insert(self@.labels, key.spec_bytes(), value.spec_bytes()),
            }),
    {
        let mut labels = self.labels;
        if labels.insert(bytes_of(key), bytes_of(value)) {
            Some(MetricIdentity { name: self.name, labels })
        } else {
            None
        }
    }

    /// The metric's name.
    pub fn name(&self) -> (r: &Vec<u8>)
        ensures
            r@ == self@.name,
    {
        &self.name
    }

    /// The metric's labels.
    pub fn labels(&self) -> (r: &LabelSet)
        ensures
            r@ == self@.labels,
    {
        &self.labels
    }

    /// Whether two identities name the same metric.
    pub fn equals(&self, other: &MetricIdentity) -> (r: bool)
        ensures
            r == (self@ == other@),
    {
        bytes_equal(self.name.as_slice(), other.name.as_slice()) && self.labels.equals(
            &other.labels,
        )
    }

    /// A copy of this identity.
    pub fn copy(&self) -> (r: MetricIdentity)
        ensures
            r@ == self@,
    {
        MetricIdentity { name: copy_bytes(self.name.as_slice()), labels: self.labels.copy() }
    }
}

} // verus!
