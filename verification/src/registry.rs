//! The metric registry: a table of counters and gauges with get-or-create
//! semantics, holding at most one metric per identity.

use crate::identity::{valid_identity, IdentityView, MetricIdentity};
use vstd::prelude::*;

verus! {

/// The kind of a metric.
#[derive(Clone, Copy, Debug, PartialEq, Eq, Structural)]
pub enum MetricKind {
    /// A value that never decreases.
    Counter,
    /// A value that may move either way; the last write wins.
    Gauge,
}

/// Why a registry operation was refused.
#[derive(Clone, Copy, Debug, PartialEq, Eq, Structural)]
pub enum RegistryError {
    /// The identity is registered with another kind than the one asked for.
    KindMismatch,
    /// A counter was asked to move by a negative amount.
    InvalidDelta,
}

/// One registry entry as a mathematical value.
pub struct MetricView {
    pub identity: IdentityView,
    pub kind: MetricKind,
    pub value: int,
}

/// A well-formed entry: a well-formed identity, and a counter is never
/// negative.
pub open spec fn valid_metric(m: MetricView) -> bool {
    &&& valid_identity(m.identity)
    &&& i64::MIN <= m.value <= i64::MAX
    &&& m.kind == MetricKind::Counter ==> m.value >= 0
}

/// `s` holds an entry for `id`.
pub open spec fn has_identity(s: Seq<MetricView>, id: IdentityView) -> bool {
    exists|i: int| 0 <= i < s.len() && #[trigger] s[i].identity == id
}

/// The index of an entry for `id` in `s`, where there is one.
pub open spec fn index_of(s: Seq<MetricView>, id: IdentityView) -> int {
    choose|i: int| 0 <= i < s.len() && #[trigger] s[i].identity == id
}

/// No two entries of `s` share an identity.
pub open spec fn distinct_identities(s: Seq<MetricView>) -> bool {
    forall|i: int, j: int|
        0 <= i < j < s.len() ==> (#[trigger] s[i]).identity != (#[trigger] s[j]).identity
}

/// The invariant of a registry's contents: well-formed entries, at most one
/// per identity.
pub open spec fn valid_registry(s: Seq<MetricView>) -> bool {
    &&& distinct_identities(s)
    &&& forall|i: int| 0 <= i < s.len() ==> valid_metric(#[trigger] s[i])
}

/// The entry that get-or-create makes for an identity seen for the first
/// time.
pub open spec fn fresh_metric(id: IdentityView, kind: MetricKind) -> MetricView {
    MetricView { identity: id, kind, value: 0 }
}

/// The current value of `id` in `s`; zero where `s` has no entry for it.
pub open spec fn value_of(s: Seq<MetricView>, id: IdentityView) -> int {
    if has_identity(s, id) {
        s[index_of(s, id)].value
    } else {
        0
    }
}

/// The registry after get-or-create of `id`.
pub open spec fn get_or_create_state(
    s: Seq<MetricView>,
    id: IdentityView,
    kind: MetricKind,
) -> Seq<MetricView> {
    if has_identity(s, id) {
        s
    } else {
        s.push(fresh_metric(id, kind))
    }
}

/// What get-or-create of `id` returns.
pub open spec fn get_or_create_result(
    s: Seq<MetricView>,
    id: IdentityView,
    kind: MetricKind,
) -> Result<MetricView, RegistryError> {
    if !has_identity(s, id) {
        Ok(fresh_metric(id, kind))
    } else if s[index_of(s, id)].kind == kind {
        Ok(s[index_of(s, id)])
    } else {
        Err(RegistryError::KindMismatch)
    }
}

/// What setting gauge `id` returns.
pub open spec fn set_gauge_result(s: Seq<MetricView>, id: IdentityView) -> Result<
    (),
    RegistryError,
> {
    if has_identity(s, id) && s[index_of(s, id)].kind != MetricKind::Gauge {
        Err(RegistryError::KindMismatch)
    } else {
        Ok(())
    }
}

/// The registry after setting gauge `id` to `value`.
pub open spec fn set_gauge_state(s: Seq<MetricView>, id: IdentityView, value: int) -> Seq<
    MetricView,
> {
    if !has_identity(s, id) {
        s.push(MetricView { identity: id, kind: MetricKind::Gauge, value })
    } else if s[index_of(s, id)].kind == MetricKind::Gauge {
        s.update(index_of(s, id), MetricView { identity: id, kind: MetricKind::Gauge, value })
    } else {
        s
    }
}

/// What incrementing counter `id` by `delta` returns.
pub open spec fn increment_result(s: Seq<MetricView>, id: IdentityView, delta: int) -> Result<
    (),
    RegistryError,
> {
    if delta < 0 {
        Err(RegistryError::InvalidDelta)
    } else if has_identity(s, id) && s[index_of(s, id)].kind != MetricKind::Counter {
        Err(RegistryError::KindMismatch)
    } else {
        Ok(())
    }
}

/// The registry after incrementing counter `id` by `delta`.
pub open spec fn increment_state(s: Seq<MetricView>, id: IdentityView, delta: int) -> Seq<
    MetricView,
> {
    if increment_result(s, id, delta).is_err() {
        s
    } else if has_identity(s, id) {
        s.update(
            index_of(s, id),
            MetricView {
                identity: id,
                kind: MetricKind::Counter,
                value: s[index_of(s, id)].value + delta,
            },
        )
    } else {
        s.push(MetricView { identity: id, kind: MetricKind::Counter, value: delta })
    }
}

/// Incrementing counter `id` by `delta` stays within the 64-bit range.
pub open spec fn increment_fits(s: Seq<MetricView>, id: IdentityView, delta: int) -> bool {
    value_of(s, id) + delta <= i64::MAX
}

/// In a registry without duplicates an entry for `id` sits at the index
/// that `index_of` names.
pub proof fn lemma_index_of(s: Seq<MetricView>, id: IdentityView, i: int)
    requires
        distinct_identities(s),
        0 <= i < s.len(),
        s[i].identity == id,
    ensures
        has_identity(s, id),
        index_of(s, id) == i,
{
    let j = index_of(s, id);
    if j < i {
        assert(s[j].identity != s[i].identity);
    }
    if i < j {
        assert(s[i].identity != s[j].identity);
    }
}

/// One registry entry: an identity, its kind and its current value.
#[derive(Debug)]
pub struct Metric {
    identity: MetricIdentity,
    kind: MetricKind,
    value: i64,
}

impl View for Metric {
    type V = MetricView;

    closed spec fn view(&self) -> MetricView {
        MetricView { identity: self.identity@, kind: self.kind, value: self.value as int }
    }
}

impl Metric {
    /// The invariant of an entry.
    pub open spec fn wf(&self) -> bool {
        valid_metric(self@)
    }

    /// The entry's identity.
    pub fn identity(&self) -> (r: &MetricIdentity)
        ensures
            r@ == self@.identity,
    {
        &self.identity
    }

    /// The entry's kind.
    pub fn kind(&self) -> (r: MetricKind)
        ensures
            r == self@.kind,
    {
        self.kind
    }

    /// The entry's current value.
    pub fn value(&self) -> (r: i64)
        ensures
            r == self@.value,
    {
        self.value
    }

    /// A copy of this entry.
    pub fn copy(&self) -> (r: Metric)
        ensures
            r@ == self@,
    {
        Metric { identity: self.identity.copy(), kind: self.kind, value: self.value }
    }
}

/// The mathematical values of a sequence of entries.
pub open spec fn metric_views(v: Seq<Metric>) -> Seq<MetricView> {
    v.map_values(|m: Metric| m@)
}

/// A table of metrics in the order of their first observation.
#[derive(Debug)]
pub struct Registry {
    metrics: Vec<Metric>,
}

impl View for Registry {
    type V = Seq<MetricView>;

    closed spec fn view(&self) -> Seq<MetricView> {
        metric_views(self.metrics@)
    }
}

impl Registry {
    /// The invariant of a registry.
    pub open spec fn wf(&self) -> bool {
        valid_registry(self@)
    }

    /// An empty registry.
    pub fn new() -> (r: Registry)
        ensures
            r@ == Seq::<MetricView>::empty(),
            r.wf(),
    {
        let r = Registry { metrics: Vec::new() };
        assert(r@ =~= Seq::<MetricView>::empty());
        r
    }

    /// The number of metrics.
    pub fn len(&self) -> (n: usize)
        ensures
            n == self@.len(),
    {
        self.metrics.len()
    }

    /// The index of the entry for `identity`, if there is one.
    fn find(&self, identity: &MetricIdentity) -> (r: Option<usize>)
        requires
            self.wf(),
        ensures
            r.is_some() == has_identity(self@, identity@),
            r.is_some() ==> r.unwrap() == index_of(self@, identity@) && r.unwrap() < self@.len(),
    {
        let mut i: usize = 0;
        while i < self.metrics.len()
            invariant
                i <= self.metrics.len(),
                self.wf(),
                forall|j: int| 0 <= j < i ==> (#[trigger] self@[j]).identity != identity@,
            decreases self.metrics.len() - i,
        {
            if self.metrics[i].identity.equals(identity) {
                proof {
                    assert(self@[i as int].identity == identity@);
                    lemma_index_of(self@, identity@, i as int);
                }
                return Some(i);
            }
            i += 1;
        }
        None
    }

    /// The entry for `identity`, if the registry has one.
    pub fn get(&self, identity: &MetricIdentity) -> (r: Option<Metric>)
        requires
            self.wf(),
        ensures
            r.is_some() == has_identity(self@, identity@),
            r.is_some() ==> r.unwrap()@ == self@[index_of(self@, identity@)],
    {
        match self.find(identity) {
            Some(i) => Some(self.metrics[i].copy()),
            None => None,
        }
    }

    /// The kind and current value of `identity`, if the registry has an
    /// entry for it.
    pub fn current(&self, identity: &MetricIdentity) -> (r: Option<(MetricKind, i64)>)
        requires
            self.wf(),
        ensures
            r.is_some() == has_identity(self@, identity@),
            r.is_some() ==> r.unwrap().0 == self@[index_of(self@, identity@)].kind && r.unwrap().1
                == self@[index_of(self@, identity@)].value,
    {
        match self.find(identity) {
            Some(i) => Some((self.metrics[i].kind, self.metrics[i].value)),
            None => None,
        }
    }

    /// Returns the entry for `identity`, creating it with value zero and
    /// the given kind where the registry has none. Fails with
    /// `KindMismatch`, leaving the registry as it was, where the entry
    /// exists with another kind.
    pub fn get_or_create(&mut self, identity: &MetricIdentity, kind: MetricKind) -> (r: Result<
        Metric,
        RegistryError,
    >)
        requires
            old(self).wf(),
            identity.wf(),
        ensures
            final(self).wf(),
            final(self)@ == get_or_create_state(old(self)@, identity@, kind),
            match r {
                Ok(m) => get_or_create_result(old(self)@, identity@, kind) == Ok::<
                    MetricView,
                    RegistryError,
                >(m@),
                Err(e) => get_or_create_result(old(self)@, identity@, kind) == Err::<
                    MetricView,
                    RegistryError,
                >(e),
            },
    {
        match self.find(identity) {
            Some(i) => {
                if self.metrics[i].kind == kind {
                    Ok(self.metrics[i].copy())
                } else {
                    Err(RegistryError::KindMismatch)
                }
            },
            None => {
                let m = Metric { identity: identity.copy(), kind, value: 0 };
                let r = m.copy();
                self.metrics.push(m);
                proof {
                    assert(self@ =~= old(self)@.push(fresh_metric(identity@, kind)));
                    lemma_push_valid(old(self)@, fresh_metric(identity@, kind));
                }
                Ok(r)
            },
        }
    }

    /// Sets gauge `identity` to `value`, creating the gauge where the
    /// registry has none. Fails with `KindMismatch`, leaving the registry
    /// as it was, where the identity is a counter.
    pub fn set_gauge(&mut self, identity: &MetricIdentity, value: i64) -> (r: Result<
        (),
        RegistryError,
    >)
        requires
            old(self).wf(),
            identity.wf(),
        ensures
            final(self).wf(),
            r == set_gauge_result(old(self)@, identity@),
            final(self)@ == set_gauge_state(old(self)@, identity@, value as int),
    {
        match self.find(identity) {
            Some(i) => {
                if self.metrics[i].kind == MetricKind::Gauge {
                    let m = Metric { identity: identity.copy(), kind: MetricKind::Gauge, value };
                    self.metrics.set(i, m);
                    proof {
                        assert(self@ =~= old(self)@.update(i as int, m@));
                        lemma_update_valid(old(self)@, i as int, m@);
                    }
                    Ok(())
                } else {
                    Err(RegistryError::KindMismatch)
                }
            },
            None => {
                let m = Metric { identity: identity.copy(), kind: MetricKind::Gauge, value };
                self.metrics.push(m);
                proof {
                    assert(self@ =~= old(self)@.push(m@));
                    lemma_push_valid(old(self)@, m@);
                }
                Ok(())
            },
        }
    }

    /// Adds `delta` to counter `identity`, creating the counter at zero
    /// where the registry has none. Fails with `InvalidDelta` where `delta`
    /// is negative and with `KindMismatch` where the identity is a gauge;
    /// either way the registry stays as it was.
    pub fn increment_counter(&mut self, identity: &MetricIdentity, delta: i64) -> (r: Result<
        (),
        RegistryError,
    >)
        requires
            old(self).wf(),
            identity.wf(),
            increment_result(old(self)@, identity@, delta as int).is_ok() ==> increment_fits(
                old(self)@,
                identity@,
                delta as int,
            ),
        ensures
            final(self).wf(),
            r == increment_result(old(self)@, identity@, delta as int),
            final(self)@ == increment_state(old(self)@, identity@, delta as int),
    {
        if delta < 0 {
            return Err(RegistryError::InvalidDelta);
        }
        match self.find(identity) {
            Some(i) => {
                if self.metrics[i].kind == MetricKind::Counter {
                    assert(self@[i as int].value == self.metrics[i as int].value);
                    assert(valid_metric(self@[i as int]));
                    let m = Metric {
                        identity: identity.copy(),
                        kind: MetricKind::Counter,
                        value: self.metrics[i].value + delta,
                    };
                    self.metrics.set(i, m);
                    proof {
                        assert(self@ =~= old(self)@.update(i as int, m@));
                        lemma_update_valid(old(self)@, i as int, m@);
                    }
                    Ok(())
                } else {
                    Err(RegistryError::KindMismatch)
                }
            },
            None => {
                let m = Metric { identity: identity.copy(), kind: MetricKind::Counter, value: delta };
                self.metrics.push(m);
                proof {
                    assert(self@ =~= old(self)@.push(m@));
                    lemma_push_valid(old(self)@, m@);
                }
                Ok(())
            },
        }
    }

    /// A copy of every entry, in registry order, as of this moment.
    pub fn snapshot(&self) -> (r: Vec<Metric>)
        ensures
            metric_views(r@) == self@,
    {
        let mut r: Vec<Metric> = Vec::new();
        let mut i: usize = 0;
        while i < self.metrics.len()
            invariant
                i <= self.metrics.len(),
                r@.len() == i,
                forall|j: int| 0 <= j < i ==> (#[trigger] r@[j])@ == self.metrics@[j]@,
            decreases self.metrics.len() - i,
        {
            r.push(self.metrics[i].copy());
            i += 1;
        }
        assert(metric_views(r@) =~= self@);
        r
    }
}

/// Appending a well-formed entry for an identity that the registry lacks
/// keeps the registry well formed.
pub proof fn lemma_push_valid(s: Seq<MetricView>, m: MetricView)
    requires
        valid_registry(s),
        valid_metric(m),
        !has_identity(s, m.identity),
    ensures
        valid_registry(s.push(m)),
{
    let t = s.push(m);
    assert forall|i: int, j: int| 0 <= i < j < t.len() implies (#[trigger] t[i]).identity != (
    #[trigger] t[j]).identity by {
        if j == s.len() {
            assert(s[i].identity != m.identity);
        } else {
            assert(s[i].identity != s[j].identity);
        }
    }
}

/// Replacing an entry by a well-formed one of the same identity keeps the
/// registry well formed.
pub proof fn lemma_update_valid(s: Seq<MetricView>, i: int, m: MetricView)
    requires
        valid_registry(s),
        valid_metric(m),
        0 <= i < s.len(),
        s[i].identity == m.identity,
    ensures
        valid_registry(s.update(i, m)),
{
    let t = s.update(i, m);
    assert forall|a: int, b: int| 0 <= a < b < t.len() implies (#[trigger] t[a]).identity != (
    #[trigger] t[b]).identity by {
        assert(s[a].identity != s[b].identity);
    }
}

/// Appending an entry for an identity that a registry without duplicates
/// lacks leaves it without duplicates, with the new entry at the end.
pub proof fn lemma_after_push(s: Seq<MetricView>, m: MetricView)
    requires
        distinct_identities(s),
        !has_identity(s, m.identity),
    ensures
        distinct_identities(s.push(m)),
        has_identity(s.push(m), m.identity),
        index_of(s.push(m), m.identity) == s.len(),
{
    let t = s.push(m);
    assert forall|i: int, j: int| 0 <= i < j < t.len() implies (#[trigger] t[i]).identity != (
    #[trigger] t[j]).identity by {
        if j == s.len() {
            assert(s[i].identity != m.identity);
        } else {
            assert(s[i].identity != s[j].identity);
        }
    }
    lemma_index_of(t, m.identity, s.len() as int);
}

/// Replacing an entry by one of the same identity leaves a registry
/// without duplicates, with the new entry in the old one's place.
pub proof fn lemma_after_update(s: Seq<MetricView>, i: int, m: MetricView)
    requires
        distinct_identities(s),
        0 <= i < s.len(),
        s[i].identity == m.identity,
    ensures
        distinct_identities(s.update(i, m)),
        has_identity(s.update(i, m), m.identity),
        index_of(s.update(i, m), m.identity) == i,
{
    let t = s.update(i, m);
    assert forall|a: int, b: int| 0 <= a < b < t.len() implies (#[trigger] t[a]).identity != (
    #[trigger] t[b]).identity by {
        assert(s[a].identity != s[b].identity);
    }
    lemma_index_of(t, m.identity, i);
}

/// Get-or-create is idempotent: a second call with the same identity and
/// kind returns what the first returned and leaves the registry as the
/// first left it, with exactly one entry for the identity where the first
/// call succeeded.
pub proof fn lemma_get_or_create_idempotent(s: Seq<MetricView>, id: IdentityView, kind: MetricKind)
    requires
        distinct_identities(s),
    ensures
        ({
            let once = get_or_create_state(s, id, kind);
            &&& get_or_create_state(once, id, kind) == once
            &&& get_or_create_result(once, id, kind) == get_or_create_result(s, id, kind)
            &&& distinct_identities(once)
            &&& has_identity(once, id)
        }),
{
    if has_identity(s, id) {
    } else {
        lemma_after_push(s, fresh_metric(id, kind));
    }
}

/// A negative delta is refused with `InvalidDelta` and the registry keeps
/// its contents.
pub proof fn lemma_negative_delta_rejected(s: Seq<MetricView>, id: IdentityView, delta: int)
    requires
        delta < 0,
    ensures
        increment_result(s, id, delta) == Err::<(), RegistryError>(RegistryError::InvalidDelta),
        increment_state(s, id, delta) == s,
{
}

/// Counter increments add up: incrementing by `a` and then by `b` is
/// incrementing by `a + b`, and the counter ends `a + b` above where it
/// started.
pub proof fn lemma_increments_add(s: Seq<MetricView>, id: IdentityView, a: int, b: int)
    requires
        distinct_identities(s),
        a >= 0,
        b >= 0,
        increment_result(s, id, a).is_ok(),
    ensures
        increment_result(increment_state(s, id, a), id, b).is_ok(),
        increment_state(increment_state(s, id, a), id, b) == increment_state(s, id, a + b),
        value_of(increment_state(increment_state(s, id, a), id, b), id) == value_of(s, id) + a + b,
{
    let once = increment_state(s, id, a);
    if has_identity(s, id) {
        let i = index_of(s, id);
        let m = MetricView { identity: id, kind: MetricKind::Counter, value: s[i].value + a };
        lemma_after_update(s, i, m);
        let m2 = MetricView { identity: id, kind: MetricKind::Counter, value: m.value + b };
        lemma_after_update(once, i, m2);
        assert(once.update(i, m2) =~= increment_state(s, id, a + b));
    } else {
        let m = MetricView { identity: id, kind: MetricKind::Counter, value: a };
        lemma_after_push(s, m);
        let m2 = MetricView { identity: id, kind: MetricKind::Counter, value: a + b };
        lemma_after_update(once, s.len() as int, m2);
        assert(once.update(s.len() as int, m2) =~= increment_state(s, id, a + b));
        lemma_after_push(s, m2);
    }
}

/// A gauge takes whatever it is set to, lower values included, and the
/// last write wins: setting it to `a` and then to `b` is setting it to `b`.
pub proof fn lemma_gauge_last_write_wins(s: Seq<MetricView>, id: IdentityView, a: int, b: int)
    requires
        distinct_identities(s),
        set_gauge_result(s, id).is_ok(),
    ensures
        set_gauge_result(set_gauge_state(s, id, a), id).is_ok(),
        set_gauge_state(set_gauge_state(s, id, a), id, b) == set_gauge_state(s, id, b),
        value_of(set_gauge_state(s, id, b), id) == b,
{
    let once = set_gauge_state(s, id, a);
    let ma = MetricView { identity: id, kind: MetricKind::Gauge, value: a };
    let mb = MetricView { identity: id, kind: MetricKind::Gauge, value: b };
    if has_identity(s, id) {
        let i = index_of(s, id);
        lemma_after_update(s, i, ma);
        lemma_after_update(s, i, mb);
        assert(once.update(i, mb) =~= set_gauge_state(s, id, b));
    } else {
        lemma_after_push(s, ma);
        lemma_after_push(s, mb);
        assert(once.update(s.len() as int, mb) =~= set_gauge_state(s, id, b));
    }
}

/// An update of one identity leaves the value of every other identity as
/// it was.
pub proof fn lemma_updates_are_local(
    s: Seq<MetricView>,
    id: IdentityView,
    other: IdentityView,
    v: int,
)
    requires
        distinct_identities(s),
        id != other,
    ensures
        value_of(set_gauge_state(s, id, v), other) == value_of(s, other),
        value_of(increment_state(s, id, v), other) == value_of(s, other),
        has_identity(set_gauge_state(s, id, v), other) == has_identity(s, other),
        has_identity(increment_state(s, id, v), other) == has_identity(s, other),
{
    lemma_other_kept(s, set_gauge_state(s, id, v), id, other);
    lemma_other_kept(s, increment_state(s, id, v), id, other);
}

/// Where `t` differs from `s` in entries of `id` only, every other
/// identity has in `t` what it has in `s`.
proof fn lemma_other_kept(
    s: Seq<MetricView>,
    t: Seq<MetricView>,
    id: IdentityView,
    other: IdentityView,
)
    requires
        distinct_identities(s),
        id != other,
        s.len() <= t.len(),
        forall|i: int| 0 <= i < s.len() ==> (#[trigger] t[i]).identity == s[i].identity,
        forall|i: int|
            0 <= i < t.len() ==> (#[trigger] t[i]).identity == id || (i < s.len() && t[i] == s[i]),
    ensures
        has_identity(t, other) == has_identity(s, other),
        value_of(t, other) == value_of(s, other),
{
    if has_identity(s, other) {
        let j = index_of(s, other);
        assert(t[j].identity == other);
        assert(has_identity(t, other));
    }
    if has_identity(t, other) {
        let k = index_of(t, other);
        assert(t[k] == s[k]);
        lemma_index_of(s, other, k);
    }
}

/// `t` keeps what `s` holds: every entry of `s` is in `t` at the same
/// place, with its identity and kind, and no counter stands lower than it
/// did.
pub open spec fn keeps_entries(s: Seq<MetricView>, t: Seq<MetricView>) -> bool {
    &&& s.len() <= t.len()
    &&& forall|i: int|
        0 <= i < s.len() ==> {
            &&& (#[trigger] t[i]).identity == s[i].identity
            &&& t[i].kind == s[i].kind
            &&& s[i].kind == MetricKind::Counter ==> t[i].value >= s[i].value
        }
}

/// No operation of the registry removes an entry, moves it, changes its
/// kind or lowers a counter.
pub proof fn lemma_operations_keep_entries(
    s: Seq<MetricView>,
    id: IdentityView,
    kind: MetricKind,
    v: int,
)
    requires
        distinct_identities(s),
    ensures
        keeps_entries(s, get_or_create_state(s, id, kind)),
        keeps_entries(s, set_gauge_state(s, id, v)),
        keeps_entries(s, increment_state(s, id, v)),
        distinct_identities(get_or_create_state(s, id, kind)),
        distinct_identities(set_gauge_state(s, id, v)),
        distinct_identities(increment_state(s, id, v)),
{
    if has_identity(s, id) {
        let i = index_of(s, id);
        lemma_after_update(s, i, MetricView { identity: id, kind: MetricKind::Gauge, value: v });
        lemma_after_update(
            s,
            i,
            MetricView { identity: id, kind: MetricKind::Counter, value: s[i].value + v },
        );
    } else {
        lemma_after_push(s, fresh_metric(id, kind));
        lemma_after_push(s, MetricView { identity: id, kind: MetricKind::Gauge, value: v });
        lemma_after_push(s, MetricView { identity: id, kind: MetricKind::Counter, value: v });
    }
}

/// Keeping entries carries over: what keeps the entries of a registry that
/// keeps the entries of another keeps the entries of that other too.
pub proof fn lemma_keeps_entries_transitive(
    a: Seq<MetricView>,
    b: Seq<MetricView>,
    c: Seq<MetricView>,
)
    requires
        keeps_entries(a, b),
        keeps_entries(b, c),
    ensures
        keeps_entries(a, c),
{
    assert forall|i: int| 0 <= i < a.len() implies {
        &&& (#[trigger] c[i]).identity == a[i].identity
        &&& c[i].kind == a[i].kind
        &&& a[i].kind == MetricKind::Counter ==> c[i].value >= a[i].value
    } by {
        assert(b[i].identity == a[i].identity);
    }
}

} // verus!
