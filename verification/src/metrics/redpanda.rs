//! The broker metrics: a counter of messages per topic and a gauge of
//! consumer lag per topic and consumer group.

use crate::config::settings::RedpandaConfig;
use crate::identity::{plain_identity, IdentityView, MetricIdentity};
use crate::labels::label_insert;
use crate::registry::{
    distinct_identities, get_or_create_result, get_or_create_state, keeps_entries,
    lemma_keeps_entries_transitive, lemma_operations_keep_entries, MetricKind, MetricView,
    Registry, RegistryError,
};
use crate::text::{valid_key, valid_name};
use vstd::prelude::*;
use vstd::string::is_ascii;
use vstd::string::StringSliceAdditionalSpecFns;
use vstd::utf8::encode_utf8;

verus! {

/// The name of the counter of messages.
pub open spec fn messages_name() -> Seq<u8> {
    "redpanda_messages_total".spec_bytes()
}

/// The name of the gauge of consumer lag.
pub open spec fn lag_name() -> Seq<u8> {
    "redpanda_consumer_lag".spec_bytes()
}

/// The label key of the topic.
pub open spec fn topic_key() -> Seq<u8> {
    "topic".spec_bytes()
}

/// The label key of the consumer group.
pub open spec fn group_key() -> Seq<u8> {
    "consumer_group".spec_bytes()
}

/// The identity of the counter of messages of a topic.
pub open spec fn messages_identity(topic: Seq<u8>) -> IdentityView {
    IdentityView {
        name: messages_name(),
        labels: label_insert(Seq::empty(), topic_key(), topic),
    }
}

/// The identity of the gauge of the lag of a consumer group on a topic.
pub open spec fn lag_identity(topic: Seq<u8>, group: Seq<u8>) -> IdentityView {
    IdentityView {
        name: lag_name(),
        labels: label_insert(
            label_insert(Seq::empty(), topic_key(), topic),
            group_key(),
            group,
        ),
    }
}

/// A registry under registration: its contents, and whether an identity
/// was found registered with another kind.
pub struct Registration {
    pub metrics: Seq<MetricView>,
    pub conflict: bool,
}

/// A registration after get-or-create of one more metric.
pub open spec fn declare(r: Registration, id: IdentityView, kind: MetricKind) -> Registration {
    Registration {
        metrics: get_or_create_state(r.metrics, id, kind),
        conflict: r.conflict || get_or_create_result(r.metrics, id, kind).is_err(),
    }
}

/// A registration after the lag gauges of one topic, one per group.
pub open spec fn declare_lags(r: Registration, topic: Seq<u8>, groups: Seq<String>) -> Registration
    decreases groups.len(),
{
    if groups.len() == 0 {
        r
    } else {
        declare(
            declare_lags(r, topic, groups.drop_last()),
            lag_identity(topic, encode_utf8(groups.last()@)),
            MetricKind::Gauge,
        )
    }
}

/// A registration after the metrics of the given topics: for each topic
/// its counter of messages, then its lag gauges.
pub open spec fn declare_topics(r: Registration, topics: Seq<String>, groups: Seq<String>)
    -> Registration
    decreases topics.len(),
{
    if topics.len() == 0 {
        r
    } else {
        let topic = encode_utf8(topics.last()@);
        declare_lags(
            declare(
                declare_topics(r, topics.drop_last(), groups),
                messages_identity(topic),
                MetricKind::Counter,
            ),
            topic,
            groups,
        )
    }
}

/// The names and label keys of the broker metrics are well formed.
pub proof fn lemma_redpanda_names_valid()
    ensures
        valid_name(messages_name()),
        valid_name(lag_name()),
        valid_key(topic_key()),
        valid_key(group_key()),
{
    reveal_strlit("redpanda_messages_total");
    reveal_strlit("redpanda_consumer_lag");
    reveal_strlit("topic");
    reveal_strlit("consumer_group");
    assert(is_ascii("redpanda_messages_total"));
    assert(is_ascii("redpanda_consumer_lag"));
    assert(is_ascii("topic"));
    assert(is_ascii("consumer_group"));
}

/// The identity of the counter of messages of `topic`.
fn messages_counter(topic: &str) -> (r: MetricIdentity)
    ensures
        r.wf(),
        r@ == messages_identity(topic.spec_bytes()),
{
    proof {
        lemma_redpanda_names_valid();
        assert(plain_identity(messages_name()).labels =~= Seq::empty());
    }
    MetricIdentity::named("redpanda_messages_total").unwrap().with_label("topic", topic).unwrap()
}

/// The identity of the gauge of the lag of `group` on `topic`.
fn lag_gauge(topic: &str, group: &str) -> (r: MetricIdentity)
    ensures
        r.wf(),
        r@ == lag_identity(topic.spec_bytes(), group.spec_bytes()),
{
    proof {
        lemma_redpanda_names_valid();
    }
    MetricIdentity::named("redpanda_consumer_lag").unwrap().with_label(
        "topic",
        topic,
    ).unwrap().with_label("consumer_group", group).unwrap()
}

/// Registers the broker metrics at zero: for every configured topic its
/// counter of messages, and for every configured topic and consumer group
/// the gauge of the group's lag. A metric that is registered already stays
/// as it is. Fails with `KindMismatch` where one of these identities is
/// registered with another kind; the others are registered all the same.
pub fn register_metrics(registry: &mut Registry, config: &RedpandaConfig) -> (r: Result<
    (),
    RegistryError,
>)
    requires
        old(registry).wf(),
    ensures
        final(registry).wf(),
        ({
            let done = declare_topics(
                Registration { metrics: old(registry)@, conflict: false },
                config.topics@,
                config.consumer_groups@,
            );
            &&& final(registry)@ == done.metrics
            &&& r == (if done.conflict {
                Err::<(), RegistryError>(RegistryError::KindMismatch)
            } else {
                Ok::<(), RegistryError>(())
            })
        }),
{
    let mut conflict: bool = false;
    let ghost start = Registration { metrics: registry@, conflict: false };
    let ghost topics = config.topics@;
    let ghost groups = config.consumer_groups@;
    let mut i: usize = 0;
    while i < config.topics.len()
        invariant
            i <= config.topics.len(),
            registry.wf(),
            topics == config.topics@,
            groups == config.consumer_groups@,
            (Registration { metrics: registry@, conflict }) == declare_topics(
                start,
                topics.take(i as int),
                groups,
            ),
        decreases config.topics.len() - i,
    {
        let topic = config.topics[i].as_str();
        proof {
            assert(topics.take(i + 1).drop_last() =~= topics.take(i as int));
            assert(topics.take(i + 1).last() == topics[i as int]);
        }
        let counter = messages_counter(topic);
        match registry.get_or_create(&counter, MetricKind::Counter) {
            Ok(_) => {},
            Err(_) => {
                conflict = true;
            },
        }
        let ghost base = Registration { metrics: registry@, conflict };
        let mut j: usize = 0;
        while j < config.consumer_groups.len()
            invariant
                j <= config.consumer_groups.len(),
                registry.wf(),
                groups == config.consumer_groups@,
                topic@ == topics[i as int]@,
                i < config.topics.len(),
                topics == config.topics@,
                (Registration { metrics: registry@, conflict }) == declare_lags(
                    base,
                    encode_utf8(topic@),
                    groups.take(j as int),
                ),
            decreases config.consumer_groups.len() - j,
        {
            let group = config.consumer_groups[j].as_str();
            proof {
                assert(groups.take(j + 1).drop_last() =~= groups.take(j as int));
                assert(groups.take(j + 1).last() == groups[j as int]);
            }
            let gauge = lag_gauge(topic, group);
            match registry.get_or_create(&gauge, MetricKind::Gauge) {
                Ok(_) => {},
                Err(_) => {
                    conflict = true;
                },
            }
            j += 1;
        }
        proof {
            assert(groups.take(config.consumer_groups.len() as int) =~= groups);
        }
        i += 1;
    }
    proof {
        assert(topics.take(config.topics.len() as int) =~= topics);
    }
    if conflict {
        Err(RegistryError::KindMismatch)
    } else {
        Ok(())
    }
}

/// What registering the broker metrics in a registry of contents `s`
/// returns: `KindMismatch` where one of their identities is registered in
/// `s` with another kind, success otherwise.
pub open spec fn registration_result(s: Seq<MetricView>, topics: Seq<String>, groups: Seq<String>)
    -> Result<(), RegistryError> {
    if declare_topics(Registration { metrics: s, conflict: false }, topics, groups).conflict {
        Err(RegistryError::KindMismatch)
    } else {
        Ok(())
    }
}

/// The registry after registering the broker metrics in a registry of
/// contents `s`.
pub open spec fn registration_state(s: Seq<MetricView>, topics: Seq<String>, groups: Seq<String>)
    -> Seq<MetricView> {
    declare_topics(Registration { metrics: s, conflict: false }, topics, groups).metrics
}

/// Registering lag gauges removes no entry, changes no kind and lowers no
/// counter.
proof fn lemma_declare_lags_keeps_entries(r: Registration, topic: Seq<u8>, groups: Seq<String>)
    requires
        distinct_identities(r.metrics),
    ensures
        keeps_entries(r.metrics, declare_lags(r, topic, groups).metrics),
        distinct_identities(declare_lags(r, topic, groups).metrics),
    decreases groups.len(),
{
    if groups.len() > 0 {
        lemma_declare_lags_keeps_entries(r, topic, groups.drop_last());
        let before = declare_lags(r, topic, groups.drop_last());
        let id = lag_identity(topic, encode_utf8(groups.last()@));
        lemma_operations_keep_entries(before.metrics, id, MetricKind::Gauge, 0);
        lemma_keeps_entries_transitive(
            r.metrics,
            before.metrics,
            declare_lags(r, topic, groups).metrics,
        );
    }
}

/// Registering the broker metrics removes no entry of the registry,
/// changes no kind and lowers no counter: what is registered already stays
/// as it is.
pub proof fn lemma_registration_keeps_entries(
    s: Seq<MetricView>,
    topics: Seq<String>,
    groups: Seq<String>,
)
    requires
        distinct_identities(s),
    ensures
        keeps_entries(s, registration_state(s, topics, groups)),
        distinct_identities(registration_state(s, topics, groups)),
    decreases topics.len(),
{
    if topics.len() > 0 {
        lemma_registration_keeps_entries(s, topics.drop_last(), groups);
        let start = Registration { metrics: s, conflict: false };
        let before = declare_topics(start, topics.drop_last(), groups);
        let topic = encode_utf8(topics.last()@);
        let counted = declare(before, messages_identity(topic), MetricKind::Counter);
        lemma_operations_keep_entries(
            before.metrics,
            messages_identity(topic),
            MetricKind::Counter,
            0,
        );
        lemma_declare_lags_keeps_entries(counted, topic, groups);
        lemma_keeps_entries_transitive(
            before.metrics,
            counted.metrics,
            declare_lags(counted, topic, groups).metrics,
        );
        lemma_keeps_entries_transitive(
            s,
            before.metrics,
            registration_state(s, topics, groups),
        );
    }
}

} // verus!
