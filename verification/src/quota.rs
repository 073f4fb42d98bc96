//! Limits on topic settings, per topic and for all topics, and the keys
//! under which client quotas are kept.

use vstd::prelude::*;
use crate::scaling::copy_string;
use crate::strmap::StringMap;
use crate::text::{append_chars, chars_of, i64_to_decimal, signed_decimal, string_from_chars};
use crate::topic_ddl::TopicConfig;

verus! {

/// What a quota limits.
#[derive(Debug, Clone, Copy, PartialEq, Eq)]
pub enum QuotaType {
    Producer,
    Consumer,
    Request,
}

/// Whom a quota applies to.
#[derive(Debug, Clone, Copy, PartialEq, Eq)]
pub enum QuotaScope {
    Cluster,
    Topic,
    User,
    ClientId,
    UserClientId,
}

/// The most a topic may ask for; `topic_name` `*` applies to every topic.
#[derive(Debug, Clone, PartialEq, Eq)]
pub struct TopicLimitConfig {
    pub topic_name: String,
    pub max_partitions: Option<i32>,
    pub max_replication_factor: Option<i16>,
    pub max_retention_ms: Option<i64>,
    pub max_retention_bytes: Option<i64>,
    pub max_message_bytes: Option<i32>,
    pub max_producer_bytes_per_sec: Option<i64>,
    pub max_consumer_bytes_per_sec: Option<i64>,
    pub max_request_rate: Option<i32>,
    pub description: Option<String>,
}

/// The two limits hold the same values.
pub open spec fn same_limit(a: TopicLimitConfig, b: TopicLimitConfig) -> bool {
    &&& a.topic_name@ == b.topic_name@
    &&& a.max_partitions == b.max_partitions
    &&& a.max_replication_factor == b.max_replication_factor
    &&& a.max_retention_ms == b.max_retention_ms
    &&& a.max_retention_bytes == b.max_retention_bytes
    &&& a.max_message_bytes == b.max_message_bytes
    &&& a.max_producer_bytes_per_sec == b.max_producer_bytes_per_sec
    &&& a.max_consumer_bytes_per_sec == b.max_consumer_bytes_per_sec
    &&& a.max_request_rate == b.max_request_rate
    &&& match (a.description, b.description) {
        (Some(x), Some(y)) => x@ == y@,
        (None, None) => true,
        _ => false,
    }
}

fn copy_limit(l: &TopicLimitConfig) -> (r: TopicLimitConfig)
    ensures
        same_limit(r, *l),
{
    TopicLimitConfig {
        topic_name: copy_string(&l.topic_name),
        max_partitions: l.max_partitions,
        max_replication_factor: l.max_replication_factor,
        max_retention_ms: l.max_retention_ms,
        max_retention_bytes: l.max_retention_bytes,
        max_message_bytes: l.max_message_bytes,
        max_producer_bytes_per_sec: l.max_producer_bytes_per_sec,
        max_consumer_bytes_per_sec: l.max_consumer_bytes_per_sec,
        max_request_rate: l.max_request_rate,
        description: match &l.description {
            Some(d) => Some(copy_string(d)),
            None => None,
        },
    }
}

/// `what exceeds limit: value > max`.
pub open spec fn exceeds(what: Seq<char>, value: int, max: int) -> Seq<char> {
    what + " exceeds limit: "@ + signed_decimal(value) + " > "@ + signed_decimal(max)
}

/// The first setting of `c` that goes beyond `l`, as its message: the
/// partitions, the replicas, then (where the topic sets them) retention
/// time, retention size and message size.
pub open spec fn limit_violation(c: TopicConfig, l: TopicLimitConfig) -> Option<Seq<char>> {
    if l.max_partitions is Some && c.partitions > l.max_partitions->0 {
        Some(exceeds("Topic partition count"@, c.partitions as int, l.max_partitions->0 as int))
    } else if l.max_replication_factor is Some && c.replication_factor > l.max_replication_factor->0 {
        Some(exceeds("Topic replication factor"@, c.replication_factor as int, l.max_replication_factor->0 as int))
    } else if l.max_retention_ms is Some && c.retention_ms is Some && c.retention_ms->0 > l.max_retention_ms->0 {
        Some(exceeds("Topic retention time"@, c.retention_ms->0 as int, l.max_retention_ms->0 as int))
    } else if l.max_retention_bytes is Some && c.retention_bytes is Some && c.retention_bytes->0 > l.max_retention_bytes->0 {
        Some(exceeds("Topic retention size"@, c.retention_bytes->0 as int, l.max_retention_bytes->0 as int))
    } else if l.max_message_bytes is Some && c.max_message_bytes is Some && c.max_message_bytes->0 > l.max_message_bytes->0 {
        Some(exceeds("Topic message size"@, c.max_message_bytes->0 as int, l.max_message_bytes->0 as int))
    } else {
        None
    }
}

fn exceeds_message(what: &str, value: i64, max: i64) -> (m: String)
    ensures
        m@ == exceeds(what@, value as int, max as int),
{
    let mut cs = chars_of(what);
    append_chars(&mut cs, " exceeds limit: ");
    append_chars(&mut cs, i64_to_decimal(value).as_str());
    append_chars(&mut cs, " > ");
    append_chars(&mut cs, i64_to_decimal(max).as_str());
    string_from_chars(&cs)
}

/// `prefix` followed by `rest`.
fn joined(prefix: &str, rest: &str) -> (s: String)
    ensures
        s@ == prefix@ + rest@,
{
    let mut cs = chars_of(prefix);
    append_chars(&mut cs, rest);
    string_from_chars(&cs)
}

/// The key of a quota: its type, its scope and the name it applies to
/// (`*` for none), joined by colons.
pub open spec fn quota_key(t: QuotaType, s: QuotaScope, name: Option<Seq<char>>) -> Seq<char> {
    let ts = match t {
        QuotaType::Producer => "producer"@,
        QuotaType::Consumer => "consumer"@,
        QuotaType::Request => "request"@,
    };
    let ss = match s {
        QuotaScope::Cluster => "cluster"@,
        QuotaScope::Topic => "topic"@,
        QuotaScope::User => "user"@,
        QuotaScope::ClientId => "client_id"@,
        QuotaScope::UserClientId => "user_client_id"@,
    };
    let ns = match name {
        Some(n) => n,
        None => "*"@,
    };
    ts + ":"@ + ss + ":"@ + ns
}

/// The limits on topics of a cluster.
pub struct TopicQuotaManager {
    server: String,
    topic_limits: StringMap<TopicLimitConfig>,
    update_interval: u64,
}

impl TopicQuotaManager {
    /// The limits, by topic name.
    pub closed spec fn limits(&self) -> Map<Seq<char>, TopicLimitConfig> {
        self.topic_limits.view()
    }

    pub closed spec fn interval(&self) -> u64 {
        self.update_interval
    }

    pub closed spec fn wf(&self) -> bool {
        &&& self.topic_limits.wf()
        &&& forall|k: Seq<char>| #[trigger] self.topic_limits.view().contains_key(k)
            ==> self.topic_limits.view()[k].topic_name@ == k
    }

    /// No limits; usage is refreshed every `update_interval` seconds, 60
    /// when none is given.
    pub fn new(server: &str, update_interval: Option<u64>) -> (m: Self)
        ensures
            m.wf(),
            m.limits() == Map::<Seq<char>, TopicLimitConfig>::empty(),
            m.interval() == match update_interval {
                Some(i) => i,
                None => 60,
            },
    {
        TopicQuotaManager {
            server: server.to_owned(),
            topic_limits: StringMap::new(),
            update_interval: match update_interval {
                Some(i) => i,
                None => 60,
            },
        }
    }

    /// Adds the limit of a topic that has none.
    pub fn create_topic_limit(&mut self, config: &TopicLimitConfig) -> (r: Result<TopicLimitConfig, String>)
        requires
            old(self).wf(),
        ensures
            final(self).wf(),
            old(self).limits().contains_key(config.topic_name@) ==> final(self).limits() == old(self).limits()
                && (r matches Err(e) && e@ == "Topic limit already exists: "@ + config.topic_name@),
            !old(self).limits().contains_key(config.topic_name@) ==> {
                &&& r matches Ok(c) && same_limit(c, *config)
                &&& final(self).limits().dom() == old(self).limits().dom().insert(config.topic_name@)
                &&& same_limit(final(self).limits()[config.topic_name@], *config)
                &&& forall|k: Seq<char>| k != config.topic_name@ && #[trigger] old(self).limits().contains_key(k)
                    ==> final(self).limits()[k] == old(self).limits()[k]
            },
    {
        if self.topic_limits.contains_key(config.topic_name.as_str()) {
            return Err(joined("Topic limit already exists: ", config.topic_name.as_str()));
        }
        self.topic_limits.insert(copy_string(&config.topic_name), copy_limit(config));
        Ok(copy_limit(config))
    }

    /// Replaces the limit of a topic that has one.
    pub fn update_topic_limit(&mut self, config: &TopicLimitConfig) -> (r: Result<TopicLimitConfig, String>)
        requires
            old(self).wf(),
        ensures
            final(self).wf(),
            !old(self).limits().contains_key(config.topic_name@) ==> final(self).limits() == old(self).limits()
                && (r matches Err(e) && e@ == "Topic limit does not exist: "@ + config.topic_name@),
            old(self).limits().contains_key(config.topic_name@) ==> {
                &&& r matches Ok(c) && same_limit(c, *config)
                &&& final(self).limits().dom() == old(self).limits().dom()
                &&& same_limit(final(self).limits()[config.topic_name@], *config)
                &&& forall|k: Seq<char>| k != config.topic_name@ && #[trigger] old(self).limits().contains_key(k)
                    ==> final(self).limits()[k] == old(self).limits()[k]
            },
    {
        if !self.topic_limits.contains_key(config.topic_name.as_str()) {
            return Err(joined("Topic limit does not exist: ", config.topic_name.as_str()));
        }
        self.topic_limits.insert(copy_string(&config.topic_name), copy_limit(config));
        proof {
            assert(self.topic_limits.view().dom() =~= old(self).topic_limits.view().dom());
        }
        Ok(copy_limit(config))
    }

    /// Removes the limit of a topic that has one.
    pub fn delete_topic_limit(&mut self, topic_name: &str) -> (r: Result<(), String>)
        requires
            old(self).wf(),
        ensures
            final(self).wf(),
            !old(self).limits().contains_key(topic_name@) ==> final(self).limits() == old(self).limits()
                && (r matches Err(e) && e@ == "Topic limit does not exist: "@ + topic_name@),
            old(self).limits().contains_key(topic_name@) ==> r is Ok
                && final(self).limits() == old(self).limits().remove(topic_name@),
    {
        if !self.topic_limits.contains_key(topic_name) {
            return Err(joined("Topic limit does not exist: ", topic_name));
        }
        self.topic_limits.remove(topic_name);
        Ok(())
    }

    /// The limit of a topic, copied.
    pub fn get_topic_limit(&self, topic_name: &str) -> (r: Option<TopicLimitConfig>)
        requires
            self.wf(),
        ensures
            match r {
                Some(l) => self.limits().contains_key(topic_name@) && same_limit(l, self.limits()[topic_name@]),
                None => !self.limits().contains_key(topic_name@),
            },
    {
        match self.topic_limits.get(topic_name) {
            Some(l) => Some(copy_limit(l)),
            None => None,
        }
    }

    /// Copies of all the limits, one per topic.
    pub fn get_topic_limits(&self) -> (r: Vec<TopicLimitConfig>)
        requires
            self.wf(),
        ensures
            r@.len() == self.limits().len(),
            forall|i: int| 0 <= i < r@.len() ==> self.limits().contains_key((#[trigger] r@[i]).topic_name@)
                && same_limit(r@[i], self.limits()[r@[i].topic_name@]),
            forall|i: int, j: int| 0 <= i < j < r@.len() ==> (#[trigger] r@[i]).topic_name@ != (#[trigger] r@[j]).topic_name@,
    {
        let n = self.topic_limits.len();
        let mut r: Vec<TopicLimitConfig> = Vec::new();
        let mut i: usize = 0;
        while i < n
            invariant
                0 <= i <= n,
                n == self.topic_limits.key_seq().len(),
                n == self.limits().len(),
                self.wf(),
                r@.len() == i,
                forall|j: int| 0 <= j < i ==> (#[trigger] r@[j]).topic_name@ == self.topic_limits.key_seq()[j],
                forall|j: int| 0 <= j < i ==> self.limits().contains_key((#[trigger] r@[j]).topic_name@)
                    && same_limit(r@[j], self.limits()[r@[j].topic_name@]),
            decreases n - i,
        {
            let (_key, value) = self.topic_limits.entry_at(i);
            r.push(copy_limit(value));
            i = i + 1;
        }
        proof {
            self.topic_limits.lemma_keys_distinct();
        }
        r
    }

    /// Checks a topic's settings against one limit.
    pub fn check_topic_limit(&self, config: &TopicConfig, limit: &TopicLimitConfig) -> (r: Result<(), String>)
        ensures
            match limit_violation(*config, *limit) {
                Some(m) => r matches Err(e) && e@ == m,
                None => r is Ok,
            },
    {
        match limit.max_partitions {
            Some(max) => {
                if config.partitions > max {
                    return Err(exceeds_message("Topic partition count", config.partitions as i64, max as i64));
                }
            },
            None => {},
        }
        match limit.max_replication_factor {
            Some(max) => {
                if config.replication_factor > max {
                    return Err(exceeds_message("Topic replication factor", config.replication_factor as i64, max as i64));
                }
            },
            None => {},
        }
        match (limit.max_retention_ms, config.retention_ms) {
            (Some(max), Some(v)) => {
                if v > max {
                    return Err(exceeds_message("Topic retention time", v, max));
                }
            },
            _ => {},
        }
        match (limit.max_retention_bytes, config.retention_bytes) {
            (Some(max), Some(v)) => {
                if v > max {
                    return Err(exceeds_message("Topic retention size", v, max));
                }
            },
            _ => {},
        }
        match (limit.max_message_bytes, config.max_message_bytes) {
            (Some(max), Some(v)) => {
                if v > max {
                    return Err(exceeds_message("Topic message size", v as i64, max as i64));
                }
            },
            _ => {},
        }
        Ok(())
    }

    /// Checks a topic's settings against the limit for every topic (`*`),
    /// then against its own limit.
    pub fn validate_topic_config(&self, config: &TopicConfig) -> (r: Result<(), String>)
        requires
            self.wf(),
        ensures
            match (if self.limits().contains_key("*"@) { limit_violation(*config, self.limits()["*"@]) } else { None }) {
                Some(m) => r matches Err(e) && e@ == m,
                None => match (if self.limits().contains_key(config.name@) { limit_violation(*config, self.limits()[config.name@]) } else { None }) {
                    Some(m) => r matches Err(e) && e@ == m,
                    None => r is Ok,
                },
            },
    {
        match self.topic_limits.get("*") {
            Some(global) => {
                match self.check_topic_limit(config, global) {
                    Ok(()) => {},
                    Err(e) => {
                        return Err(e);
                    },
                }
            },
            None => {},
        }
        match self.topic_limits.get(config.name.as_str()) {
            Some(own) => self.check_topic_limit(config, own),
            None => Ok(()),
        }
    }

    /// The key of a quota.
    pub fn build_quota_key(&self, quota_type: &QuotaType, scope: &QuotaScope, name: &Option<String>) -> (k: String)
        ensures
            k@ == quota_key(*quota_type, *scope, match name {
                Some(n) => Some(n@),
                None => None,
            }),
    {
        let type_str = match quota_type {
            QuotaType::Producer => "producer",
            QuotaType::Consumer => "consumer",
            QuotaType::Request => "request",
        };
        let scope_str = match scope {
            QuotaScope::Cluster => "cluster",
            QuotaScope::Topic => "topic",
            QuotaScope::User => "user",
            QuotaScope::ClientId => "client_id",
            QuotaScope::UserClientId => "user_client_id",
        };
        let mut cs = chars_of(type_str);
        append_chars(&mut cs, ":");
        append_chars(&mut cs, scope_str);
        append_chars(&mut cs, ":");
        match name {
            Some(n) => append_chars(&mut cs, n.as_str()),
            None => append_chars(&mut cs, "*"),
        }
        string_from_chars(&cs)
    }
}

/// Creating the limit of a topic that had none and then deleting it leaves
/// the limits as they were.
pub proof fn lemma_create_then_delete_restores(
    before: Map<Seq<char>, TopicLimitConfig>,
    created: Map<Seq<char>, TopicLimitConfig>,
    name: Seq<char>,
)
    requires
        !before.contains_key(name),
        created.dom() == before.dom().insert(name),
        forall|k: Seq<char>| k != name && #[trigger] before.contains_key(k) ==> created[k] == before[k],
    ensures
        created.remove(name) == before,
{
    assert(created.remove(name) =~= before);
}

} // verus!
