//! How healthy a topic is, judged from the leaders and the in-sync
//! replicas of its partitions, with recent judgements kept for a while.

use vstd::prelude::*;
use crate::scaling::copy_string;
use crate::strmap::StringMap;
use crate::text::{
    append_chars, chars_of, decimal, i64_to_decimal, signed_decimal, string_from_chars, texts, u64_to_decimal,
};

verus! {

/// How healthy a topic is as a whole.
#[derive(Debug, Clone, Copy, PartialEq, Eq, Structural)]
pub enum TopicHealthStatus {
    Healthy,
    Degraded,
    Unhealthy,
}

/// How healthy one partition is.
#[derive(Debug, Clone, Copy, PartialEq, Eq, Structural)]
pub enum TopicPartitionStatus {
    Healthy,
    Degraded,
    Unhealthy,
}

/// What the cluster reports of a partition: its leader (`-1` when it has
/// none), its replicas and the replicas in sync.
#[derive(Debug, Clone)]
pub struct PartitionMetadata {
    pub id: i32,
    pub leader: i32,
    pub replicas: Vec<i32>,
    pub isr: Vec<i32>,
}

/// What the cluster reports of a topic.
#[derive(Debug, Clone)]
pub struct TopicMetadata {
    pub name: String,
    pub partitions: Vec<PartitionMetadata>,
}

/// The health of one partition.
#[derive(Debug, Clone)]
pub struct TopicPartitionHealth {
    pub partition_id: i32,
    pub status: TopicPartitionStatus,
    pub leader_id: i32,
    pub replica_count: i32,
    pub isr_count: i32,
    pub issues: Vec<String>,
}

/// The health of a topic, as judged at `checked_at` (seconds since the
/// Unix epoch).
#[derive(Debug, Clone)]
pub struct TopicHealth {
    pub topic_name: String,
    pub status: TopicHealthStatus,
    pub partition_count: i32,
    pub partitions: Vec<TopicPartitionHealth>,
    pub issues: Vec<String>,
    pub checked_at: u64,
}

/// A partition's health as plain values: id, status, leader, replica
/// count, in-sync count, issues.
pub open spec fn partition_view(h: TopicPartitionHealth) -> (i32, TopicPartitionStatus, i32, i32, i32, Seq<Seq<char>>) {
    (h.partition_id, h.status, h.leader_id, h.replica_count, h.isr_count, texts(h.issues@))
}

/// A topic's health as plain values: name, status, partition count,
/// partitions, issues, time of the check.
pub open spec fn health_view(h: TopicHealth) -> (
    Seq<char>,
    TopicHealthStatus,
    i32,
    Seq<(i32, TopicPartitionStatus, i32, i32, i32, Seq<Seq<char>>)>,
    Seq<Seq<char>>,
    u64,
) {
    (
        h.topic_name@,
        h.status,
        h.partition_count,
        h.partitions@.map_values(|p: TopicPartitionHealth| partition_view(p)),
        texts(h.issues@),
        h.checked_at,
    )
}

pub open spec fn leaderless(p: PartitionMetadata) -> bool {
    p.leader == -1
}

pub open spec fn out_of_sync(p: PartitionMetadata) -> bool {
    p.isr@.len() < p.replicas@.len()
}

pub open spec fn no_leader_issue(id: i32) -> Seq<char> {
    "Partition "@ + signed_decimal(id as int) + " has no leader"@
}

pub open spec fn out_of_sync_issue(id: i32, in_sync: nat, replicas: nat) -> Seq<char> {
    "Partition "@ + signed_decimal(id as int) + " has "@ + decimal(in_sync) + " out of "@ + decimal(replicas)
        + " replicas in sync"@
}

/// What is wrong with a partition: first a missing leader, then replicas
/// out of sync.
pub open spec fn partition_issues(p: PartitionMetadata) -> Seq<Seq<char>> {
    (if leaderless(p) { seq![no_leader_issue(p.id)] } else { Seq::empty() }) + (if out_of_sync(p) {
        seq![out_of_sync_issue(p.id, p.isr@.len(), p.replicas@.len())]
    } else {
        Seq::empty()
    })
}

/// A partition with replicas out of sync is degraded, else one without a
/// leader is unhealthy.
pub open spec fn partition_status(p: PartitionMetadata) -> TopicPartitionStatus {
    if out_of_sync(p) {
        TopicPartitionStatus::Degraded
    } else if leaderless(p) {
        TopicPartitionStatus::Unhealthy
    } else {
        TopicPartitionStatus::Healthy
    }
}

pub open spec fn partition_report(p: PartitionMetadata) -> (i32, TopicPartitionStatus, i32, i32, i32, Seq<Seq<char>>) {
    (p.id, partition_status(p), p.leader, p.replicas@.len() as i32, p.isr@.len() as i32, partition_issues(p))
}

/// The issues of all partitions, partition by partition.
pub open spec fn all_issues(ps: Seq<PartitionMetadata>) -> Seq<Seq<char>>
    decreases ps.len(),
{
    if ps.len() == 0 {
        Seq::empty()
    } else {
        all_issues(ps.drop_last()) + partition_issues(ps.last())
    }
}

/// A topic with a partition without a leader is unhealthy; else one with a
/// partition whose replicas are out of sync is degraded.
pub open spec fn topic_status(ps: Seq<PartitionMetadata>) -> TopicHealthStatus {
    if exists|i: int| 0 <= i < ps.len() && #[trigger] leaderless(ps[i]) {
        TopicHealthStatus::Unhealthy
    } else if exists|i: int| 0 <= i < ps.len() && #[trigger] out_of_sync(ps[i]) {
        TopicHealthStatus::Degraded
    } else {
        TopicHealthStatus::Healthy
    }
}

/// The health of topic `name` with partitions `ps`, checked at `at`.
pub open spec fn health_of(name: Seq<char>, ps: Seq<PartitionMetadata>, at: u64) -> (
    Seq<char>,
    TopicHealthStatus,
    i32,
    Seq<(i32, TopicPartitionStatus, i32, i32, i32, Seq<Seq<char>>)>,
    Seq<Seq<char>>,
    u64,
) {
    (name, topic_status(ps), ps.len() as i32, ps.map_values(|p: PartitionMetadata| partition_report(p)), all_issues(ps), at)
}

/// Why the metadata fetched for topic `name` says nothing of it: no topic
/// came back, or another one did.
pub open spec fn metadata_error(name: Seq<char>, topics: Seq<TopicMetadata>) -> Option<Seq<char>> {
    if topics.len() == 0 {
        Some("Topic not found in metadata"@)
    } else if topics[0].name@ != name {
        Some("Topic '"@ + name + "' does not exist"@)
    } else {
        None
    }
}

fn no_leader_message(id: i32) -> (m: String)
    ensures
        m@ == no_leader_issue(id),
{
    let mut cs = chars_of("Partition ");
    append_chars(&mut cs, i64_to_decimal(id as i64).as_str());
    append_chars(&mut cs, " has no leader");
    string_from_chars(&cs)
}

fn out_of_sync_message(id: i32, in_sync: usize, replicas: usize) -> (m: String)
    ensures
        m@ == out_of_sync_issue(id, in_sync as nat, replicas as nat),
{
    let mut cs = chars_of("Partition ");
    append_chars(&mut cs, i64_to_decimal(id as i64).as_str());
    append_chars(&mut cs, " has ");
    append_chars(&mut cs, u64_to_decimal(in_sync as u64).as_str());
    append_chars(&mut cs, " out of ");
    append_chars(&mut cs, u64_to_decimal(replicas as u64).as_str());
    append_chars(&mut cs, " replicas in sync");
    string_from_chars(&cs)
}

/// The health of one partition.
fn partition_health(p: &PartitionMetadata) -> (h: TopicPartitionHealth)
    ensures
        partition_view(h) == partition_report(*p),
{
    let mut status = TopicPartitionStatus::Healthy;
    let mut issues: Vec<String> = Vec::new();
    if p.leader == -1 {
        status = TopicPartitionStatus::Unhealthy;
        issues.push(no_leader_message(p.id));
    }
    let ghost after_leader = issues@;
    if p.isr.len() < p.replicas.len() {
        status = TopicPartitionStatus::Degraded;
        issues.push(out_of_sync_message(p.id, p.isr.len(), p.replicas.len()));
    }
    proof {
        assert(texts(after_leader) =~= (if leaderless(*p) { seq![no_leader_issue(p.id)] } else { Seq::empty() }));
        assert(texts(issues@) =~= partition_issues(*p));
    }
    TopicPartitionHealth {
        partition_id: p.id,
        status,
        leader_id: p.leader,
        replica_count: p.replicas.len() as i32,
        isr_count: p.isr.len() as i32,
        issues,
    }
}

/// How the overall status moves when one more partition is looked at.
pub open spec fn status_step(s: TopicHealthStatus, p: PartitionMetadata) -> TopicHealthStatus {
    let s1 = if leaderless(p) { TopicHealthStatus::Unhealthy } else { s };
    if out_of_sync(p) && s1 != TopicHealthStatus::Unhealthy {
        TopicHealthStatus::Degraded
    } else {
        s1
    }
}

proof fn lemma_status_step(ps: Seq<PartitionMetadata>, i: int)
    requires
        0 <= i < ps.len(),
    ensures
        topic_status(ps.subrange(0, i + 1)) == status_step(topic_status(ps.subrange(0, i)), ps[i]),
{
    let a = ps.subrange(0, i);
    let b = ps.subrange(0, i + 1);
    assert forall|j: int| 0 <= j < i implies b[j] == a[j] by {}
    assert(b[i] == ps[i]);
    if exists|j: int| 0 <= j < a.len() && #[trigger] leaderless(a[j]) {
        let j = choose|j: int| 0 <= j < a.len() && #[trigger] leaderless(a[j]);
        assert(leaderless(b[j]));
    }
    if exists|j: int| 0 <= j < a.len() && #[trigger] out_of_sync(a[j]) {
        let j = choose|j: int| 0 <= j < a.len() && #[trigger] out_of_sync(a[j]);
        assert(out_of_sync(b[j]));
    }
    if leaderless(ps[i]) {
        assert(leaderless(b[i]));
    }
    if out_of_sync(ps[i]) {
        assert(out_of_sync(b[i]));
    }
    if exists|j: int| 0 <= j < b.len() && #[trigger] leaderless(b[j]) {
        let j = choose|j: int| 0 <= j < b.len() && #[trigger] leaderless(b[j]);
        if j < i {
            assert(leaderless(a[j]));
        }
    }
    if exists|j: int| 0 <= j < b.len() && #[trigger] out_of_sync(b[j]) {
        let j = choose|j: int| 0 <= j < b.len() && #[trigger] out_of_sync(b[j]);
        if j < i {
            assert(out_of_sync(a[j]));
        }
    }
}

/// The health of topic `topic_name`, from the metadata fetched for it and
/// the time of the check.
pub fn evaluate_topic_health(topic_name: &str, topics: &Vec<TopicMetadata>, checked_at: u64) -> (r: Result<TopicHealth, String>)
    ensures
        match metadata_error(topic_name@, topics@) {
            Some(m) => r matches Err(e) && e@ == m,
            None => r matches Ok(h) && health_view(h) == health_of(topic_name@, topics@[0].partitions@, checked_at),
        },
{
    if topics.len() == 0 {
        return Err(string_from_chars(&chars_of("Topic not found in metadata")));
    }
    let topic = &topics[0];
    if !crate::strmap::str_eq(topic.name.as_str(), topic_name) {
        let mut cs = chars_of("Topic '");
        append_chars(&mut cs, topic_name);
        append_chars(&mut cs, "' does not exist");
        return Err(string_from_chars(&cs));
    }
    let ps = &topic.partitions;
    let n = ps.len();
    let mut partitions: Vec<TopicPartitionHealth> = Vec::new();
    let mut issues: Vec<String> = Vec::new();
    let mut overall = TopicHealthStatus::Healthy;
    let mut i: usize = 0;
    proof {
        assert(ps@.subrange(0, 0) =~= Seq::<PartitionMetadata>::empty());
        assert(texts(issues@) =~= Seq::<Seq<char>>::empty());
    }
    while i < n
        invariant
            n == ps@.len(),
            0 <= i <= n,
            partitions@.len() == i,
            forall|j: int| 0 <= j < i ==> partition_view(#[trigger] partitions@[j]) == partition_report(ps@[j]),
            texts(issues@) == all_issues(ps@.subrange(0, i as int)),
            overall == topic_status(ps@.subrange(0, i as int)),
        decreases n - i,
    {
        let p = &ps[i];
        let h = partition_health(p);
        proof {
            lemma_status_step(ps@, i as int);
        }
        if p.leader == -1 {
            overall = TopicHealthStatus::Unhealthy;
        }
        if p.isr.len() < p.replicas.len() && overall != TopicHealthStatus::Unhealthy {
            overall = TopicHealthStatus::Degraded;
        }
        let ghost before = issues@;
        let mut k: usize = 0;
        while k < h.issues.len()
            invariant
                0 <= k <= h.issues@.len(),
                texts(issues@) == texts(before) + texts(h.issues@).subrange(0, k as int),
            decreases h.issues.len() - k,
        {
            let ghost prev = issues@;
            let text = copy_string(&h.issues[k]);
            issues.push(text);
            proof {
                assert(texts(issues@) =~= texts(prev).push(h.issues@[k as int]@));
                assert(texts(h.issues@).subrange(0, k + 1) =~= texts(h.issues@).subrange(0, k as int).push(
                    h.issues@[k as int]@,
                ));
                assert(texts(issues@) =~= texts(before) + texts(h.issues@).subrange(0, k + 1));
            }
            k = k + 1;
        }
        proof {
            assert(texts(h.issues@).subrange(0, h.issues@.len() as int) =~= texts(h.issues@));
            assert(ps@.subrange(0, i + 1).drop_last() =~= ps@.subrange(0, i as int));
            assert(ps@.subrange(0, i + 1).last() == ps@[i as int]);
        }
        partitions.push(h);
        i = i + 1;
    }
    proof {
        assert(ps@.subrange(0, n as int) =~= ps@);
        assert(partitions@.map_values(|p: TopicPartitionHealth| partition_view(p))
            =~= ps@.map_values(|p: PartitionMetadata| partition_report(p)));
    }
    Ok(TopicHealth {
        topic_name: string_from_chars(&chars_of(topic_name)),
        status: overall,
        partition_count: partitions.len() as i32,
        partitions,
        issues,
        checked_at,
    })
}

/// A copy of a list of strings.
fn copy_texts(v: &Vec<String>) -> (r: Vec<String>)
    ensures
        texts(r@) == texts(v@),
{
    let mut r: Vec<String> = Vec::new();
    let mut i: usize = 0;
    while i < v.len()
        invariant
            0 <= i <= v@.len(),
            texts(r@) == texts(v@).subrange(0, i as int),
        decreases v.len() - i,
    {
        let ghost prev = r@;
        r.push(copy_string(&v[i]));
        proof {
            assert(texts(r@) =~= texts(prev).push(v@[i as int]@));
            assert(texts(v@).subrange(0, i + 1) =~= texts(v@).subrange(0, i as int).push(v@[i as int]@));
        }
        i = i + 1;
    }
    proof {
        assert(texts(v@).subrange(0, v@.len() as int) =~= texts(v@));
    }
    r
}

fn copy_partition_health(h: &TopicPartitionHealth) -> (r: TopicPartitionHealth)
    ensures
        partition_view(r) == partition_view(*h),
{
    TopicPartitionHealth {
        partition_id: h.partition_id,
        status: h.status,
        leader_id: h.leader_id,
        replica_count: h.replica_count,
        isr_count: h.isr_count,
        issues: copy_texts(&h.issues),
    }
}

fn copy_health(h: &TopicHealth) -> (r: TopicHealth)
    ensures
        health_view(r) == health_view(*h),
{
    let mut partitions: Vec<TopicPartitionHealth> = Vec::new();
    let mut i: usize = 0;
    while i < h.partitions.len()
        invariant
            0 <= i <= h.partitions@.len(),
            partitions@.len() == i,
            forall|j: int| 0 <= j < i ==> partition_view(#[trigger] partitions@[j]) == partition_view(h.partitions@[j]),
        decreases h.partitions.len() - i,
    {
        partitions.push(copy_partition_health(&h.partitions[i]));
        i = i + 1;
    }
    proof {
        assert(partitions@.map_values(|p: TopicPartitionHealth| partition_view(p))
            =~= h.partitions@.map_values(|p: TopicPartitionHealth| partition_view(p)));
    }
    TopicHealth {
        topic_name: copy_string(&h.topic_name),
        status: h.status,
        partition_count: h.partition_count,
        partitions,
        issues: copy_texts(&h.issues),
        checked_at: h.checked_at,
    }
}

/// The report on a topic whose health could not be checked.
pub open spec fn failure_report(name: Seq<char>, error: Seq<char>, at: u64) -> (
    Seq<char>,
    TopicHealthStatus,
    i32,
    Seq<(i32, TopicPartitionStatus, i32, i32, i32, Seq<Seq<char>>)>,
    Seq<Seq<char>>,
    u64,
) {
    (name, TopicHealthStatus::Unhealthy, 0, Seq::empty(), seq!["Failed to check health: "@ + error], at)
}

/// A topic's health as plain values.
pub type HealthView = (
    Seq<char>,
    TopicHealthStatus,
    i32,
    Seq<(i32, TopicPartitionStatus, i32, i32, i32, Seq<Seq<char>>)>,
    Seq<Seq<char>>,
    u64,
);

/// How old a judgement checked at `at` is at `now`, in seconds; none when
/// it seems to come from the future.
pub open spec fn age(now: u64, at: u64) -> int {
    if now >= at {
        now - at
    } else {
        0
    }
}

/// Whether a check of `name` at `now` takes the judgement kept for it: one
/// is kept, it is younger than `ttl`, and no refresh is forced.
pub open spec fn takes_cached(cache: Map<Seq<char>, HealthView>, name: Seq<char>, force_refresh: bool, now: u64, ttl: u64) -> bool {
    !force_refresh && cache.contains_key(name) && age(now, cache[name].5) < ttl
}

/// What one check of `name` at `now` gives, and the judgements kept
/// after it: the kept judgement when it is taken; else the error of the
/// fetch, the error of the metadata, or the topic's health judged at
/// `now`, which is then kept.
pub open spec fn single_check(
    cache: Map<Seq<char>, HealthView>,
    name: Seq<char>,
    force_refresh: bool,
    now: u64,
    ttl: u64,
    fetched: Result<Vec<TopicMetadata>, String>,
) -> (Result<HealthView, Seq<char>>, Map<Seq<char>, HealthView>) {
    if takes_cached(cache, name, force_refresh, now, ttl) {
        (Ok(cache[name]), cache)
    } else {
        match fetched {
            Err(e) => (Err(e@), cache),
            Ok(topics) => match metadata_error(name, topics@) {
                Some(m) => (Err(m), cache),
                None => {
                    let h = health_of(name, topics@[0].partitions@, now);
                    (Ok(h), cache.insert(name, h))
                },
            },
        }
    }
}

/// The report on a check: its judgement, or an unhealthy report that says
/// why the check failed.
pub open spec fn as_report(name: Seq<char>, r: Result<HealthView, Seq<char>>, now: u64) -> HealthView {
    match r {
        Ok(h) => h,
        Err(e) => failure_report(name, e, now),
    }
}

/// The reports on checks of `names` in order, `fetched[i]` being what
/// fetching the metadata of `names[i]` gave, and the judgements kept after
/// them.
pub open spec fn many_checks(
    cache: Map<Seq<char>, HealthView>,
    names: Seq<Seq<char>>,
    force_refresh: bool,
    now: u64,
    ttl: u64,
    fetched: Seq<Result<Vec<TopicMetadata>, String>>,
) -> (Seq<HealthView>, Map<Seq<char>, HealthView>)
    decreases names.len(),
{
    if names.len() == 0 {
        (Seq::empty(), cache)
    } else {
        let n = names.len() - 1;
        let (reports, c1) = many_checks(cache, names.drop_last(), force_refresh, now, ttl, fetched.subrange(0, n));
        let (r, c2) = single_check(c1, names[n], force_refresh, now, ttl, fetched[n]);
        (reports.push(as_report(names[n], r, now)), c2)
    }
}

pub open spec fn result_view(r: Result<TopicHealth, String>) -> Result<HealthView, Seq<char>> {
    match r {
        Ok(h) => Ok(health_view(h)),
        Err(e) => Err(e@),
    }
}

/// Whether the name of a topic marks it as internal to the cluster.
pub open spec fn is_internal_topic(name: Seq<char>) -> bool {
    name.len() >= 2 && name[0] == '_' && name[1] == '_'
}

/// The names of the topics that are not internal, in order.
pub open spec fn user_topics(topics: Seq<TopicMetadata>) -> Seq<Seq<char>>
    decreases topics.len(),
{
    if topics.len() == 0 {
        Seq::empty()
    } else if is_internal_topic(topics.last().name@) {
        user_topics(topics.drop_last())
    } else {
        user_topics(topics.drop_last()).push(topics.last().name@)
    }
}

/// The names of the topics of a cluster that are not internal (those
/// whose name starts with `__`), in the order given.
pub fn user_topic_names(topics: &Vec<TopicMetadata>) -> (names: Vec<String>)
    ensures
        texts(names@) == user_topics(topics@),
{
    let mut names: Vec<String> = Vec::new();
    let mut i: usize = 0;
    while i < topics.len()
        invariant
            0 <= i <= topics@.len(),
            texts(names@) == user_topics(topics@.subrange(0, i as int)),
        decreases topics.len() - i,
    {
        let name = &topics[i].name;
        let cs = chars_of(name.as_str());
        let internal = cs.len() >= 2 && cs[0] == '_' && cs[1] == '_';
        proof {
            assert(topics@.subrange(0, i + 1).drop_last() =~= topics@.subrange(0, i as int));
            assert(topics@.subrange(0, i + 1).last() == topics@[i as int]);
        }
        if !internal {
            let ghost prev = names@;
            names.push(copy_string(name));
            proof {
                assert(texts(names@) =~= texts(prev).push(name@));
            }
        }
        i = i + 1;
    }
    proof {
        assert(topics@.subrange(0, topics@.len() as int) =~= topics@);
    }
    names
}

/// Judges the health of topics and keeps each judgement for a while.
pub struct TopicHealthChecker {
    server: String,
    cache: StringMap<TopicHealth>,
    cache_ttl: u64,
}

impl TopicHealthChecker {
    /// The judgements kept, by topic name.
    pub closed spec fn cached(&self) -> Map<Seq<char>, HealthView> {
        self.cache.view().map_values(|h: TopicHealth| health_view(h))
    }

    /// How long a judgement is kept, in seconds.
    pub closed spec fn ttl(&self) -> u64 {
        self.cache_ttl
    }

    /// The map is well formed, and each judgement kept is on the topic it
    /// is kept under.
    pub closed spec fn wf(&self) -> bool {
        &&& self.cache.wf()
        &&& forall|k: Seq<char>| #[trigger] self.cached().contains_key(k) ==> self.cached()[k].0 == k
    }

    /// A checker that keeps nothing yet; judgements are kept for
    /// `cache_ttl` seconds, 60 when none is given.
    pub fn new(server: &str, cache_ttl: Option<u64>) -> (c: Self)
        ensures
            c.wf(),
            c.cached() == Map::<Seq<char>, HealthView>::empty(),
            c.ttl() == match cache_ttl {
                Some(t) => t,
                None => 60,
            },
    {
        let c = TopicHealthChecker {
            server: string_from_chars(&chars_of(server)),
            cache: StringMap::new(),
            cache_ttl: match cache_ttl {
                Some(t) => t,
                None => 60,
            },
        };
        proof {
            assert(c.cached() =~= Map::<Seq<char>, HealthView>::empty());
        }
        c
    }

    /// Whether a check of `topic_name` at `now` (seconds since the Unix
    /// epoch) takes the judgement kept for it, so that no metadata is
    /// needed.
    pub fn uses_cache(&self, topic_name: &str, force_refresh: bool, now: u64) -> (b: bool)
        requires
            self.wf(),
        ensures
            b == takes_cached(self.cached(), topic_name@, force_refresh, now, self.ttl()),
    {
        if force_refresh {
            return false;
        }
        match self.cache.get(topic_name) {
            Some(h) => {
                proof {
                    assert(self.cached()[topic_name@] == health_view(*h));
                }
                let age: u64 = if now >= h.checked_at { now - h.checked_at } else { 0 };
                age < self.cache_ttl
            },
            None => false,
        }
    }

    /// The health of topic `topic_name` checked at `now` (seconds since
    /// the Unix epoch): the judgement kept for it while it is younger than
    /// the time to keep it, unless `force_refresh`; else a fresh judgement
    /// from `fetched`, the result of fetching the topic's metadata, which
    /// is then kept.
    pub fn check_topic_health(
        &mut self,
        topic_name: &str,
        force_refresh: bool,
        now: u64,
        fetched: &Result<Vec<TopicMetadata>, String>,
    ) -> (r: Result<TopicHealth, String>)
        requires
            old(self).wf(),
        ensures
            final(self).wf(),
            final(self).ttl() == old(self).ttl(),
            r matches Ok(h) ==> h.topic_name@ == topic_name@,
            (result_view(r), final(self).cached()) == single_check(
                old(self).cached(),
                topic_name@,
                force_refresh,
                now,
                old(self).ttl(),
                *fetched,
            ),
    {
        if self.uses_cache(topic_name, force_refresh, now) {
            match self.cache.get(topic_name) {
                Some(h) => {
                    proof {
                        assert(self.cached()[topic_name@] == health_view(*h));
                    }
                    return Ok(copy_health(h));
                },
                None => {},
            }
        }
        let topics = match fetched {
            Ok(t) => t,
            Err(e) => {
                return Err(copy_string(e));
            },
        };
        let health = evaluate_topic_health(topic_name, topics, now);
        match health {
            Ok(h) => {
                self.cache.insert(string_from_chars(&chars_of(topic_name)), copy_health(&h));
                proof {
                    assert(self.cached() =~= old(self).cached().insert(topic_name@, health_view(h)));
                }
                Ok(h)
            },
            Err(e) => Err(e),
        }
    }

    /// The health of each named topic checked at `now`, in order,
    /// `fetched[i]` being the result of fetching the metadata of
    /// `topic_names[i]`; a topic whose check fails gets an unhealthy report
    /// that says why.
    pub fn check_topics_health(
        &mut self,
        topic_names: &Vec<String>,
        force_refresh: bool,
        now: u64,
        fetched: &Vec<Result<Vec<TopicMetadata>, String>>,
    ) -> (r: Vec<TopicHealth>)
        requires
            old(self).wf(),
            fetched@.len() == topic_names@.len(),
        ensures
            final(self).wf(),
            final(self).ttl() == old(self).ttl(),
            r@.len() == topic_names@.len(),
            forall|i: int| 0 <= i < r@.len() ==> (#[trigger] r@[i]).topic_name@ == topic_names@[i]@,
            (r@.map_values(|h: TopicHealth| health_view(h)), final(self).cached()) == many_checks(
                old(self).cached(),
                texts(topic_names@),
                force_refresh,
                now,
                old(self).ttl(),
                fetched@,
            ),
    {
        let mut results: Vec<TopicHealth> = Vec::new();
        let mut i: usize = 0;
        while i < topic_names.len()
            invariant
                0 <= i <= topic_names@.len(),
                fetched@.len() == topic_names@.len(),
                self.wf(),
                self.ttl() == old(self).ttl(),
                results@.len() == i,
                forall|m: int| 0 <= m < i ==> (#[trigger] results@[m]).topic_name@ == topic_names@[m]@,
                (results@.map_values(|h: TopicHealth| health_view(h)), self.cached()) == many_checks(
                    old(self).cached(),
                    texts(topic_names@).subrange(0, i as int),
                    force_refresh,
                    now,
                    old(self).ttl(),
                    fetched@.subrange(0, i as int),
                ),
            decreases topic_names.len() - i,
        {
            let ghost cache_before = self.cached();
            let ghost before = results@.map_values(|h: TopicHealth| health_view(h));
            let name = &topic_names[i];
            let outcome = self.check_topic_health(name.as_str(), force_refresh, now, &fetched[i]);
            let ghost out_view = result_view(outcome);
            let report = match outcome {
                Ok(h) => h,
                Err(e) => {
                    let mut cs = chars_of("Failed to check health: ");
                    append_chars(&mut cs, e.as_str());
                    let mut issues: Vec<String> = Vec::new();
                    issues.push(string_from_chars(&cs));
                    let partitions: Vec<TopicPartitionHealth> = Vec::new();
                    proof {
                        assert(texts(issues@) =~= seq!["Failed to check health: "@ + e@]);
                        assert(partitions@.map_values(|p: TopicPartitionHealth| partition_view(p))
                            =~= Seq::<(i32, TopicPartitionStatus, i32, i32, i32, Seq<Seq<char>>)>::empty());
                    }
                    TopicHealth {
                        topic_name: copy_string(name),
                        status: TopicHealthStatus::Unhealthy,
                        partition_count: 0,
                        partitions,
                        issues,
                        checked_at: now,
                    }
                },
            };
            proof {
                assert(health_view(report) == as_report(name@, out_view, now));
            }
            results.push(report);
            proof {
                let names = texts(topic_names@).subrange(0, i + 1);
                let fs = fetched@.subrange(0, i + 1);
                assert(names.drop_last() =~= texts(topic_names@).subrange(0, i as int));
                assert(fs.subrange(0, i as int) =~= fetched@.subrange(0, i as int));
                assert(names[i as int] == name@);
                assert(fs[i as int] == fetched@[i as int]);
                assert(results@.map_values(|h: TopicHealth| health_view(h))
                    =~= before.push(as_report(name@, out_view, now)));
            }
            i = i + 1;
        }
        proof {
            assert(texts(topic_names@).subrange(0, topic_names@.len() as int) =~= texts(topic_names@));
            assert(fetched@.subrange(0, topic_names@.len() as int) =~= fetched@);
        }
        results
    }

    /// Forgets every judgement kept.
    pub fn clear_cache(&mut self)
        ensures
            final(self).wf(),
            final(self).ttl() == old(self).ttl(),
            final(self).cached() == Map::<Seq<char>, HealthView>::empty(),
    {
        self.cache = StringMap::new();
        proof {
            assert(self.cached() =~= Map::<Seq<char>, HealthView>::empty());
        }
    }

    /// Sets how long a judgement is kept, in seconds.
    pub fn set_cache_ttl(&mut self, ttl_seconds: u64)
        ensures
            final(self).ttl() == ttl_seconds,
            final(self).cached() == old(self).cached(),
            final(self).wf() == old(self).wf(),
    {
        self.cache_ttl = ttl_seconds;
    }
}

/// A topic is healthy exactly when each of its partitions is, and it has
/// issues exactly when it is not healthy.
pub proof fn lemma_healthy_topic_iff_healthy_partitions(ps: Seq<PartitionMetadata>)
    ensures
        (topic_status(ps) == TopicHealthStatus::Healthy) <==> (forall|i: int| 0 <= i < ps.len()
            ==> partition_status(#[trigger] ps[i]) == TopicPartitionStatus::Healthy),
        (topic_status(ps) == TopicHealthStatus::Healthy) <==> all_issues(ps).len() == 0,
    decreases ps.len(),
{
    if ps.len() > 0 {
        let init = ps.drop_last();
        lemma_healthy_topic_iff_healthy_partitions(init);
        assert forall|i: int| 0 <= i < init.len() implies init[i] == ps[i] by {}
        if exists|i: int| 0 <= i < ps.len() && #[trigger] leaderless(ps[i]) {
            let i = choose|i: int| 0 <= i < ps.len() && #[trigger] leaderless(ps[i]);
            assert(partition_status(ps[i]) != TopicPartitionStatus::Healthy);
            if i < init.len() {
                assert(leaderless(init[i]));
            }
        } else if exists|i: int| 0 <= i < ps.len() && #[trigger] out_of_sync(ps[i]) {
            let i = choose|i: int| 0 <= i < ps.len() && #[trigger] out_of_sync(ps[i]);
            assert(partition_status(ps[i]) != TopicPartitionStatus::Healthy);
            if i < init.len() {
                assert(out_of_sync(init[i]));
            }
        } else {
            assert(!leaderless(ps.last()) && !out_of_sync(ps[ps.len() - 1]));
            assert forall|i: int| 0 <= i < init.len() implies !leaderless(#[trigger] init[i]) && !out_of_sync(init[i]) by {
                assert(!leaderless(ps[i]) && !out_of_sync(ps[i]));
            }
        }
    }
}

} // verus!
