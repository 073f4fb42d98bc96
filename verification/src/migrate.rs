//! The registry of topic migrations between two clusters, and the rules by
//! which a migration moves between its states.

use std::collections::HashMap;
use vstd::prelude::*;
use vstd::std_specs::hash::group_hash_axioms;
use crate::clock::{new_uuid_text, unix_now_secs};
use crate::scaling::copy_string;
use crate::strmap::StringMap;
use crate::text::{append_chars, chars_of, string_from_chars};
use crate::topic_ddl::{config_view, ConfigView, TopicConfig};

verus! {

broadcast use group_hash_axioms;

/// How much of a topic is migrated.
#[derive(Debug, Clone, Copy, PartialEq, Eq)]
pub enum MigrationMode {
    /// All the data.
    Full,
    /// Only new data.
    Incremental,
}

/// How long a migration copies.
#[derive(Debug, Clone, Copy, PartialEq, Eq)]
pub enum ReplicationMode {
    /// Once.
    OneTime,
    /// Until stopped.
    Continuous,
}

/// Where a migration stands.
#[derive(Debug, Clone, Copy, PartialEq, Eq, Structural)]
pub enum MigrationStatus {
    Preparing,
    Running,
    Paused,
    Completed,
    Failed,
}

/// What a migration copies, and how.
#[derive(Debug, Clone)]
pub struct MigrationConfig {
    pub source_topic: String,
    pub target_topic: String,
    pub source_server: String,
    pub target_server: String,
    pub migration_mode: MigrationMode,
    pub replication_mode: ReplicationMode,
    pub batch_size: usize,
    pub preserve_timestamps: bool,
    pub preserve_partitions: bool,
    /// Source partition to target partition, where not the same.
    pub partition_mapping: Option<HashMap<i32, i32>>,
    pub max_retries: usize,
    pub retry_interval_ms: u64,
    pub skip_errors: bool,
}

impl Default for MigrationConfig {
    /// No topics or servers; a full, one-time migration in batches of 1000
    /// that keeps timestamps and partitions, with 3 retries 1000 ms apart,
    /// stopping at errors.
    fn default() -> (c: Self)
        ensures
            c.source_topic@.len() == 0,
            c.target_topic@.len() == 0,
            c.source_server@.len() == 0,
            c.target_server@.len() == 0,
            c.migration_mode == MigrationMode::Full,
            c.replication_mode == ReplicationMode::OneTime,
            c.batch_size == 1000,
            c.preserve_timestamps,
            c.preserve_partitions,
            c.partition_mapping is None,
            c.max_retries == 3,
            c.retry_interval_ms == 1000,
            !c.skip_errors,
    {
        MigrationConfig {
            source_topic: String::new(),
            target_topic: String::new(),
            source_server: String::new(),
            target_server: String::new(),
            migration_mode: MigrationMode::Full,
            replication_mode: ReplicationMode::OneTime,
            batch_size: 1000,
            preserve_timestamps: true,
            preserve_partitions: true,
            partition_mapping: None,
            max_retries: 3,
            retry_interval_ms: 1000,
            skip_errors: false,
        }
    }
}

/// How far one partition has been copied.
#[derive(Debug, Clone, Copy, PartialEq, Eq)]
pub struct PartitionProgress {
    pub partition_id: i32,
    pub start_offset: i64,
    pub current_offset: i64,
    pub end_offset: Option<i64>,
    pub processed_messages: u64,
    pub processed_bytes: u64,
}

/// How far a migration has come.
#[derive(Debug, Clone)]
pub struct MigrationProgress {
    pub id: String,
    pub status: MigrationStatus,
    pub config: MigrationConfig,
    /// Seconds since the Unix epoch.
    pub start_time: u64,
    /// Seconds since the Unix epoch, once completed or failed.
    pub end_time: Option<u64>,
    pub processed_messages: u64,
    pub processed_bytes: u64,
    pub error_message: Option<String>,
    pub partition_progress: HashMap<i32, PartitionProgress>,
}

/// The two configurations hold the same values.
pub open spec fn same_config(a: MigrationConfig, b: MigrationConfig) -> bool {
    &&& a.source_topic@ == b.source_topic@
    &&& a.target_topic@ == b.target_topic@
    &&& a.source_server@ == b.source_server@
    &&& a.target_server@ == b.target_server@
    &&& a.migration_mode == b.migration_mode
    &&& a.replication_mode == b.replication_mode
    &&& a.batch_size == b.batch_size
    &&& a.preserve_timestamps == b.preserve_timestamps
    &&& a.preserve_partitions == b.preserve_partitions
    &&& match (a.partition_mapping, b.partition_mapping) {
        (Some(x), Some(y)) => x@ == y@,
        (None, None) => true,
        _ => false,
    }
    &&& a.max_retries == b.max_retries
    &&& a.retry_interval_ms == b.retry_interval_ms
    &&& a.skip_errors == b.skip_errors
}

/// The two progress records hold the same values.
pub open spec fn same_progress(a: MigrationProgress, b: MigrationProgress) -> bool {
    &&& a.id@ == b.id@
    &&& a.status == b.status
    &&& same_config(a.config, b.config)
    &&& a.start_time == b.start_time
    &&& a.end_time == b.end_time
    &&& a.processed_messages == b.processed_messages
    &&& a.processed_bytes == b.processed_bytes
    &&& match (a.error_message, b.error_message) {
        (Some(x), Some(y)) => x@ == y@,
        (None, None) => true,
        _ => false,
    }
    &&& a.partition_progress@ == b.partition_progress@
}

/// A progress record with another status.
pub open spec fn with_status(p: MigrationProgress, s: MigrationStatus) -> MigrationProgress {
    MigrationProgress {
        id: p.id,
        status: s,
        config: p.config,
        start_time: p.start_time,
        end_time: p.end_time,
        processed_messages: p.processed_messages,
        processed_bytes: p.processed_bytes,
        error_message: p.error_message,
        partition_progress: p.partition_progress,
    }
}

/// The name of a status, as it is shown in messages.
pub open spec fn status_name(s: MigrationStatus) -> Seq<char> {
    match s {
        MigrationStatus::Preparing => "Preparing"@,
        MigrationStatus::Running => "Running"@,
        MigrationStatus::Paused => "Paused"@,
        MigrationStatus::Completed => "Completed"@,
        MigrationStatus::Failed => "Failed"@,
    }
}

fn status_text(s: MigrationStatus) -> (t: &'static str)
    ensures
        t@ == status_name(s),
{
    match s {
        MigrationStatus::Preparing => "Preparing",
        MigrationStatus::Running => "Running",
        MigrationStatus::Paused => "Paused",
        MigrationStatus::Completed => "Completed",
        MigrationStatus::Failed => "Failed",
    }
}

/// `prefix` followed by `rest`.
fn join_text(prefix: &str, rest: &str) -> (s: String)
    ensures
        s@ == prefix@ + rest@,
{
    let mut cs = chars_of(prefix);
    append_chars(&mut cs, rest);
    string_from_chars(&cs)
}

fn copy_config(c: &MigrationConfig) -> (r: MigrationConfig)
    ensures
        same_config(r, *c),
{
    MigrationConfig {
        source_topic: copy_string(&c.source_topic),
        target_topic: copy_string(&c.target_topic),
        source_server: copy_string(&c.source_server),
        target_server: copy_string(&c.target_server),
        migration_mode: c.migration_mode,
        replication_mode: c.replication_mode,
        batch_size: c.batch_size,
        preserve_timestamps: c.preserve_timestamps,
        preserve_partitions: c.preserve_partitions,
        partition_mapping: match &c.partition_mapping {
            Some(m) => Some(m.clone()),
            None => None,
        },
        max_retries: c.max_retries,
        retry_interval_ms: c.retry_interval_ms,
        skip_errors: c.skip_errors,
    }
}

fn copy_progress(p: &MigrationProgress) -> (r: MigrationProgress)
    ensures
        same_progress(r, *p),
{
    MigrationProgress {
        id: copy_string(&p.id),
        status: p.status,
        config: copy_config(&p.config),
        start_time: p.start_time,
        end_time: p.end_time,
        processed_messages: p.processed_messages,
        processed_bytes: p.processed_bytes,
        error_message: match &p.error_message {
            Some(m) => Some(copy_string(m)),
            None => None,
        },
        partition_progress: p.partition_progress.clone(),
    }
}

/// Moves topics from a source cluster to a target cluster and keeps track
/// of the migrations it started. The clusters are named by their servers;
/// checking and creating topics on them is left to the caller.
pub struct TopicMigrator {
    source_server: String,
    target_server: String,
    active_migrations: StringMap<MigrationProgress>,
}

impl TopicMigrator {
    /// The source cluster's server.
    pub closed spec fn source(&self) -> Seq<char> {
        self.source_server@
    }

    /// The target cluster's server.
    pub closed spec fn target(&self) -> Seq<char> {
        self.target_server@
    }

    /// The migrations, by identifier.
    pub closed spec fn migrations(&self) -> Map<Seq<char>, MigrationProgress> {
        self.active_migrations.view()
    }

    /// Every migration is stored under its own identifier.
    pub closed spec fn wf(&self) -> bool {
        &&& self.active_migrations.wf()
        &&& forall|k: Seq<char>| #[trigger] self.active_migrations.view().contains_key(k)
            ==> self.active_migrations.view()[k].id@ == k
    }

    /// A migrator between two servers, with no migrations.
    pub fn new(source_server: &str, target_server: &str) -> (m: Self)
        ensures
            m.wf(),
            m.source() == source_server@,
            m.target() == target_server@,
            m.migrations() == Map::<Seq<char>, MigrationProgress>::empty(),
    {
        TopicMigrator {
            source_server: source_server.to_owned(),
            target_server: target_server.to_owned(),
            active_migrations: StringMap::new(),
        }
    }

    /// A migrator between the clusters of two topic administrators, each
    /// given by its server, with no migrations.
    pub fn with_admins(source_admin: String, target_admin: String) -> (m: Self)
        ensures
            m.wf(),
            m.source() == source_admin@,
            m.target() == target_admin@,
            m.migrations() == Map::<Seq<char>, MigrationProgress>::empty(),
    {
        TopicMigrator { source_server: source_admin, target_server: target_admin, active_migrations: StringMap::new() }
    }

    /// A migrator between the same servers with the same migrations.
    pub fn clone(&self) -> (m: Self)
        requires
            self.wf(),
        ensures
            m.wf(),
            m.source() == self.source(),
            m.target() == self.target(),
            m.migrations().dom() == self.migrations().dom(),
            forall|k: Seq<char>| #[trigger] m.migrations().contains_key(k)
                ==> same_progress(m.migrations()[k], self.migrations()[k]),
    {
        let mut copy: StringMap<MigrationProgress> = StringMap::new();
        let n = self.active_migrations.len();
        let mut i: usize = 0;
        while i < n
            invariant
                0 <= i <= n,
                n == self.active_migrations.key_seq().len(),
                self.wf(),
                copy.wf(),
                forall|k: Seq<char>| #[trigger] copy.view().contains_key(k) <==>
                    self.active_migrations.key_seq().subrange(0, i as int).contains(k),
                forall|k: Seq<char>| #[trigger] copy.view().contains_key(k) ==>
                    same_progress(copy.view()[k], self.migrations()[k]) && copy.view()[k].id@ == k,
            decreases n - i,
        {
            let (key, value) = self.active_migrations.entry_at(i);
            let ghost before = copy.view();
            copy.insert(copy_string(key), copy_progress(value));
            proof {
                assert forall|k: Seq<char>| #[trigger] copy.view().contains_key(k) <==>
                    self.active_migrations.key_seq().subrange(0, i as int + 1).contains(k) by {
                    let ks = self.active_migrations.key_seq();
                    if k == key@ {
                        assert(ks.subrange(0, i as int + 1)[i as int] == k);
                    } else if ks.subrange(0, i as int + 1).contains(k) {
                        let sub = ks.subrange(0, i as int + 1);
                        let j = choose|j: int| 0 <= j < sub.len() && #[trigger] sub[j] == k;
                        assert(ks.subrange(0, i as int)[j] == k);
                    } else if before.contains_key(k) {
                        let sub = ks.subrange(0, i as int);
                        let j = choose|j: int| 0 <= j < sub.len() && #[trigger] sub[j] == k;
                        assert(ks.subrange(0, i as int + 1)[j] == k);
                    }
                }
            }
            i = i + 1;
        }
        proof {
            assert(self.active_migrations.key_seq().subrange(0, n as int) =~= self.active_migrations.key_seq());
            assert forall|k: Seq<char>| copy.view().dom().contains(k) <==> self.migrations().dom().contains(k) by {
                self.active_migrations.lemma_key_seq_contains(k);
            }
            assert(copy.view().dom() =~= self.migrations().dom());
        }
        TopicMigrator {
            source_server: copy_string(&self.source_server),
            target_server: copy_string(&self.target_server),
            active_migrations: copy,
        }
    }

    /// The stored record of a migration, copied.
    pub fn get_migration_progress(&self, migration_id: &str) -> (r: Option<MigrationProgress>)
        requires
            self.wf(),
        ensures
            match r {
                Some(p) => self.migrations().contains_key(migration_id@)
                    && same_progress(p, self.migrations()[migration_id@]),
                None => !self.migrations().contains_key(migration_id@),
            },
    {
        match self.active_migrations.get(migration_id) {
            Some(p) => Some(copy_progress(p)),
            None => None,
        }
    }

    /// Copies of all the stored records, one per migration.
    pub fn get_all_migrations(&self) -> (r: Vec<MigrationProgress>)
        requires
            self.wf(),
        ensures
            r@.len() == self.migrations().len(),
            forall|i: int| 0 <= i < r@.len() ==> self.migrations().contains_key((#[trigger] r@[i]).id@)
                && same_progress(r@[i], self.migrations()[r@[i].id@]),
            forall|i: int, j: int| 0 <= i < j < r@.len() ==> (#[trigger] r@[i]).id@ != (#[trigger] r@[j]).id@,
    {
        let n = self.active_migrations.len();
        let mut r: Vec<MigrationProgress> = Vec::new();
        let mut i: usize = 0;
        while i < n
            invariant
                0 <= i <= n,
                n == self.active_migrations.key_seq().len(),
                n == self.migrations().len(),
                self.wf(),
                r@.len() == i,
                forall|j: int| 0 <= j < i ==> (#[trigger] r@[j]).id@ == self.active_migrations.key_seq()[j],
                forall|j: int| 0 <= j < i ==> self.migrations().contains_key((#[trigger] r@[j]).id@)
                    && same_progress(r@[j], self.migrations()[r@[j].id@]),
            decreases n - i,
        {
            let (key, value) = self.active_migrations.entry_at(i);
            r.push(copy_progress(value));
            i = i + 1;
        }
        proof {
            self.active_migrations.lemma_keys_distinct();
        }
        r
    }

    /// Pauses a running migration.
    pub fn pause_migration(&mut self, migration_id: &str) -> (r: Result<(), String>)
        requires
            old(self).wf(),
        ensures
            final(self).wf(),
            final(self).source() == old(self).source(),
            final(self).target() == old(self).target(),
            !old(self).migrations().contains_key(migration_id@) ==> final(self).migrations() == old(self).migrations()
                && (r matches Err(e) && e@ == "Migration not found: "@ + migration_id@),
            old(self).migrations().contains_key(migration_id@) ==> {
                let p = old(self).migrations()[migration_id@];
                if p.status == MigrationStatus::Running {
                    r is Ok && final(self).migrations() == old(self).migrations().insert(
                        migration_id@, with_status(p, MigrationStatus::Paused))
                } else {
                    final(self).migrations() == old(self).migrations() && (r matches Err(e)
                        && e@ == "Migration is not running, current status: "@ + status_name(p.status))
                }
            },
    {
        self.change_status(migration_id, MigrationStatus::Running, MigrationStatus::Paused,
            "Migration is not running, current status: ")
    }

    /// Resumes a paused migration.
    pub fn resume_migration(&mut self, migration_id: &str) -> (r: Result<(), String>)
        requires
            old(self).wf(),
        ensures
            final(self).wf(),
            final(self).source() == old(self).source(),
            final(self).target() == old(self).target(),
            !old(self).migrations().contains_key(migration_id@) ==> final(self).migrations() == old(self).migrations()
                && (r matches Err(e) && e@ == "Migration not found: "@ + migration_id@),
            old(self).migrations().contains_key(migration_id@) ==> {
                let p = old(self).migrations()[migration_id@];
                if p.status == MigrationStatus::Paused {
                    r is Ok && final(self).migrations() == old(self).migrations().insert(
                        migration_id@, with_status(p, MigrationStatus::Running))
                } else {
                    final(self).migrations() == old(self).migrations() && (r matches Err(e)
                        && e@ == "Migration is not paused, current status: "@ + status_name(p.status))
                }
            },
    {
        self.change_status(migration_id, MigrationStatus::Paused, MigrationStatus::Running,
            "Migration is not paused, current status: ")
    }

    /// Moves a migration from status `from` to status `to`; fails with
    /// `refusal` and the current status when it is in another status.
    fn change_status(&mut self, migration_id: &str, from: MigrationStatus, to: MigrationStatus, refusal: &str) -> (r: Result<(), String>)
        requires
            old(self).wf(),
        ensures
            final(self).wf(),
            final(self).source() == old(self).source(),
            final(self).target() == old(self).target(),
            !old(self).migrations().contains_key(migration_id@) ==> final(self).migrations() == old(self).migrations()
                && (r matches Err(e) && e@ == "Migration not found: "@ + migration_id@),
            old(self).migrations().contains_key(migration_id@) ==> {
                let p = old(self).migrations()[migration_id@];
                if p.status == from {
                    r is Ok && final(self).migrations() == old(self).migrations().insert(migration_id@, with_status(p, to))
                } else {
                    final(self).migrations() == old(self).migrations() && (r matches Err(e)
                        && e@ == refusal@ + status_name(p.status))
                }
            },
    {
        let current = match self.active_migrations.get(migration_id) {
            Some(p) => p.status,
            None => {
                return Err(join_text("Migration not found: ", migration_id));
            },
        };
        if current != from {
            return Err(join_text(refusal, status_text(current)));
        }
        let ghost before = self.active_migrations.view();
        let mut p = self.active_migrations.remove(migration_id).unwrap();
        p.status = to;
        self.active_migrations.insert(migration_id.to_owned(), p);
        proof {
            assert(self.active_migrations.view() =~= before.insert(migration_id@, with_status(before[migration_id@], to)));
        }
        Ok(())
    }

    /// Cancels a running or paused migration: it fails with the message
    /// that the user cancelled it, and ends now.
    pub fn cancel_migration(&mut self, migration_id: &str) -> (r: Result<(), String>)
        requires
            old(self).wf(),
        ensures
            final(self).wf(),
            final(self).source() == old(self).source(),
            final(self).target() == old(self).target(),
            !old(self).migrations().contains_key(migration_id@) ==> final(self).migrations() == old(self).migrations()
                && (r matches Err(e) && e@ == "Migration not found: "@ + migration_id@),
            old(self).migrations().contains_key(migration_id@) ==> {
                let p = old(self).migrations()[migration_id@];
                if p.status == MigrationStatus::Running || p.status == MigrationStatus::Paused {
                    &&& r is Ok
                    &&& final(self).migrations().dom() == old(self).migrations().dom()
                    &&& forall|k: Seq<char>| k != migration_id@ && #[trigger] old(self).migrations().contains_key(k)
                        ==> final(self).migrations()[k] == old(self).migrations()[k]
                    &&& cancelled(final(self).migrations()[migration_id@], p)
                } else {
                    final(self).migrations() == old(self).migrations() && (r matches Err(e)
                        && e@ == "Migration cannot be cancelled, current status: "@ + status_name(p.status))
                }
            },
    {
        let current = match self.active_migrations.get(migration_id) {
            Some(p) => p.status,
            None => {
                return Err(join_text("Migration not found: ", migration_id));
            },
        };
        if !(current == MigrationStatus::Running || current == MigrationStatus::Paused) {
            return Err(join_text("Migration cannot be cancelled, current status: ", status_text(current)));
        }
        let ghost before = self.active_migrations.view();
        let mut p = self.active_migrations.remove(migration_id).unwrap();
        p.status = MigrationStatus::Failed;
        p.error_message = Some("Migration cancelled by user".to_owned());
        p.end_time = Some(unix_now_secs());
        self.active_migrations.insert(migration_id.to_owned(), p);
        Ok(())
    }

    /// Sets the status of a migration, and its error message when one is
    /// given; a completed or failed migration ends now. An unknown
    /// migration is left alone.
    pub fn update_migration_status(&mut self, migration_id: &str, status: MigrationStatus, error_message: Option<String>)
        requires
            old(self).wf(),
        ensures
            final(self).wf(),
            final(self).source() == old(self).source(),
            final(self).target() == old(self).target(),
            final(self).migrations().dom() == old(self).migrations().dom(),
            forall|k: Seq<char>| k != migration_id@ && #[trigger] old(self).migrations().contains_key(k)
                ==> final(self).migrations()[k] == old(self).migrations()[k],
            old(self).migrations().contains_key(migration_id@) ==> {
                let p = old(self).migrations()[migration_id@];
                let q = final(self).migrations()[migration_id@];
                &&& q.id == p.id
                &&& q.status == status
                &&& q.config == p.config
                &&& q.start_time == p.start_time
                &&& q.processed_messages == p.processed_messages
                &&& q.processed_bytes == p.processed_bytes
                &&& q.partition_progress == p.partition_progress
                &&& q.error_message == match error_message {
                    Some(e) => Some(e),
                    None => p.error_message,
                }
                &&& if status == MigrationStatus::Completed || status == MigrationStatus::Failed {
                    q.end_time is Some
                } else {
                    q.end_time == p.end_time
                }
            },
    {
        let ghost before = self.active_migrations.view();
        match self.active_migrations.remove(migration_id) {
            Some(mut p) => {
                p.status = status;
                match error_message {
                    Some(e) => {
                        p.error_message = Some(e);
                    },
                    None => {},
                }
                if status == MigrationStatus::Completed || status == MigrationStatus::Failed {
                    p.end_time = Some(unix_now_secs());
                }
                self.active_migrations.insert(migration_id.to_owned(), p);
            },
            None => {
                proof {
                    assert(self.active_migrations.view() =~= before);
                }
            },
        }
    }

    /// Adds what was copied of one partition: its offset becomes
    /// `current_offset` and its counters grow, if the migration tracks that
    /// partition; the migration's counters grow in any case. An unknown
    /// migration is left alone.
    pub fn update_migration_progress(
        &mut self,
        migration_id: &str,
        partition_id: i32,
        current_offset: i64,
        processed_messages: u64,
        processed_bytes: u64,
    )
        requires
            old(self).wf(),
            old(self).migrations().contains_key(migration_id@) ==> {
                let p = old(self).migrations()[migration_id@];
                &&& p.processed_messages + processed_messages <= u64::MAX
                &&& p.processed_bytes + processed_bytes <= u64::MAX
                &&& p.partition_progress@.contains_key(partition_id) ==> {
                    &&& p.partition_progress@[partition_id].processed_messages + processed_messages <= u64::MAX
                    &&& p.partition_progress@[partition_id].processed_bytes + processed_bytes <= u64::MAX
                }
            },
        ensures
            final(self).wf(),
            final(self).source() == old(self).source(),
            final(self).target() == old(self).target(),
            final(self).migrations().dom() == old(self).migrations().dom(),
            forall|k: Seq<char>| k != migration_id@ && #[trigger] old(self).migrations().contains_key(k)
                ==> final(self).migrations()[k] == old(self).migrations()[k],
            old(self).migrations().contains_key(migration_id@) ==> {
                let p = old(self).migrations()[migration_id@];
                let q = final(self).migrations()[migration_id@];
                &&& q.id == p.id
                &&& q.status == p.status
                &&& q.config == p.config
                &&& q.start_time == p.start_time
                &&& q.end_time == p.end_time
                &&& q.error_message == p.error_message
                &&& q.processed_messages == p.processed_messages + processed_messages
                &&& q.processed_bytes == p.processed_bytes + processed_bytes
                &&& q.partition_progress@ == if p.partition_progress@.contains_key(partition_id) {
                    let pp = p.partition_progress@[partition_id];
                    p.partition_progress@.insert(partition_id, PartitionProgress {
                        current_offset,
                        processed_messages: (pp.processed_messages + processed_messages) as u64,
                        processed_bytes: (pp.processed_bytes + processed_bytes) as u64,
                        ..pp
                    })
                } else {
                    p.partition_progress@
                }
            },
    {
        let ghost before = self.active_migrations.view();
        match self.active_migrations.remove(migration_id) {
            Some(mut p) => {
                match p.partition_progress.get(&partition_id) {
                    Some(pp) => {
                        let mut updated = *pp;
                        updated.current_offset = current_offset;
                        updated.processed_messages = updated.processed_messages + processed_messages;
                        updated.processed_bytes = updated.processed_bytes + processed_bytes;
                        p.partition_progress.insert(partition_id, updated);
                    },
                    None => {},
                }
                p.processed_messages = p.processed_messages + processed_messages;
                p.processed_bytes = p.processed_bytes + processed_bytes;
                self.active_migrations.insert(migration_id.to_owned(), p);
            },
            None => {
                proof {
                    assert(self.active_migrations.view() =~= before);
                }
            },
        }
    }

    /// Records a new migration of `config` under a fresh identifier,
    /// `migration-` and a random UUID, starting now, and sets it running.
    /// Checking the topics on the clusters is left to the caller.
    pub fn start_migration(&mut self, config: MigrationConfig) -> (id: String)
        requires
            old(self).wf(),
        ensures
            final(self).wf(),
            final(self).source() == old(self).source(),
            final(self).target() == old(self).target(),
            id@.len() == 46,
            id@.subrange(0, 10) == "migration-"@,
            final(self).migrations().dom() == old(self).migrations().dom().insert(id@),
            forall|k: Seq<char>| k != id@ && #[trigger] old(self).migrations().contains_key(k)
                ==> final(self).migrations()[k] == old(self).migrations()[k],
            ({
                let q = final(self).migrations()[id@];
                &&& q.id@ == id@
                &&& q.status == MigrationStatus::Running
                &&& q.config == config
                &&& q.end_time is None
                &&& q.processed_messages == 0
                &&& q.processed_bytes == 0
                &&& q.error_message is None
                &&& q.partition_progress@ == Map::<i32, PartitionProgress>::empty()
            }),
    {
        let suffix = new_uuid_text();
        let id = join_text("migration-", suffix.as_str());
        proof {
            reveal_strlit("migration-");
            assert(id@.subrange(0, 10) =~= "migration-"@);
        }
        let progress = MigrationProgress {
            id: copy_string(&id),
            status: MigrationStatus::Preparing,
            config,
            start_time: unix_now_secs(),
            end_time: None,
            processed_messages: 0,
            processed_bytes: 0,
            error_message: None,
            partition_progress: HashMap::new(),
        };
        let ghost before = self.migrations();
        self.active_migrations.insert(copy_string(&id), progress);
        let ghost mid = self.migrations();
        self.update_migration_status(id.as_str(), MigrationStatus::Running, None);
        proof {
            assert forall|k: Seq<char>| k != id@ && #[trigger] before.contains_key(k)
                implies self.migrations()[k] == before[k] by {
                assert(mid.contains_key(k));
            }
        }
        id
    }
}

/// `q` is `p` cancelled: failed, with the cancellation message and an end
/// time, and otherwise the same.
pub open spec fn cancelled(q: MigrationProgress, p: MigrationProgress) -> bool {
    &&& q.id == p.id
    &&& q.status == MigrationStatus::Failed
    &&& q.config == p.config
    &&& q.start_time == p.start_time
    &&& q.end_time is Some
    &&& q.processed_messages == p.processed_messages
    &&& q.processed_bytes == p.processed_bytes
    &&& q.partition_progress == p.partition_progress
    &&& q.error_message matches Some(e) && e@ == "Migration cancelled by user"@
}

/// Pausing a running migration and then resuming it gives back the
/// registry as it was.
pub proof fn lemma_pause_then_resume_restores(m: Map<Seq<char>, MigrationProgress>, id: Seq<char>)
    requires
        m.contains_key(id),
        m[id].status == MigrationStatus::Running,
    ensures
        ({
            let paused = m.insert(id, with_status(m[id], MigrationStatus::Paused));
            &&& paused[id].status == MigrationStatus::Paused
            &&& paused.insert(id, with_status(paused[id], MigrationStatus::Running)) == m
        }),
{
    let paused = m.insert(id, with_status(m[id], MigrationStatus::Paused));
    assert(with_status(paused[id], MigrationStatus::Running) == m[id]);
    assert(paused.insert(id, with_status(paused[id], MigrationStatus::Running)) =~= m);
}

/// A cancelled migration has failed: it can be neither paused, resumed
/// nor cancelled again.
pub proof fn lemma_cancel_is_final(q: MigrationProgress, p: MigrationProgress)
    requires
        cancelled(q, p),
    ensures
        q.status != MigrationStatus::Running,
        q.status != MigrationStatus::Paused,
{
}

/// The settings of a target topic made for a migration: those of the
/// source topic, under the target's name, described as migrated from the
/// source.
pub fn target_topic_config(source_topic: &str, target_topic: &str, source: &crate::topic_admin::TopicInfo) -> (c: TopicConfig)
    ensures
        config_view(c) == (ConfigView {
            name: target_topic@,
            description: Some("Migrated from "@ + source_topic@),
            ..crate::topic_admin::info_settings(*source)
        }),
{
    let mut d = chars_of("Migrated from ");
    append_chars(&mut d, source_topic);
    TopicConfig {
        name: string_from_chars(&chars_of(target_topic)),
        partitions: source.partitions,
        replication_factor: source.replication_factor,
        retention_ms: source.retention_ms,
        retention_bytes: source.retention_bytes,
        cleanup_policy: copy_string(&source.cleanup_policy),
        max_message_bytes: source.max_message_bytes,
        description: Some(string_from_chars(&d)),
    }
}

/// The progress a partition's copy reports, batch by batch, for the
/// thousand messages it takes: the offset reached, the messages and the
/// bytes (a hundred per message) of the batch. A batch size that reads as
/// negative in 64 bits reports nothing.
pub open spec fn progress_reports(batch_size: usize) -> Seq<(i64, u64, u64)> {
    let b = batch_size as i64;
    if b > 0 {
        Seq::new((1000int / (b as int)) as nat, |i: int| (((i + 1) * b) as i64, b as u64, (b * 100) as u64))
    } else {
        seq![]
    }
}

/// The progress reports of copying one partition with batches of
/// `batch_size` messages.
pub fn partition_progress_reports(batch_size: usize) -> (r: Vec<(i64, u64, u64)>)
    requires
        batch_size > 0,
    ensures
        r@ == progress_reports(batch_size),
{
    let b: i64 = #[verifier::truncate] (batch_size as i64);
    let mut r: Vec<(i64, u64, u64)> = Vec::new();
    if b <= 0 {
        proof {
            assert(r@ =~= progress_reports(batch_size));
        }
        return r;
    }
    let n: i64 = 1000 / b;
    let mut i: i64 = 0;
    while i < n
        invariant
            b == batch_size as i64,
            b > 0,
            n == 1000int / (b as int),
            0 <= i <= n,
            r@ == progress_reports(batch_size).subrange(0, i as int),
        decreases n - i,
    {
        proof {
            assert((i + 1) * b <= 1000) by (nonlinear_arith)
                requires i < n, n == 1000int / (b as int), b > 0;
            assert(b <= 1000) by (nonlinear_arith)
                requires 0 <= i < n, n == 1000int / (b as int), b > 0;
        }
        r.push(((i + 1) * b, b as u64, (b * 100) as u64));
        proof {
            assert(r@ =~= progress_reports(batch_size).subrange(0, i + 1));
        }
        i = i + 1;
    }
    proof {
        assert(r@ =~= progress_reports(batch_size));
    }
    r
}

} // verus!
