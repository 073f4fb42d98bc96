//! What administering topics decides and reports: the record kept of a
//! topic, and the steps of running a topic statement against a cluster.

use vstd::prelude::*;
use crate::permission::{grants, level_name, PermissionLevel, TopicPermissionManager};
use crate::quota::{limit_violation, TopicQuotaManager};
use crate::scaling::copy_string;
use crate::text::{append_chars, chars_of, i64_to_decimal, signed_decimal, string_from_chars};
use crate::topic_ddl::{config_view, ConfigView, TopicConfig, TopicDdlStatement};

verus! {

/// What the cluster knows of a topic: its settings and when it was
/// created and last changed (seconds since the Unix epoch).
#[derive(Debug, Clone, PartialEq, Eq)]
pub struct TopicInfo {
    pub name: String,
    pub partitions: i32,
    pub replication_factor: i16,
    pub retention_ms: Option<i64>,
    pub retention_bytes: Option<i64>,
    pub cleanup_policy: String,
    pub max_message_bytes: Option<i32>,
    pub description: Option<String>,
    pub created_at: u64,
    pub updated_at: u64,
}

/// The settings recorded for a topic.
pub open spec fn info_settings(i: TopicInfo) -> ConfigView {
    ConfigView {
        name: i.name@,
        partitions: i.partitions,
        replication_factor: i.replication_factor,
        retention_ms: i.retention_ms,
        retention_bytes: i.retention_bytes,
        cleanup_policy: i.cleanup_policy@,
        max_message_bytes: i.max_message_bytes,
        description: match i.description {
            Some(d) => Some(d@),
            None => None,
        },
    }
}

fn copy_text(s: &Option<String>) -> (r: Option<String>)
    ensures
        match (*s, r) {
            (Some(a), Some(b)) => a@ == b@,
            (None, None) => true,
            _ => false,
        },
{
    match s {
        Some(t) => Some(copy_string(t)),
        None => None,
    }
}

/// The record of a topic created at `now` with the given settings.
pub fn created_topic_info(config: &TopicConfig, now: u64) -> (i: TopicInfo)
    ensures
        info_settings(i) == config_view(*config),
        i.created_at == now,
        i.updated_at == now,
{
    TopicInfo {
        name: copy_string(&config.name),
        partitions: config.partitions,
        replication_factor: config.replication_factor,
        retention_ms: config.retention_ms,
        retention_bytes: config.retention_bytes,
        cleanup_policy: copy_string(&config.cleanup_policy),
        max_message_bytes: config.max_message_bytes,
        description: copy_text(&config.description),
        created_at: now,
        updated_at: now,
    }
}

/// The record of a topic changed at `now` to the given settings: its
/// partitions, replicas and creation time stay as they were.
pub fn updated_topic_info(config: &TopicConfig, current: &TopicInfo, now: u64) -> (i: TopicInfo)
    ensures
        info_settings(i) == (ConfigView {
            partitions: current.partitions,
            replication_factor: current.replication_factor,
            ..config_view(*config)
        }),
        i.created_at == current.created_at,
        i.updated_at == now,
{
    TopicInfo {
        name: copy_string(&config.name),
        partitions: current.partitions,
        replication_factor: current.replication_factor,
        retention_ms: config.retention_ms,
        retention_bytes: config.retention_bytes,
        cleanup_policy: copy_string(&config.cleanup_policy),
        max_message_bytes: config.max_message_bytes,
        description: copy_text(&config.description),
        created_at: current.created_at,
        updated_at: now,
    }
}

/// The record of topic `name` read from the cluster at `now`: its number
/// of partitions and, from its first partition, its number of replicas
/// (one without partitions); a day of retention, deleted on cleanup,
/// created an hour before `now`.
pub fn topic_info_from_metadata(name: &str, partitions: usize, first_replicas: Option<usize>, now: u64) -> (i: TopicInfo)
    requires
        now >= 3600,
    ensures
        info_settings(i) == (ConfigView {
            name: name@,
            partitions: partitions as i32,
            replication_factor: match first_replicas {
                Some(n) => n as i16,
                None => 1,
            },
            retention_ms: Some(86400000),
            retention_bytes: None,
            cleanup_policy: "delete"@,
            max_message_bytes: None,
            description: None,
        }),
        i.created_at == now - 3600,
        i.updated_at == now,
{
    TopicInfo {
        name: string_from_chars(&chars_of(name)),
        partitions: partitions as i32,
        replication_factor: match first_replicas {
            Some(n) => n as i16,
            None => 1,
        },
        retention_ms: Some(86400000),
        retention_bytes: None,
        cleanup_policy: string_from_chars(&chars_of("delete")),
        max_message_bytes: None,
        description: None,
        created_at: now - 3600,
        updated_at: now,
    }
}

/// The settings of each recorded topic, in order.
pub fn topic_configs_of(infos: &Vec<TopicInfo>) -> (r: Vec<TopicConfig>)
    ensures
        r@.len() == infos@.len(),
        forall|k: int| 0 <= k < r@.len() ==> config_view(#[trigger] r@[k]) == info_settings(infos@[k]),
{
    let mut r: Vec<TopicConfig> = Vec::new();
    let mut i: usize = 0;
    while i < infos.len()
        invariant
            0 <= i <= infos@.len(),
            r@.len() == i,
            forall|k: int| 0 <= k < i ==> config_view(#[trigger] r@[k]) == info_settings(infos@[k]),
        decreases infos.len() - i,
    {
        let info = &infos[i];
        r.push(TopicConfig {
            name: copy_string(&info.name),
            partitions: info.partitions,
            replication_factor: info.replication_factor,
            retention_ms: info.retention_ms,
            retention_bytes: info.retention_bytes,
            cleanup_policy: copy_string(&info.cleanup_policy),
            max_message_bytes: info.max_message_bytes,
            description: copy_text(&info.description),
        });
        i = i + 1;
    }
    r
}

/// Whether a listing shows a topic: not an internal one (whose name starts
/// with `__`), and, when the user's level is checked, one the user may
/// read.
pub fn topic_listed(name: &str, user_level: Option<PermissionLevel>) -> (b: bool)
    ensures
        b == (!(name@.len() >= 2 && name@[0] == '_' && name@[1] == '_') && match user_level {
            Some(l) => grants(l, PermissionLevel::Read),
            None => true,
        }),
{
    let cs = chars_of(name);
    if cs.len() >= 2 && cs[0] == '_' && cs[1] == '_' {
        return false;
    }
    match user_level {
        Some(l) => l.includes(&PermissionLevel::Read),
        None => true,
    }
}

/// What running a topic statement asks of the cluster next, or its reply.
#[derive(Debug)]
pub enum TopicDdlAction {
    /// Find out whether the named topic exists.
    CheckExists(String),
    /// Create a topic with these settings.
    Create(TopicConfig),
    /// Change a topic to these settings.
    Update(TopicConfig),
    /// Delete the named topic.
    Delete(String),
    /// List the topics.
    List,
    /// The statement is done.
    Reply(Result<String, String>),
}

/// What the cluster answered.
#[derive(Debug)]
pub enum TopicDdlEvent {
    /// Nothing yet: the statement starts.
    Started,
    Exists(bool),
    Created(TopicInfo),
    Updated(TopicInfo),
    Deleted,
    Listed(Vec<TopicInfo>),
    /// The last request failed with this error.
    Failed(String),
}

/// Which answers a statement can get.
pub open spec fn event_fits(statement: TopicDdlStatement, event: TopicDdlEvent) -> bool {
    match event {
        TopicDdlEvent::Started | TopicDdlEvent::Failed(_) => true,
        TopicDdlEvent::Exists(_) => !(statement is ShowTopics),
        TopicDdlEvent::Created(_) => statement is CreateTopic,
        TopicDdlEvent::Updated(_) => statement is AlterTopic,
        TopicDdlEvent::Deleted => statement is DropTopic,
        TopicDdlEvent::Listed(_) => statement is ShowTopics,
    }
}

pub open spec fn quoted(name: Seq<char>, rest: Seq<char>) -> Seq<char> {
    "Topic '"@ + name + "'"@ + rest
}

/// One line of a listing.
pub open spec fn listing_line(i: TopicInfo) -> Seq<char> {
    "- "@ + i.name@ + " (partitions: "@ + signed_decimal(i.partitions as int) + ", replication: "@ + signed_decimal(
        i.replication_factor as int,
    ) + ")\n"@
}

pub open spec fn listing_lines(v: Seq<TopicInfo>) -> Seq<char>
    decreases v.len(),
{
    if v.len() == 0 {
        seq![]
    } else {
        listing_lines(v.drop_last()) + listing_line(v.last())
    }
}

pub open spec fn text_of(r: Result<String, String>) -> Result<Seq<char>, Seq<char>> {
    match r {
        Ok(s) => Ok(s@),
        Err(s) => Err(s@),
    }
}

fn message(name: &str, rest: &str) -> (m: String)
    ensures
        m@ == quoted(name@, rest@),
{
    let mut cs = chars_of("Topic '");
    append_chars(&mut cs, name);
    append_chars(&mut cs, "'");
    append_chars(&mut cs, rest);
    string_from_chars(&cs)
}

fn copy_config(c: &TopicConfig) -> (r: TopicConfig)
    ensures
        config_view(r) == config_view(*c),
{
    TopicConfig {
        name: copy_string(&c.name),
        partitions: c.partitions,
        replication_factor: c.replication_factor,
        retention_ms: c.retention_ms,
        retention_bytes: c.retention_bytes,
        cleanup_policy: copy_string(&c.cleanup_policy),
        max_message_bytes: c.max_message_bytes,
        description: copy_text(&c.description),
    }
}

fn listing(topics: &Vec<TopicInfo>) -> (s: String)
    ensures
        s@ == (if topics@.len() == 0 { "No topics found"@ } else { "Topics:\n"@ + listing_lines(topics@) }),
{
    if topics.len() == 0 {
        return string_from_chars(&chars_of("No topics found"));
    }
    let mut cs = chars_of("Topics:\n");
    let ghost start = cs@;
    let mut i: usize = 0;
    while i < topics.len()
        invariant
            0 <= i <= topics@.len(),
            start == "Topics:\n"@,
            cs@ == start + listing_lines(topics@.subrange(0, i as int)),
        decreases topics.len() - i,
    {
        let t = &topics[i];
        append_chars(&mut cs, "- ");
        append_chars(&mut cs, t.name.as_str());
        append_chars(&mut cs, " (partitions: ");
        append_chars(&mut cs, i64_to_decimal(t.partitions as i64).as_str());
        append_chars(&mut cs, ", replication: ");
        append_chars(&mut cs, i64_to_decimal(t.replication_factor as i64).as_str());
        append_chars(&mut cs, ")\n");
        proof {
            assert(topics@.subrange(0, i + 1).drop_last() =~= topics@.subrange(0, i as int));
            assert(topics@.subrange(0, i + 1).last() == *t);
            assert(cs@ =~= start + listing_lines(topics@.subrange(0, i + 1)));
        }
        i = i + 1;
    }
    proof {
        assert(topics@.subrange(0, topics@.len() as int) =~= topics@);
    }
    string_from_chars(&cs)
}

/// The next step of running a topic statement, from what the cluster last
/// answered. A statement first asks whether its topic exists (a listing
/// asks for the list); creating a topic that exists is refused, or merely
/// reported with `IF NOT EXISTS`; changing one that does not exist is
/// refused; dropping one that does not exist is refused, or merely
/// reported with `IF EXISTS`; otherwise the change is asked for and its
/// result reported. A failed request ends the statement with its error.
pub fn topic_ddl_step(statement: &TopicDdlStatement, event: &TopicDdlEvent) -> (a: TopicDdlAction)
    requires
        event_fits(*statement, *event),
    ensures
        match (*statement, *event) {
            (_, TopicDdlEvent::Failed(e)) => a matches TopicDdlAction::Reply(r) && text_of(r) == Err::<Seq<char>, Seq<char>>(e@),
            (TopicDdlStatement::ShowTopics, TopicDdlEvent::Started) => a is List,
            (TopicDdlStatement::ShowTopics, TopicDdlEvent::Listed(v)) => a matches TopicDdlAction::Reply(r) && text_of(r)
                == Ok::<Seq<char>, Seq<char>>(if v@.len() == 0 { "No topics found"@ } else { "Topics:\n"@ + listing_lines(v@) }),
            (TopicDdlStatement::CreateTopic { name, .. }, TopicDdlEvent::Started)
            | (TopicDdlStatement::AlterTopic { name, .. }, TopicDdlEvent::Started)
            | (TopicDdlStatement::DropTopic { name, .. }, TopicDdlEvent::Started) => a matches TopicDdlAction::CheckExists(n) && n@ == name@,
            (TopicDdlStatement::CreateTopic { name, if_not_exists, config }, TopicDdlEvent::Exists(exists)) => if exists {
                a matches TopicDdlAction::Reply(r) && text_of(r) == if if_not_exists {
                    Ok::<Seq<char>, Seq<char>>(quoted(name@, " already exists"@))
                } else {
                    Err::<Seq<char>, Seq<char>>(quoted(name@, " already exists"@))
                }
            } else {
                a matches TopicDdlAction::Create(c) && config_view(c) == config_view(config)
            },
            (TopicDdlStatement::CreateTopic { .. }, TopicDdlEvent::Created(i)) => a matches TopicDdlAction::Reply(r) && text_of(r)
                == Ok::<Seq<char>, Seq<char>>(quoted(
                i.name@,
                " created successfully with "@ + signed_decimal(i.partitions as int) + " partitions and replication factor "@
                    + signed_decimal(i.replication_factor as int),
            )),
            (TopicDdlStatement::AlterTopic { name, config }, TopicDdlEvent::Exists(exists)) => if exists {
                a matches TopicDdlAction::Update(c) && config_view(c) == config_view(config)
            } else {
                a matches TopicDdlAction::Reply(r) && text_of(r) == Err::<Seq<char>, Seq<char>>(quoted(name@, " does not exist"@))
            },
            (TopicDdlStatement::AlterTopic { .. }, TopicDdlEvent::Updated(i)) => a matches TopicDdlAction::Reply(r) && text_of(r)
                == Ok::<Seq<char>, Seq<char>>(quoted(i.name@, " altered successfully"@)),
            (TopicDdlStatement::DropTopic { name, if_exists }, TopicDdlEvent::Exists(exists)) => if exists {
                a matches TopicDdlAction::Delete(n) && n@ == name@
            } else {
                a matches TopicDdlAction::Reply(r) && text_of(r) == if if_exists {
                    Ok::<Seq<char>, Seq<char>>(quoted(name@, " does not exist"@))
                } else {
                    Err::<Seq<char>, Seq<char>>(quoted(name@, " does not exist"@))
                }
            },
            (TopicDdlStatement::DropTopic { name, .. }, TopicDdlEvent::Deleted) => a matches TopicDdlAction::Reply(r) && text_of(r)
                == Ok::<Seq<char>, Seq<char>>(quoted(name@, " dropped successfully"@)),
            _ => false,
        },
{
    match event {
        TopicDdlEvent::Failed(e) => {
            return TopicDdlAction::Reply(Err(copy_string(e)));
        },
        _ => {},
    }
    match statement {
        TopicDdlStatement::ShowTopics => match event {
            TopicDdlEvent::Listed(v) => TopicDdlAction::Reply(Ok(listing(v))),
            _ => TopicDdlAction::List,
        },
        TopicDdlStatement::CreateTopic { name, if_not_exists, config } => match event {
            TopicDdlEvent::Exists(exists) => {
                if *exists {
                    let m = message(name.as_str(), " already exists");
                    if *if_not_exists { TopicDdlAction::Reply(Ok(m)) } else { TopicDdlAction::Reply(Err(m)) }
                } else {
                    TopicDdlAction::Create(copy_config(config))
                }
            },
            TopicDdlEvent::Created(i) => {
                let mut cs = chars_of(" created successfully with ");
                append_chars(&mut cs, i64_to_decimal(i.partitions as i64).as_str());
                append_chars(&mut cs, " partitions and replication factor ");
                append_chars(&mut cs, i64_to_decimal(i.replication_factor as i64).as_str());
                let rest = string_from_chars(&cs);
                TopicDdlAction::Reply(Ok(message(i.name.as_str(), rest.as_str())))
            },
            _ => TopicDdlAction::CheckExists(copy_string(name)),
        },
        TopicDdlStatement::AlterTopic { name, config } => match event {
            TopicDdlEvent::Exists(exists) => {
                if *exists {
                    TopicDdlAction::Update(copy_config(config))
                } else {
                    TopicDdlAction::Reply(Err(message(name.as_str(), " does not exist")))
                }
            },
            TopicDdlEvent::Updated(i) => TopicDdlAction::Reply(Ok(message(i.name.as_str(), " altered successfully"))),
            _ => TopicDdlAction::CheckExists(copy_string(name)),
        },
        TopicDdlStatement::DropTopic { name, if_exists } => match event {
            TopicDdlEvent::Exists(exists) => {
                if *exists {
                    TopicDdlAction::Delete(copy_string(name))
                } else {
                    let m = message(name.as_str(), " does not exist");
                    if *if_exists { TopicDdlAction::Reply(Ok(m)) } else { TopicDdlAction::Reply(Err(m)) }
                }
            },
            TopicDdlEvent::Deleted => TopicDdlAction::Reply(Ok(message(name.as_str(), " dropped successfully"))),
            _ => TopicDdlAction::CheckExists(copy_string(name)),
        },
    }
}

/// What the limits of a quota manager say of settings: the limit for all
/// topics is checked first, then the topic's own; `None` when both allow
/// them.
pub open spec fn limits_verdict(q: TopicQuotaManager, c: TopicConfig) -> Option<Seq<char>> {
    match (if q.limits().contains_key("*"@) { limit_violation(c, q.limits()["*"@]) } else { None }) {
        Some(m) => Some(m),
        None => if q.limits().contains_key(c.name@) {
            limit_violation(c, q.limits()[c.name@])
        } else {
            None
        },
    }
}

/// Topic administration: where the cluster is, and the managers of limits
/// and permissions that it consults before changing a topic. The change
/// itself is the cluster's work.
pub struct TopicAdmin {
    server: String,
    quota_manager: Option<TopicQuotaManager>,
    permission_manager: Option<TopicPermissionManager>,
}

impl TopicAdmin {
    pub closed spec fn server(&self) -> Seq<char> {
        self.server@
    }

    /// The manager of limits consulted, if any.
    pub closed spec fn quotas(&self) -> Option<TopicQuotaManager> {
        self.quota_manager
    }

    /// The manager of permissions consulted, if any.
    pub closed spec fn permissions(&self) -> Option<TopicPermissionManager> {
        self.permission_manager
    }

    pub closed spec fn wf(&self) -> bool {
        &&& (self.quota_manager matches Some(q) ==> q.wf())
        &&& (self.permission_manager matches Some(p) ==> p.wf())
    }

    /// What a permission check of `user` on `topic` gives: passed when no
    /// user is named or no permissions are managed.
    pub open spec fn permission_verdict(&self, topic: Seq<char>, user: Option<Seq<char>>, level: PermissionLevel) -> Result<(), Seq<char>> {
        match (user, self.permissions()) {
            (Some(u), Some(p)) => if grants(p.level_of(topic, u), level) {
                Ok(())
            } else {
                Err("User "@ + u + " does not have "@ + level_name(level) + " permission on topic "@ + topic)
            },
            _ => Ok(()),
        }
    }

    /// What the limits say of settings: passed when no limits are managed.
    pub open spec fn limits_check(&self, c: TopicConfig) -> Option<Seq<char>> {
        match self.quotas() {
            Some(q) => limits_verdict(q, c),
            None => None,
        }
    }

    /// Administration of the cluster at `server`, consulting no managers.
    pub fn new(server: &str) -> (a: Self)
        ensures
            a.wf(),
            a.server() == server@,
            a.quotas() is None,
            a.permissions() is None,
    {
        TopicAdmin { server: string_from_chars(&chars_of(server)), quota_manager: None, permission_manager: None }
    }

    /// The same, consulting `quota_manager` for limits.
    pub fn with_quota_manager(self, quota_manager: TopicQuotaManager) -> (a: Self)
        requires
            self.wf(),
            quota_manager.wf(),
        ensures
            a.wf(),
            a.server() == self.server(),
            a.quotas() == Some(quota_manager),
            a.permissions() == self.permissions(),
    {
        TopicAdmin { server: self.server, quota_manager: Some(quota_manager), permission_manager: self.permission_manager }
    }

    /// The same, consulting `permission_manager` for permissions.
    pub fn with_permission_manager(self, permission_manager: TopicPermissionManager) -> (a: Self)
        requires
            self.wf(),
            permission_manager.wf(),
        ensures
            a.wf(),
            a.server() == self.server(),
            a.quotas() == self.quotas(),
            a.permissions() == Some(permission_manager),
    {
        TopicAdmin { server: self.server, quota_manager: self.quota_manager, permission_manager: Some(permission_manager) }
    }

    /// Whether `user` holds `level` on `topic`; passed when no permissions
    /// are managed.
    pub fn check_permission(&self, topic_name: &str, user_id: &str, level: PermissionLevel) -> (r: Result<(), String>)
        requires
            self.wf(),
        ensures
            match self.permission_verdict(topic_name@, Some(user_id@), level) {
                Ok(()) => r is Ok,
                Err(m) => r matches Err(e) && e@ == m,
            },
    {
        match &self.permission_manager {
            Some(p) => p.check_permission(topic_name, user_id, level),
            None => Ok(()),
        }
    }

    fn check_user(&self, topic_name: &str, user_id: Option<&str>, level: PermissionLevel) -> (r: Result<(), String>)
        requires
            self.wf(),
        ensures
            match self.permission_verdict(topic_name@, match user_id { Some(u) => Some(u@), None => None }, level) {
                Ok(()) => r is Ok,
                Err(m) => r matches Err(e) && e@ == m,
            },
    {
        match user_id {
            Some(u) => self.check_permission(topic_name, u, level),
            None => Ok(()),
        }
    }

    fn check_limits(&self, config: &TopicConfig) -> (r: Result<(), String>)
        requires
            self.wf(),
        ensures
            match self.limits_check(*config) {
                None => r is Ok,
                Some(m) => r matches Err(e) && e@ == m,
            },
    {
        match &self.quota_manager {
            Some(q) => q.validate_topic_config(config),
            None => Ok(()),
        }
    }

    /// Whether a topic may be created with `config` by `user_id`, given
    /// whether it `exists`: an existing topic is refused; then the user
    /// must administer the topic, and the settings must keep to the
    /// limits.
    pub fn create_topic_check(&self, config: &TopicConfig, user_id: Option<&str>, exists: bool) -> (r: Result<(), String>)
        requires
            self.wf(),
        ensures
            exists ==> (r matches Err(e) && e@ == quoted(config.name@, " already exists"@)),
            !exists ==> match self.permission_verdict(config.name@, match user_id { Some(u) => Some(u@), None => None }, PermissionLevel::Admin) {
                Err(m) => r matches Err(e) && e@ == m,
                Ok(()) => match self.limits_check(*config) {
                    Some(m) => r matches Err(e) && e@ == m,
                    None => r is Ok,
                },
            },
    {
        if exists {
            return Err(message(config.name.as_str(), " already exists"));
        }
        match self.check_user(config.name.as_str(), user_id, PermissionLevel::Admin) {
            Err(e) => Err(e),
            Ok(()) => self.check_limits(config),
        }
    }

    /// Whether a topic may be changed to `config` by `user_id`, given
    /// whether it `exists`: a missing topic is refused; then the user must
    /// be allowed to write to the topic, and the settings must keep to the
    /// limits.
    pub fn update_topic_check(&self, config: &TopicConfig, user_id: Option<&str>, exists: bool) -> (r: Result<(), String>)
        requires
            self.wf(),
        ensures
            !exists ==> (r matches Err(e) && e@ == quoted(config.name@, " does not exist"@)),
            exists ==> match self.permission_verdict(config.name@, match user_id { Some(u) => Some(u@), None => None }, PermissionLevel::Write) {
                Err(m) => r matches Err(e) && e@ == m,
                Ok(()) => match self.limits_check(*config) {
                    Some(m) => r matches Err(e) && e@ == m,
                    None => r is Ok,
                },
            },
    {
        if !exists {
            return Err(message(config.name.as_str(), " does not exist"));
        }
        match self.check_user(config.name.as_str(), user_id, PermissionLevel::Write) {
            Err(e) => Err(e),
            Ok(()) => self.check_limits(config),
        }
    }

    /// Whether topic `name` may be deleted by `user_id`, given whether it
    /// `exists`: a missing topic is refused; then the user must administer
    /// the topic.
    pub fn delete_topic_check(&self, name: &str, user_id: Option<&str>, exists: bool) -> (r: Result<(), String>)
        requires
            self.wf(),
        ensures
            !exists ==> (r matches Err(e) && e@ == quoted(name@, " does not exist"@)),
            exists ==> match self.permission_verdict(name@, match user_id { Some(u) => Some(u@), None => None }, PermissionLevel::Admin) {
                Err(m) => r matches Err(e) && e@ == m,
                Ok(()) => r is Ok,
            },
    {
        if !exists {
            return Err(message(name, " does not exist"));
        }
        self.check_user(name, user_id, PermissionLevel::Admin)
    }
}

} // verus!
