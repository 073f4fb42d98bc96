//! Who may read, write or administer which topic.

use vstd::prelude::*;
use crate::scaling::copy_string;
use crate::strmap::StringMap;
use crate::text::{append_chars, chars_of, string_from_chars};

verus! {

/// A level of access to a topic; each level includes the ones below it.
#[derive(Debug, Clone, Copy, PartialEq, Eq, Structural)]
pub enum PermissionLevel {
    Read,
    Write,
    Admin,
}

/// The rank of a level: read 0, write 1, admin 2.
pub open spec fn rank(p: PermissionLevel) -> int {
    match p {
        PermissionLevel::Read => 0,
        PermissionLevel::Write => 1,
        PermissionLevel::Admin => 2,
    }
}

/// `p` grants everything that `q` grants.
pub open spec fn grants(p: PermissionLevel, q: PermissionLevel) -> bool {
    rank(q) <= rank(p)
}

impl PermissionLevel {
    /// Whether this level includes `other`: admin includes every level,
    /// write includes read and write, read includes only read.
    pub fn includes(&self, other: &PermissionLevel) -> (b: bool)
        ensures
            b == grants(*self, *other),
    {
        match (self, other) {
            (PermissionLevel::Admin, _) => true,
            (PermissionLevel::Write, PermissionLevel::Read) => true,
            (PermissionLevel::Write, PermissionLevel::Write) => true,
            (PermissionLevel::Read, PermissionLevel::Read) => true,
            _ => false,
        }
    }
}

/// The role of a user.
#[derive(Debug, Clone, Copy, PartialEq, Eq, Structural)]
pub enum UserRole {
    User,
    Admin,
}

/// The level a role has where nothing else is set.
pub open spec fn role_default(r: UserRole) -> PermissionLevel {
    match r {
        UserRole::User => PermissionLevel::Read,
        UserRole::Admin => PermissionLevel::Admin,
    }
}

impl UserRole {
    /// Users read; administrators administer.
    pub fn default_permission(&self) -> (p: PermissionLevel)
        ensures
            p == role_default(*self),
    {
        match self {
            UserRole::User => PermissionLevel::Read,
            UserRole::Admin => PermissionLevel::Admin,
        }
    }
}

/// One user's level on one topic.
#[derive(Debug, Clone)]
pub struct TopicPermission {
    pub topic_name: String,
    pub user_id: String,
    pub permission: PermissionLevel,
}

/// The name of a level, as it is shown in messages.
pub open spec fn level_name(p: PermissionLevel) -> Seq<char> {
    match p {
        PermissionLevel::Read => "Read"@,
        PermissionLevel::Write => "Write"@,
        PermissionLevel::Admin => "Admin"@,
    }
}

fn level_text(p: PermissionLevel) -> (t: &'static str)
    ensures
        t@ == level_name(p),
{
    match p {
        PermissionLevel::Read => "Read",
        PermissionLevel::Write => "Write",
        PermissionLevel::Admin => "Admin",
    }
}

/// The roles of users and their levels on topics.
pub struct TopicPermissionManager {
    user_roles: StringMap<UserRole>,
    topic_permissions: StringMap<StringMap<PermissionLevel>>,
}

impl TopicPermissionManager {
    /// The role set for each user.
    pub closed spec fn roles(&self) -> Map<Seq<char>, UserRole> {
        self.user_roles.view()
    }

    /// The topics with levels set.
    pub closed spec fn topics(&self) -> Set<Seq<char>> {
        self.topic_permissions.view().dom()
    }

    /// The level set for `user` on `topic`, if any.
    pub closed spec fn explicit(&self, topic: Seq<char>, user: Seq<char>) -> Option<PermissionLevel> {
        if self.topic_permissions.view().contains_key(topic)
            && self.topic_permissions.view()[topic].view().contains_key(user) {
            Some(self.topic_permissions.view()[topic].view()[user])
        } else {
            None
        }
    }

    pub closed spec fn wf(&self) -> bool {
        &&& self.user_roles.wf()
        &&& self.topic_permissions.wf()
        &&& forall|t: Seq<char>| #[trigger] self.topic_permissions.view().contains_key(t)
            ==> self.topic_permissions.view()[t].wf()
    }

    /// The role of a user: the one set, or a plain user.
    pub open spec fn role_of(&self, user: Seq<char>) -> UserRole {
        if self.roles().contains_key(user) {
            self.roles()[user]
        } else {
            UserRole::User
        }
    }

    /// The level of a user on a topic: administrators administer
    /// everything; others have the level set for them on the topic, or
    /// their role's level.
    pub open spec fn level_of(&self, topic: Seq<char>, user: Seq<char>) -> PermissionLevel {
        if self.role_of(user) == UserRole::Admin {
            PermissionLevel::Admin
        } else {
            match self.explicit(topic, user) {
                Some(p) => p,
                None => role_default(self.role_of(user)),
            }
        }
    }

    /// A topic is among a user's accessible topics with the `required`
    /// level: every topic for an administrator; for anyone else, a topic
    /// where a level including `required` is set for them.
    pub open spec fn may_access(&self, topic: Seq<char>, user: Seq<char>, required: PermissionLevel) -> bool {
        self.role_of(user) == UserRole::Admin || match self.explicit(topic, user) {
            Some(p) => grants(p, required),
            None => false,
        }
    }

    /// No roles and no levels.
    pub fn new() -> (m: Self)
        ensures
            m.wf(),
            m.roles() == Map::<Seq<char>, UserRole>::empty(),
            m.topics() == Set::<Seq<char>>::empty(),
            forall|t: Seq<char>, u: Seq<char>| #[trigger] m.explicit(t, u) is None,
    {
        TopicPermissionManager { user_roles: StringMap::new(), topic_permissions: StringMap::new() }
    }

    /// Gives a user a role.
    pub fn set_user_role(&mut self, user_id: &str, role: UserRole)
        requires
            old(self).wf(),
        ensures
            final(self).wf(),
            final(self).roles() == old(self).roles().insert(user_id@, role),
            final(self).topics() == old(self).topics(),
            forall|t: Seq<char>, u: Seq<char>| #[trigger] final(self).explicit(t, u) == old(self).explicit(t, u),
    {
        self.user_roles.insert(user_id.to_owned(), role);
    }

    /// The role of a user: the one set, or a plain user.
    pub fn get_user_role(&self, user_id: &str) -> (r: UserRole)
        requires
            self.wf(),
        ensures
            r == self.role_of(user_id@),
    {
        match self.user_roles.get(user_id) {
            Some(r) => *r,
            None => UserRole::User,
        }
    }

    /// Sets the level of a user on a topic.
    pub fn set_topic_permission(&mut self, topic_name: &str, user_id: &str, permission: PermissionLevel) -> (r: Result<(), String>)
        requires
            old(self).wf(),
        ensures
            r is Ok,
            final(self).wf(),
            final(self).roles() == old(self).roles(),
            final(self).topics() == old(self).topics().insert(topic_name@),
            forall|t: Seq<char>, u: Seq<char>| #[trigger] final(self).explicit(t, u) == if t == topic_name@ && u == user_id@ {
                Some(permission)
            } else {
                old(self).explicit(t, u)
            },
    {
        let ghost before = self.topic_permissions.view();
        proof {
            self.topic_permissions.lemma_key_seq_contains(topic_name@);
        }
        let mut users = match self.topic_permissions.remove(topic_name) {
            Some(m) => m,
            None => StringMap::new(),
        };
        let ghost users_before = users.view();
        users.insert(user_id.to_owned(), permission);
        let ghost mid = self.topic_permissions.view();
        self.topic_permissions.insert(topic_name.to_owned(), users);
        proof {
            assert forall|t: Seq<char>| #[trigger] self.topic_permissions.view().contains_key(t)
                implies self.topic_permissions.view()[t].wf() by {
                if t != topic_name@ {
                    assert(before.contains_key(t));
                }
            }
            assert(self.topics() =~= before.dom().insert(topic_name@));
        }
        Ok(())
    }

    /// The level of a user on a topic.
    pub fn get_topic_permission(&self, topic_name: &str, user_id: &str) -> (p: PermissionLevel)
        requires
            self.wf(),
        ensures
            p == self.level_of(topic_name@, user_id@),
    {
        let role = self.get_user_role(user_id);
        if role == UserRole::Admin {
            return PermissionLevel::Admin;
        }
        match self.topic_permissions.get(topic_name) {
            Some(users) => match users.get(user_id) {
                Some(p) => {
                    return *p;
                },
                None => {},
            },
            None => {},
        }
        role.default_permission()
    }

    /// Fails unless the user's level on the topic includes `required_permission`.
    pub fn check_permission(&self, topic_name: &str, user_id: &str, required_permission: PermissionLevel) -> (r: Result<(), String>)
        requires
            self.wf(),
        ensures
            r is Ok <==> grants(self.level_of(topic_name@, user_id@), required_permission),
            r matches Err(e) ==> e@ == "User "@ + user_id@ + " does not have "@ + level_name(required_permission)
                + " permission on topic "@ + topic_name@,
    {
        let permission = self.get_topic_permission(topic_name, user_id);
        if !permission.includes(&required_permission) {
            let mut cs = chars_of("User ");
            append_chars(&mut cs, user_id);
            append_chars(&mut cs, " does not have ");
            append_chars(&mut cs, level_text(required_permission));
            append_chars(&mut cs, " permission on topic ");
            append_chars(&mut cs, topic_name);
            return Err(string_from_chars(&cs));
        }
        Ok(())
    }

    /// The topics with levels set that the user may access with the
    /// required level, each once: all of them for an administrator, and
    /// otherwise those where the user's own level includes the required one.
    pub fn get_accessible_topics(&self, user_id: &str, required_permission: PermissionLevel) -> (r: Vec<String>)
        requires
            self.wf(),
        ensures
            forall|j: int| 0 <= j < r@.len() ==> self.topics().contains((#[trigger] r@[j])@)
                && self.may_access(r@[j]@, user_id@, required_permission),
            forall|t: Seq<char>| #[trigger] self.topics().contains(t) && self.may_access(t, user_id@, required_permission)
                ==> exists|j: int| 0 <= j < r@.len() && (#[trigger] r@[j])@ == t,
            forall|a: int, b: int| 0 <= a < b < r@.len() ==> (#[trigger] r@[a])@ != (#[trigger] r@[b])@,
    {
        let role = self.get_user_role(user_id);
        let n = self.topic_permissions.len();
        let mut r: Vec<String> = Vec::new();
        let mut i: usize = 0;
        proof {
            self.topic_permissions.lemma_keys_distinct();
        }
        while i < n
            invariant
                0 <= i <= n,
                n == self.topic_permissions.key_seq().len(),
                self.wf(),
                self.topic_permissions.key_seq().no_duplicates(),
                role == self.role_of(user_id@),
                forall|j: int| 0 <= j < r@.len() ==> self.topic_permissions.key_seq().subrange(0, i as int).contains((#[trigger] r@[j])@)
                    && self.may_access(r@[j]@, user_id@, required_permission),
                forall|q: int| 0 <= q < i && self.may_access(#[trigger] self.topic_permissions.key_seq()[q], user_id@, required_permission)
                    ==> exists|j: int| 0 <= j < r@.len() && (#[trigger] r@[j])@ == self.topic_permissions.key_seq()[q],
                forall|a: int, b: int| 0 <= a < b < r@.len() ==> (#[trigger] r@[a])@ != (#[trigger] r@[b])@,
            decreases n - i,
        {
            let (topic, users) = self.topic_permissions.entry_at(i);
            let keep = if role == UserRole::Admin {
                true
            } else {
                match users.get(user_id) {
                    Some(p) => p.includes(&required_permission),
                    None => false,
                }
            };
            let ghost before = r@;
            let ghost ks = self.topic_permissions.key_seq();
            if keep {
                r.push(copy_string(topic));
            }
            proof {
                assert(keep == self.may_access(topic@, user_id@, required_permission));
                assert forall|j: int| 0 <= j < r@.len() implies ks.subrange(0, i as int + 1).contains((#[trigger] r@[j])@)
                    && self.may_access(r@[j]@, user_id@, required_permission) by {
                    if j < before.len() {
                        assert(r@[j] == before[j]);
                        let sub = ks.subrange(0, i as int);
                        let q = choose|q: int| 0 <= q < sub.len() && #[trigger] sub[q] == before[j]@;
                        assert(ks.subrange(0, i as int + 1)[q] == sub[q]);
                    } else {
                        assert(ks.subrange(0, i as int + 1)[i as int] == topic@);
                    }
                }
                assert forall|q: int| 0 <= q < i + 1 && self.may_access(#[trigger] ks[q], user_id@, required_permission)
                    implies exists|j: int| 0 <= j < r@.len() && (#[trigger] r@[j])@ == ks[q] by {
                    if q == i {
                        assert(r@[r@.len() - 1]@ == ks[q]);
                    } else {
                        let j = choose|j: int| 0 <= j < before.len() && (#[trigger] before[j])@ == ks[q];
                        assert(r@[j] == before[j]);
                    }
                }
                assert forall|a: int, b: int| 0 <= a < b < r@.len() implies (#[trigger] r@[a])@ != (#[trigger] r@[b])@ by {
                    if b < before.len() {
                        assert(r@[a] == before[a] && r@[b] == before[b]);
                    } else if a < before.len() {
                        assert(r@[a] == before[a]);
                        let sub = ks.subrange(0, i as int);
                        let q = choose|q: int| 0 <= q < sub.len() && #[trigger] sub[q] == before[a]@;
                        assert(ks[q] == before[a]@);
                        assert(r@[b]@ == ks[i as int]);
                    }
                }
            }
            i = i + 1;
        }
        proof {
            let ks = self.topic_permissions.key_seq();
            assert forall|t: Seq<char>| #[trigger] self.topics().contains(t) && self.may_access(t, user_id@, required_permission)
                implies exists|j: int| 0 <= j < r@.len() && (#[trigger] r@[j])@ == t by {
                self.topic_permissions.lemma_key_seq_contains(t);
                let q = choose|q: int| 0 <= q < ks.len() && ks[q] == t;
                assert(self.may_access(ks[q], user_id@, required_permission));
            }
            assert forall|j: int| 0 <= j < r@.len() implies self.topics().contains((#[trigger] r@[j])@) by {
                let sub = ks.subrange(0, n as int);
                let q = choose|q: int| 0 <= q < sub.len() && #[trigger] sub[q] == r@[j]@;
                assert(ks[q] == r@[j]@);
                assert(ks.contains(r@[j]@));
                self.topic_permissions.lemma_key_seq_contains(r@[j]@);
            }
        }
        r
    }
}

/// The levels are ordered: every level includes itself; a level that
/// includes a second one includes whatever the second includes; two levels
/// that include each other are the same; of any two levels one includes the
/// other. Admin includes every level and every level includes Read.
pub proof fn lemma_levels_are_ordered(a: PermissionLevel, b: PermissionLevel, c: PermissionLevel)
    ensures
        grants(a, a),
        grants(a, b) && grants(b, c) ==> grants(a, c),
        grants(a, b) && grants(b, a) ==> a == b,
        grants(a, b) || grants(b, a),
        grants(PermissionLevel::Admin, a),
        grants(a, PermissionLevel::Read),
{
}

/// An administrator passes every check on every topic.
pub proof fn lemma_administrators_pass_every_check(m: TopicPermissionManager, topic: Seq<char>, user: Seq<char>, required: PermissionLevel)
    requires
        m.role_of(user) == UserRole::Admin,
    ensures
        m.level_of(topic, user) == PermissionLevel::Admin,
        grants(m.level_of(topic, user), required),
        m.may_access(topic, user, required),
{
}

/// After a level is set for a user on a topic, a user who is not an
/// administrator has exactly that level there, and every other user and
/// topic keeps its level.
pub proof fn lemma_set_then_get(
    before: TopicPermissionManager,
    after: TopicPermissionManager,
    topic: Seq<char>,
    user: Seq<char>,
    level: PermissionLevel,
)
    requires
        after.roles() == before.roles(),
        forall|t: Seq<char>, u: Seq<char>| #[trigger] after.explicit(t, u) == if t == topic && u == user {
            Some(level)
        } else {
            before.explicit(t, u)
        },
    ensures
        after.level_of(topic, user) == if before.role_of(user) == UserRole::Admin {
            PermissionLevel::Admin
        } else {
            level
        },
        forall|t: Seq<char>, u: Seq<char>| !(t == topic && u == user) ==> #[trigger] after.level_of(t, u) == before.level_of(t, u),
{
    assert(after.explicit(topic, user) == Some(level));
    assert forall|t: Seq<char>, u: Seq<char>| !(t == topic && u == user) implies #[trigger] after.level_of(t, u) == before.level_of(t, u) by {
        assert(after.explicit(t, u) == before.explicit(t, u));
    }
}

} // verus!
