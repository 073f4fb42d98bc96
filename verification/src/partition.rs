//! Placing the partitions of a topic on the nodes of a cluster, and the
//! cluster metadata the placement is read from.

use vstd::prelude::*;
use crate::scaling::copy_string;
use crate::strmap::str_eq;
use crate::text::{append_chars, chars_of, decimal, i64_to_decimal, signed_decimal, string_from_chars, u64_to_decimal};

verus! {

/// A node of the cluster.
#[derive(Debug, Clone, Copy, PartialEq, Eq)]
pub struct Broker {
    id: i32,
}

impl Broker {
    pub closed spec fn spec_id(&self) -> i32 {
        self.id
    }

    pub fn id(&self) -> (i: i32)
        ensures
            i == self.spec_id(),
    {
        self.id
    }
}

/// A partition of a topic: its leader and its replicas.
#[derive(Debug, Clone)]
pub struct Partition {
    id: i32,
    leader: Option<Broker>,
    replicas: Vec<Broker>,
}

impl Partition {
    pub closed spec fn spec_id(&self) -> i32 {
        self.id
    }

    pub closed spec fn spec_leader(&self) -> Option<Broker> {
        self.leader
    }

    pub closed spec fn spec_replicas(&self) -> Seq<Broker> {
        self.replicas@
    }

    pub fn id(&self) -> (i: i32)
        ensures
            i == self.spec_id(),
    {
        self.id
    }

    pub fn leader(&self) -> (l: Option<&Broker>)
        ensures
            match self.spec_leader() {
                Some(b) => l == Some(&b),
                None => l is None,
            },
    {
        match &self.leader {
            Some(b) => Some(b),
            None => None,
        }
    }

    pub fn replicas(&self) -> (r: &[Broker])
        ensures
            r@ == self.spec_replicas(),
    {
        self.replicas.as_slice()
    }
}

/// A topic and its partitions.
#[derive(Debug, Clone)]
pub struct Topic {
    name: String,
    partitions: Vec<Partition>,
}

impl Topic {
    pub closed spec fn spec_name(&self) -> Seq<char> {
        self.name@
    }

    pub closed spec fn spec_partitions(&self) -> Seq<Partition> {
        self.partitions@
    }

    pub fn name(&self) -> (n: &str)
        ensures
            n@ == self.spec_name(),
    {
        self.name.as_str()
    }

    pub fn partitions(&self) -> (p: &[Partition])
        ensures
            p@ == self.spec_partitions(),
    {
        self.partitions.as_slice()
    }
}

/// The nodes and topics of a cluster.
#[derive(Debug, Clone)]
pub struct Metadata {
    brokers: Vec<Broker>,
    topics: Vec<Topic>,
}

impl Metadata {
    pub closed spec fn spec_brokers(&self) -> Seq<Broker> {
        self.brokers@
    }

    pub closed spec fn spec_topics(&self) -> Seq<Topic> {
        self.topics@
    }

    pub fn brokers(&self) -> (b: &[Broker])
        ensures
            b@ == self.spec_brokers(),
    {
        self.brokers.as_slice()
    }

    pub fn topics(&self) -> (t: &[Topic])
        ensures
            t@ == self.spec_topics(),
    {
        self.topics.as_slice()
    }
}

/// A stand-in for the cluster's administration client: it answers with a
/// fixed three-node cluster.
#[derive(Debug)]
pub struct AdminClient {
    server: String,
}

/// Whether `p` is partition `id`, led by node `leader`, with replicas on
/// nodes `first` and `second`, in that order.
pub open spec fn stub_partition(p: Partition, id: i32, leader: i32, first: i32, second: i32) -> bool {
    &&& p.spec_id() == id
    &&& p.spec_leader() matches Some(b) && b.spec_id() == leader
    &&& p.spec_replicas().len() == 2
    &&& p.spec_replicas()[0].spec_id() == first
    &&& p.spec_replicas()[1].spec_id() == second
}

/// A partition with a leader and two replicas, given by node numbers.
fn mock_partition(id: i32, leader: i32, first: i32, second: i32) -> (p: Partition)
    ensures
        p.spec_id() == id,
        p.spec_leader() == Some(Broker { id: leader }),
        p.spec_replicas() == seq![Broker { id: first }, Broker { id: second }],
{
    let mut replicas: Vec<Broker> = Vec::new();
    replicas.push(Broker { id: first });
    replicas.push(Broker { id: second });
    proof {
        assert(replicas@ =~= seq![Broker { id: first }, Broker { id: second }]);
    }
    Partition { id, leader: Some(Broker { id: leader }), replicas }
}

impl AdminClient {
    pub closed spec fn spec_server(&self) -> Seq<char> {
        self.server@
    }

    pub fn new(server: &str) -> (c: Self)
        ensures
            c.spec_server() == server@,
    {
        AdminClient { server: server.to_owned() }
    }

    pub fn inner(&self) -> (c: &Self)
        ensures
            c == self,
    {
        self
    }

    /// The cluster's metadata: nodes 1, 2 and 3; for a named topic, that
    /// topic with partitions 0, 1, 2 led by nodes 1, 2, 3; otherwise the
    /// topics `topic1`, whose partitions 0 and 1 are led by nodes 1 and 2,
    /// and `topic2`, whose partitions 0 and 1 are led by nodes 3 and 1;
    /// each partition's replicas are its leader and the next node. The
    /// time limit is not used.
    pub fn fetch_metadata(&self, topic: Option<&str>, timeout_secs: u64) -> (r: Result<Metadata, String>)
        ensures
            r matches Ok(m) && m.spec_brokers().len() == 3
                && (forall|i: int| 0 <= i < 3 ==> (#[trigger] m.spec_brokers()[i]).spec_id() == i + 1)
                && match topic {
                    Some(name) => {
                        &&& m.spec_topics().len() == 1
                        &&& m.spec_topics()[0].spec_name() == name@
                        &&& m.spec_topics()[0].spec_partitions().len() == 3
                        &&& forall|i: int| 0 <= i < 3 ==> {
                            let part = #[trigger] m.spec_topics()[0].spec_partitions()[i];
                            &&& part.spec_id() == i
                            &&& part.spec_leader() matches Some(b) && b.spec_id() == i + 1
                            &&& part.spec_replicas().len() == 2
                            &&& part.spec_replicas()[0].spec_id() == i + 1
                            &&& part.spec_replicas()[1].spec_id() == (i + 1) % 3 + 1
                        }
                    },
                    None => {
                        &&& m.spec_topics().len() == 2
                        &&& m.spec_topics()[0].spec_name() == "topic1"@
                        &&& m.spec_topics()[1].spec_name() == "topic2"@
                        &&& m.spec_topics()[0].spec_partitions().len() == 2
                        &&& m.spec_topics()[1].spec_partitions().len() == 2
                        &&& stub_partition(m.spec_topics()[0].spec_partitions()[0], 0, 1, 1, 2)
                        &&& stub_partition(m.spec_topics()[0].spec_partitions()[1], 1, 2, 2, 3)
                        &&& stub_partition(m.spec_topics()[1].spec_partitions()[0], 0, 3, 3, 1)
                        &&& stub_partition(m.spec_topics()[1].spec_partitions()[1], 1, 1, 1, 2)
                    },
                },
    {
        let mut brokers: Vec<Broker> = Vec::new();
        brokers.push(Broker { id: 1 });
        brokers.push(Broker { id: 2 });
        brokers.push(Broker { id: 3 });
        let mut topics: Vec<Topic> = Vec::new();
        match topic {
            Some(topic_name) => {
                let mut partitions: Vec<Partition> = Vec::new();
                partitions.push(mock_partition(0, 1, 1, 2));
                partitions.push(mock_partition(1, 2, 2, 3));
                partitions.push(mock_partition(2, 3, 3, 1));
                topics.push(Topic { name: topic_name.to_owned(), partitions });
            },
            None => {
                let mut first: Vec<Partition> = Vec::new();
                first.push(mock_partition(0, 1, 1, 2));
                first.push(mock_partition(1, 2, 2, 3));
                topics.push(Topic { name: "topic1".to_owned(), partitions: first });
                let mut second: Vec<Partition> = Vec::new();
                second.push(mock_partition(0, 3, 3, 1));
                second.push(mock_partition(1, 1, 1, 2));
                topics.push(Topic { name: "topic2".to_owned(), partitions: second });
            },
        }
        Ok(Metadata { brokers, topics })
    }
}

/// The part a node plays for a partition.
#[derive(Debug, Clone, Copy, PartialEq, Eq, Structural)]
pub enum PartitionRole {
    Leader,
    Follower,
}

/// One node's part in one partition.
#[derive(Debug, Clone, PartialEq, Eq)]
pub struct PartitionAssignment {
    pub partition_id: i32,
    pub node_id: String,
    pub role: PartitionRole,
    /// Seconds since the Unix epoch.
    pub assigned_at: u64,
}

pub type AssignmentView = (i32, Seq<char>, PartitionRole, u64);

pub open spec fn assignment_view(a: PartitionAssignment) -> AssignmentView {
    (a.partition_id, a.node_id@, a.role, a.assigned_at)
}

pub open spec fn assignments_view(v: Seq<PartitionAssignment>) -> Seq<AssignmentView> {
    v.map_values(|a: PartitionAssignment| assignment_view(a))
}

/// The replicas of one partition under round-robin placement: the leader
/// on node `p mod n`, and followers on the next nodes in turn, as many as
/// the replication factor asks for beyond the leader.
pub open spec fn round_robin_partition(nodes: Seq<Seq<char>>, p: int, rf: int, now: u64) -> Seq<AssignmentView> {
    let n = nodes.len() as int;
    Seq::new(if rf > 1 { rf as nat } else { 1 }, |k: int| if k == 0 {
        (p as i32, nodes[p % n], PartitionRole::Leader, now)
    } else {
        (p as i32, nodes[(p % n + k) % n], PartitionRole::Follower, now)
    })
}

/// Round-robin placement of partitions `0..parts`, partition by partition.
pub open spec fn round_robin(nodes: Seq<Seq<char>>, parts: int, rf: int, now: u64) -> Seq<AssignmentView>
    decreases parts,
{
    if parts <= 0 {
        seq![]
    } else {
        round_robin(nodes, parts - 1, rf, now) + round_robin_partition(nodes, parts - 1, rf, now)
    }
}

/// The replicas of one partition under the simple placement: the leader on
/// the first node and followers on the next ones, up to the replication
/// factor or the number of nodes.
pub open spec fn first_nodes_partition(nodes: Seq<Seq<char>>, p: int, rf: i16, now: u64) -> Seq<AssignmentView> {
    let bound = if rf > 1 {
        if rf < (nodes.len() as i16) { rf as int } else { (nodes.len() as i16) as int }
    } else {
        1
    };
    let count = if bound > 1 { bound } else { 1 };
    Seq::new(count as nat, |k: int| if k == 0 {
        (p as i32, nodes[0], PartitionRole::Leader, now)
    } else {
        (p as i32, nodes[k], PartitionRole::Follower, now)
    })
}

pub open spec fn first_nodes(nodes: Seq<Seq<char>>, parts: int, rf: i16, now: u64) -> Seq<AssignmentView>
    decreases parts,
{
    if parts <= 0 {
        seq![]
    } else {
        first_nodes(nodes, parts - 1, rf, now) + first_nodes_partition(nodes, parts - 1, rf, now)
    }
}

pub open spec fn names_view(v: Seq<String>) -> Seq<Seq<char>> {
    v.map_values(|s: String| s@)
}

/// Places each partition's leader on the nodes in turn and its followers on
/// the nodes after the leader's.
pub fn assign_partitions_round_robin(partitions: i32, replication_factor: i16, nodes: &[String], now: u64) -> (r: Vec<PartitionAssignment>)
    requires
        nodes@.len() > 0,
    ensures
        assignments_view(r@) == round_robin(names_view(nodes@), partitions as int, replication_factor as int, now),
{
    let n = nodes.len();
    let ghost names = names_view(nodes@);
    let mut r: Vec<PartitionAssignment> = Vec::new();
    let mut p: i32 = 0;
    while p < partitions
        invariant
            n == nodes@.len(),
            n > 0,
            names == names_view(nodes@),
            0 <= p,
            p <= partitions || p == 0,
            assignments_view(r@) == round_robin(names, p as int, replication_factor as int, now),
        decreases partitions - p,
    {
        let ghost before = assignments_view(r@);
        let leader = (p as usize) % n;
        let slot = PartitionAssignment { partition_id: p, node_id: copy_string(&nodes[leader]), role: PartitionRole::Leader, assigned_at: now };
        r.push(slot);
        let ghost per = round_robin_partition(names, p as int, replication_factor as int, now);
        proof {
            assert(names[leader as int] == nodes@[leader as int]@);
            assert(per[0] == assignment_view(slot));
            assert(assignments_view(r@) =~= before.push(assignment_view(slot)));
            assert(assignments_view(r@) =~= before + per.subrange(0, 1));
        }
        if replication_factor > 1 {
            let mut k: i16 = 1;
            while k < replication_factor
                invariant
                    n == nodes@.len(),
                    n > 0,
                    names == names_view(nodes@),
                    1 <= k <= replication_factor,
                    leader == (p as int) % (n as int),
                    0 <= p,
                    per == round_robin_partition(names, p as int, replication_factor as int, now),
                    assignments_view(r@) == before + per.subrange(0, k as int),
                decreases replication_factor - k,
            {
                let step = (k as usize) % n;
                let idx = if leader >= n - step { leader - (n - step) } else { leader + step };
                proof {
                    let (a, kk, nn, st) = (leader as int, k as int, n as int, step as int);
                    assert((a + kk) % nn == (a + kk % nn) % nn) by {
                        vstd::arithmetic::div_mod::lemma_add_mod_noop(a, kk, nn);
                        vstd::arithmetic::div_mod::lemma_small_mod(a as nat, nn as nat);
                    }
                    assert((a + st) % nn == if a + st >= nn { a + st - nn } else { a + st }) by (nonlinear_arith)
                        requires 0 <= a < nn, 0 <= st < nn;
                }
                let ghost mid = assignments_view(r@);
                let slot = PartitionAssignment { partition_id: p, node_id: copy_string(&nodes[idx]), role: PartitionRole::Follower, assigned_at: now };
                r.push(slot);
                proof {
                    assert(names[idx as int] == nodes@[idx as int]@);
                    assert(per[k as int] == (p as i32, names[idx as int], PartitionRole::Follower, now));
                    assert(assignments_view(r@) =~= mid.push(assignment_view(slot)));
                    assert(assignments_view(r@) =~= before + per.subrange(0, k as int + 1));
                }
                k = k + 1;
            }
            proof {
                assert(per.subrange(0, replication_factor as int) =~= per);
            }
        } else {
            proof {
                assert(per.subrange(0, 1) =~= per);
            }
        }
        proof {
            assert(assignments_view(r@) == before + per);
            assert(round_robin(names, p as int + 1, replication_factor as int, now) == before + per);
        }
        p = p + 1;
    }
    proof {
        if partitions < 0 {
            assert(round_robin(names, partitions as int, replication_factor as int, now) =~= seq![]);
            assert(round_robin(names, 0, replication_factor as int, now) =~= seq![]);
        }
    }
    r
}

/// Places each partition's leader on the first node and its followers on
/// the next nodes, up to the replication factor or the number of nodes.
pub fn assign_partitions_random(partitions: i32, replication_factor: i16, nodes: &[String], now: u64) -> (r: Vec<PartitionAssignment>)
    requires
        nodes@.len() > 0,
    ensures
        assignments_view(r@) == first_nodes(names_view(nodes@), partitions as int, replication_factor, now),
{
    let n = nodes.len();
    let ghost names = names_view(nodes@);
    let count_as_i16: i16 = #[verifier::truncate] (n as i16);
    let mut r: Vec<PartitionAssignment> = Vec::new();
    let mut p: i32 = 0;
    while p < partitions
        invariant
            n == nodes@.len(),
            n > 0,
            names == names_view(nodes@),
            count_as_i16 == (n as i16),
            0 <= p,
            p <= partitions || p == 0,
            assignments_view(r@) == first_nodes(names, p as int, replication_factor, now),
        decreases partitions - p,
    {
        let ghost before = assignments_view(r@);
        let ghost per = first_nodes_partition(names, p as int, replication_factor, now);
        let slot = PartitionAssignment { partition_id: p, node_id: copy_string(&nodes[0]), role: PartitionRole::Leader, assigned_at: now };
        r.push(slot);
        proof {
            assert(names[0] == nodes@[0]@);
            assert(per[0] == assignment_view(slot));
            assert(assignments_view(r@) =~= before.push(assignment_view(slot)));
            assert(assignments_view(r@) =~= before + per.subrange(0, 1));
        }
        if replication_factor > 1 {
            let bound: i16 = if replication_factor < count_as_i16 { replication_factor } else { count_as_i16 };
            proof {
                assert(count_as_i16 as int <= n as int) by (bit_vector)
                    requires count_as_i16 == (n as i16);
            }
            let mut k: i16 = 1;
            while k < bound
                invariant
                    n == nodes@.len(),
                    n > 0,
                    names == names_view(nodes@),
                    1 <= k,
                    k <= bound || k == 1,
                    bound <= replication_factor,
                    bound as int <= n,
                    replication_factor > 1,
                    bound == (if replication_factor < (n as i16) { replication_factor } else { (n as i16) }),
                    0 <= p,
                    per == first_nodes_partition(names, p as int, replication_factor, now),
                    assignments_view(r@) == before + per.subrange(0, k as int),
                decreases bound - k,
            {
                let ghost mid = assignments_view(r@);
                let slot = PartitionAssignment { partition_id: p, node_id: copy_string(&nodes[k as usize]), role: PartitionRole::Follower, assigned_at: now };
                r.push(slot);
                proof {
                    assert(names[k as int] == nodes@[k as int]@);
                    assert(per[k as int] == assignment_view(slot));
                    assert(assignments_view(r@) =~= mid.push(assignment_view(slot)));
                    assert(assignments_view(r@) =~= before + per.subrange(0, k as int + 1));
                }
                k = k + 1;
            }
            proof {
                assert(per.len() == if bound > 1 { bound as int } else { 1 });
                if bound > 1 {
                    assert(k == bound);
                    assert(per.subrange(0, bound as int) =~= per);
                } else {
                    assert(k == 1);
                    assert(per.subrange(0, 1) =~= per);
                }
            }
        } else {
            proof {
                assert(per.subrange(0, 1) =~= per);
            }
        }
        proof {
            assert(assignments_view(r@) == before + per);
            assert(first_nodes(names, p as int + 1, replication_factor, now) == before + per);
        }
        p = p + 1;
    }
    proof {
        if partitions < 0 {
            assert(first_nodes(names, partitions as int, replication_factor, now) =~= seq![]);
            assert(first_nodes(names, 0, replication_factor, now) =~= seq![]);
        }
    }
    r
}

/// Under round-robin placement each partition has one leader, first, and
/// the rest are followers; when the node names differ and the replication
/// factor is at most the number of nodes, no node holds two replicas of the
/// same partition.
pub proof fn lemma_round_robin_spreads_replicas(nodes: Seq<Seq<char>>, p: int, rf: int, now: u64)
    requires
        nodes.len() > 0,
        nodes.no_duplicates(),
        0 <= p,
        rf <= nodes.len(),
    ensures
        ({
            let per = round_robin_partition(nodes, p, rf, now);
            &&& per[0].2 == PartitionRole::Leader
            &&& forall|k: int| 1 <= k < per.len() ==> (#[trigger] per[k]).2 == PartitionRole::Follower
            &&& forall|k1: int, k2: int| 0 <= k1 < k2 < per.len() ==> (#[trigger] per[k1]).1 != (#[trigger] per[k2]).1
        }),
{
    let per = round_robin_partition(nodes, p, rf, now);
    let n = nodes.len() as int;
    let a = p % n;
    assert forall|k1: int, k2: int| 0 <= k1 < k2 < per.len() implies (#[trigger] per[k1]).1 != (#[trigger] per[k2]).1 by {
        assert(0 <= a < n);
        let i1 = (a + k1) % n;
        let i2 = (a + k2) % n;
        assert(i1 != i2) by (nonlinear_arith)
            requires 0 <= a < n, 0 <= k1 < k2 < n, i1 == (a + k1) % n, i2 == (a + k2) % n;
        assert(a % n == a) by (nonlinear_arith) requires 0 <= a < n;
        assert(per[k1].1 == nodes[i1]);
        assert(per[k2].1 == nodes[i2]);
        assert(0 <= i1 < n && 0 <= i2 < n) by (nonlinear_arith) requires n > 0, i1 == (a + k1) % n, i2 == (a + k2) % n;
    }
}

/// The rack of a node: the first character of its name, `default` for a
/// node without a name.
pub open spec fn rack_of(node: Seq<char>) -> Seq<char> {
    if node.len() == 0 {
        "default"@
    } else {
        seq![node[0]]
    }
}

/// The racks of the nodes, in the order they first appear.
pub open spec fn rack_ids(nodes: Seq<Seq<char>>) -> Seq<Seq<char>>
    decreases nodes.len(),
{
    if nodes.len() == 0 {
        seq![]
    } else {
        let earlier = rack_ids(nodes.drop_last());
        if earlier.contains(rack_of(nodes.last())) {
            earlier
        } else {
            earlier.push(rack_of(nodes.last()))
        }
    }
}

/// The nodes on rack `r`, in order.
pub open spec fn rack_members(nodes: Seq<Seq<char>>, r: Seq<char>) -> Seq<Seq<char>>
    decreases nodes.len(),
{
    if nodes.len() == 0 {
        seq![]
    } else if rack_of(nodes.last()) == r {
        rack_members(nodes.drop_last(), r).push(nodes.last())
    } else {
        rack_members(nodes.drop_last(), r)
    }
}

/// Each rack with its nodes, racks in the order they first appear.
pub open spec fn racks_of(nodes: Seq<Seq<char>>) -> Seq<(Seq<char>, Seq<Seq<char>>)> {
    rack_ids(nodes).map_values(|r: Seq<char>| (r, rack_members(nodes, r)))
}

pub open spec fn racks_view(v: Seq<(String, Vec<String>)>) -> Seq<(Seq<char>, Seq<Seq<char>>)> {
    v.map_values(|e: (String, Vec<String>)| (e.0@, names_view(e.1@)))
}

fn rack_id(node: &String) -> (r: String)
    ensures
        r@ == rack_of(node@),
{
    let cs = chars_of(node.as_str());
    if cs.len() == 0 {
        string_from_chars(&chars_of("default"))
    } else {
        let mut first: Vec<char> = Vec::new();
        first.push(cs[0]);
        proof {
            assert(first@ =~= seq![node@[0]]);
        }
        string_from_chars(&first)
    }
}

/// Where rack `r` is in `racks`, if it is there.
fn find_rack(racks: &Vec<(String, Vec<String>)>, r: &str) -> (found: Option<usize>)
    ensures
        match found {
            Some(j) => j < racks@.len() && racks@[j as int].0@ == r@,
            None => forall|m: int| 0 <= m < racks@.len() ==> (#[trigger] racks@[m]).0@ != r@,
        },
{
    let mut j: usize = 0;
    while j < racks.len()
        invariant
            0 <= j <= racks@.len(),
            forall|m: int| 0 <= m < j ==> (#[trigger] racks@[m]).0@ != r@,
        decreases racks.len() - j,
    {
        if str_eq(racks[j].0.as_str(), r) {
            return Some(j);
        }
        j = j + 1;
    }
    None
}

/// The nodes grouped by rack, racks in the order they first appear.
fn group_by_rack(nodes: &[String]) -> (racks: Vec<(String, Vec<String>)>)
    ensures
        racks_view(racks@) == racks_of(names_view(nodes@)),
        forall|i: int| 0 <= i < racks@.len() ==> (#[trigger] racks@[i]).1@.len() > 0,
        nodes@.len() > 0 ==> racks@.len() > 0,
{
    let ghost names = names_view(nodes@);
    let mut racks: Vec<(String, Vec<String>)> = Vec::new();
    let mut i: usize = 0;
    proof {
        assert(names.subrange(0, 0) =~= Seq::<Seq<char>>::empty());
        assert(racks_view(racks@) =~= racks_of(names.subrange(0, 0)));
    }
    while i < nodes.len()
        invariant
            0 <= i <= nodes@.len(),
            names == names_view(nodes@),
            racks_view(racks@) == racks_of(names.subrange(0, i as int)),
            rack_ids(names.subrange(0, i as int)).no_duplicates(),
            forall|j: int| 0 <= j < racks@.len() ==> (#[trigger] racks@[j]).1@.len() > 0,
            i > 0 ==> racks@.len() > 0,
        decreases nodes.len() - i,
    {
        let node = &nodes[i];
        let r = rack_id(node);
        let ghost prefix = names.subrange(0, i as int);
        let ghost next = names.subrange(0, i + 1);
        let ghost ids = rack_ids(prefix);
        proof {
            assert(next.drop_last() =~= prefix);
            assert(next.last() == node@);
            assert(racks_view(racks@).len() == ids.len());
        }
        let found = find_rack(&racks, r.as_str());
        let ghost old_racks = racks@;
        match found {
            Some(j) => {
                proof {
                    assert(racks_view(old_racks)[j as int].0 == ids[j as int]);
                    assert(ids.contains(rack_of(node@)));
                    assert(rack_ids(next) == ids);
                }
                let (id, mut members) = racks.remove(j);
                members.push(copy_string(node));
                racks.insert(j, (id, members));
                proof {
                    assert forall|m: int| 0 <= m < racks_view(racks@).len() implies
                        #[trigger] racks_view(racks@)[m] == racks_of(next)[m] by {
                        assert(racks_of(prefix)[m] == racks_view(old_racks)[m]);
                        if m == j {
                            assert(names_view(racks@[m].1@) =~= names_view(old_racks[m].1@).push(node@));
                        } else {
                            assert(racks@[m] == old_racks[m]);
                            assert(ids[m] != ids[j as int]);
                        }
                    }
                    assert(racks_view(racks@) =~= racks_of(next));
                }
            },
            None => {
                proof {
                    assert forall|m: int| 0 <= m < ids.len() implies ids[m] != rack_of(node@) by {
                        assert(racks_view(old_racks)[m].0 == ids[m]);
                        assert(old_racks[m].0@ != r@);
                    }
                    assert(!ids.contains(rack_of(node@)));
                    assert(rack_ids(next) == ids.push(rack_of(node@)));
                    assert(rack_members(prefix, rack_of(node@)) =~= Seq::<Seq<char>>::empty()) by {
                        lemma_members_of_absent_rack(prefix, rack_of(node@));
                    }
                }
                let mut members: Vec<String> = Vec::new();
                members.push(copy_string(node));
                racks.push((r, members));
                proof {
                    assert forall|m: int| 0 <= m < racks_view(racks@).len() implies
                        #[trigger] racks_view(racks@)[m] == racks_of(next)[m] by {
                        if m < old_racks.len() {
                            assert(racks_of(prefix)[m] == racks_view(old_racks)[m]);
                            assert(racks@[m] == old_racks[m]);
                            assert(ids[m] != rack_of(node@));
                        } else {
                            assert(names_view(racks@[m].1@) =~= seq![node@]);
                            assert(rack_members(prefix, rack_of(node@)).push(node@) =~= seq![node@]);
                        }
                    }
                    assert(racks_view(racks@) =~= racks_of(next));
                }
            },
        }
        i = i + 1;
    }
    proof {
        assert(names.subrange(0, nodes@.len() as int) =~= names);
    }
    racks
}

/// No node of `nodes` is on a rack that none of them has.
proof fn lemma_members_of_absent_rack(nodes: Seq<Seq<char>>, r: Seq<char>)
    requires
        !rack_ids(nodes).contains(r),
    ensures
        rack_members(nodes, r) == Seq::<Seq<char>>::empty(),
    decreases nodes.len(),
{
    if nodes.len() > 0 {
        let earlier = rack_ids(nodes.drop_last());
        if earlier.contains(r) {
            let k = choose|k: int| 0 <= k < earlier.len() && earlier[k] == r;
            if earlier.contains(rack_of(nodes.last())) {
                assert(rack_ids(nodes) == earlier);
            } else {
                assert(rack_ids(nodes)[k] == r);
            }
        } else {
            if rack_of(nodes.last()) == r {
                if earlier.contains(rack_of(nodes.last())) {
                } else {
                    assert(rack_ids(nodes)[earlier.len() as int] == r);
                }
            }
            lemma_members_of_absent_rack(nodes.drop_last(), r);
        }
    }
}

/// The nodes of the rack that leads partition `p`: racks take the lead in
/// turn.
pub open spec fn leader_rack_members(racks: Seq<(Seq<char>, Seq<Seq<char>>)>, p: int) -> Seq<Seq<char>> {
    racks[p % (racks.len() as int)].1
}

/// Where the leader of partition `p` is on its rack.
pub open spec fn leader_index(racks: Seq<(Seq<char>, Seq<Seq<char>>)>, p: int) -> int {
    p % (leader_rack_members(racks, p).len() as int)
}

/// The node of the `k`th follower of partition `p`: on the `k`th rack after
/// the leader's, the node at `p + k` in turn.
pub open spec fn rack_follower(racks: Seq<(Seq<char>, Seq<Seq<char>>)>, p: int, k: int) -> Seq<char> {
    let nr = racks.len() as int;
    let members = racks[(p % nr + k) % nr].1;
    members[(p + k) % (members.len() as int)]
}

/// Followers of partition `p` on the leader's own rack for the replica
/// slots `lo..hi`: for slot `s`, the node `s` places after the leader,
/// unless that is the leader; none when the rack has a single node.
pub open spec fn same_rack_followers(
    racks: Seq<(Seq<char>, Seq<Seq<char>>)>,
    p: int,
    now: u64,
    lo: int,
    hi: int,
) -> Seq<AssignmentView>
    decreases hi - lo,
{
    let members = leader_rack_members(racks, p);
    let li = leader_index(racks, p);
    if hi <= lo || members.len() <= 1 {
        seq![]
    } else {
        let node = members[(li + hi - 1) % (members.len() as int)];
        same_rack_followers(racks, p, now, lo, hi - 1) + (if node != members[li] {
            seq![(p as i32, node, PartitionRole::Follower, now)]
        } else {
            seq![]
        })
    }
}

/// The followers of partition `p` for the replica slots `1..k`: each slot
/// gets its follower on another rack, then, while slots remain, followers
/// on the leader's rack for the remaining slots.
pub open spec fn rack_followers(
    racks: Seq<(Seq<char>, Seq<Seq<char>>)>,
    p: int,
    rf: int,
    now: u64,
    k: int,
) -> Seq<AssignmentView>
    decreases k,
{
    if k <= 1 {
        seq![]
    } else {
        rack_followers(racks, p, rf, now, k - 1) + seq![(p as i32, rack_follower(racks, p, k - 1), PartitionRole::Follower, now)]
            + (if k < rf { same_rack_followers(racks, p, now, k, rf) } else { seq![] })
    }
}

/// The replicas of partition `p` under rack-aware placement.
pub open spec fn rack_aware_partition(racks: Seq<(Seq<char>, Seq<Seq<char>>)>, p: int, rf: int, now: u64) -> Seq<AssignmentView> {
    let members = leader_rack_members(racks, p);
    seq![(p as i32, members[leader_index(racks, p)], PartitionRole::Leader, now)] + rack_followers(racks, p, rf, now, rf)
}

/// Rack-aware placement of partitions `0..parts`, partition by partition.
pub open spec fn rack_aware(racks: Seq<(Seq<char>, Seq<Seq<char>>)>, parts: int, rf: int, now: u64) -> Seq<AssignmentView>
    decreases parts,
{
    if parts <= 0 {
        seq![]
    } else {
        rack_aware(racks, parts - 1, rf, now) + rack_aware_partition(racks, parts - 1, rf, now)
    }
}

/// `(a + k) % n` for `a` below `n`, without overflow.
fn wrap_add(a: usize, k: usize, n: usize) -> (r: usize)
    requires
        a < n,
    ensures
        r == (a + k) % (n as int),
        r < n,
{
    let step = k % n;
    proof {
        let (ai, ki, ni, st) = (a as int, k as int, n as int, step as int);
        assert((ai + ki) % ni == (ai + ki % ni) % ni) by {
            vstd::arithmetic::div_mod::lemma_add_mod_noop(ai, ki, ni);
            vstd::arithmetic::div_mod::lemma_small_mod(ai as nat, ni as nat);
        }
        assert((ai + st) % ni == if ai + st >= ni { ai + st - ni } else { ai + st }) by (nonlinear_arith)
            requires 0 <= ai < ni, 0 <= st < ni;
    }
    if a >= n - step { a - (n - step) } else { a + step }
}

/// Places partitions so that their replicas lie on different racks, a
/// node's rack being the first character of its name: the racks lead in
/// turn, and the `k`th follower goes to the `k`th rack after the leader's.
/// Racks are taken in the order their first node comes in `nodes`.
pub fn assign_partitions_rack_aware(partitions: i32, replication_factor: i16, nodes: &[String], now: u64) -> (r: Result<Vec<PartitionAssignment>, String>)
    requires
        replication_factor <= 1 || partitions as int + replication_factor as int - 2 <= i32::MAX,
    ensures
        nodes@.len() == 0 ==> (r matches Err(e) && e@ == "No racks available for partition assignment"@),
        nodes@.len() > 0 ==> (r matches Ok(v) && assignments_view(v@) == rack_aware(
            racks_of(names_view(nodes@)),
            partitions as int,
            replication_factor as int,
            now,
        )),
{
    let racks = group_by_rack(nodes);
    proof {
        if nodes@.len() == 0 {
            assert(names_view(nodes@) =~= Seq::<Seq<char>>::empty());
            assert(racks_view(racks@).len() == racks_of(names_view(nodes@)).len());
        }
    }
    if racks.len() == 0 {
        return Err(string_from_chars(&chars_of("No racks available for partition assignment")));
    }
    let ghost rv = racks_view(racks@);
    let nr = racks.len();
    let mut r: Vec<PartitionAssignment> = Vec::new();
    let mut p: i32 = 0;
    while p < partitions
        invariant
            nr == racks@.len(),
            nr > 0,
            rv == racks_view(racks@),
            rv == racks_of(names_view(nodes@)),
            forall|i: int| 0 <= i < racks@.len() ==> (#[trigger] racks@[i]).1@.len() > 0,
            replication_factor <= 1 || partitions as int + replication_factor as int - 2 <= i32::MAX,
            0 <= p,
            p <= partitions || p == 0,
            assignments_view(r@) == rack_aware(rv, p as int, replication_factor as int, now),
        decreases partitions - p,
    {
        let ghost before = assignments_view(r@);
        let lr = (p as usize) % nr;
        let members = &racks[lr].1;
        let li = (p as usize) % members.len();
        let leader = &members[li];
        proof {
            assert(rv[lr as int] == (racks@[lr as int].0@, names_view(racks@[lr as int].1@)));
            assert(leader_rack_members(rv, p as int) == names_view(members@));
            assert(leader_index(rv, p as int) == li);
        }
        let slot = PartitionAssignment { partition_id: p, node_id: copy_string(leader), role: PartitionRole::Leader, assigned_at: now };
        r.push(slot);
        let ghost head = seq![(p as i32, leader@, PartitionRole::Leader, now)];
        proof {
            assert(assignments_view(r@) =~= before + head);
            assert(before + head + rack_followers(rv, p as int, replication_factor as int, now, 1) =~= before + head);
        }
        if replication_factor > 1 {
            let mut k: i16 = 1;
            while k < replication_factor
                invariant
                    nr == racks@.len(),
                    nr > 0,
                    rv == racks_view(racks@),
                    forall|i: int| 0 <= i < racks@.len() ==> (#[trigger] racks@[i]).1@.len() > 0,
                    partitions as int + replication_factor as int - 2 <= i32::MAX,
                    0 <= p < partitions,
                    1 <= k <= replication_factor,
                    lr == (p as int) % (nr as int),
                    lr < nr,
                    members@ == racks@[lr as int].1@,
                    members@.len() > 0,
                    li == (p as int) % (members@.len() as int),
                    li < members@.len(),
                    leader@ == members@[li as int]@,
                    leader_rack_members(rv, p as int) == names_view(members@),
                    leader_index(rv, p as int) == li,
                    assignments_view(r@) == before + head + rack_followers(rv, p as int, replication_factor as int, now, k as int),
                decreases replication_factor - k,
            {
                let ghost at_k = assignments_view(r@);
                let fr = wrap_add(lr, k as usize, nr);
                let fms = &racks[fr].1;
                let fi = ((p + k as i32) as usize) % fms.len();
                proof {
                    assert(rv[fr as int] == (racks@[fr as int].0@, names_view(racks@[fr as int].1@)));
                    assert(rack_follower(rv, p as int, k as int) == fms@[fi as int]@);
                }
                let follower = PartitionAssignment { partition_id: p, node_id: copy_string(&fms[fi]), role: PartitionRole::Follower, assigned_at: now };
                r.push(follower);
                let ghost with_follower = assignments_view(r@);
                proof {
                    assert(with_follower =~= at_k.push(assignment_view(follower)));
                }
                let next: i16 = k + 1;
                if next < replication_factor {
                    let mut s: i16 = next;
                    while s < replication_factor
                        invariant
                            1 < next <= s <= replication_factor,
                            members@.len() > 0,
                            li < members@.len(),
                            leader@ == members@[li as int]@,
                            leader_rack_members(rv, p as int) == names_view(members@),
                            leader_index(rv, p as int) == li,
                            assignments_view(r@) == with_follower + same_rack_followers(rv, p as int, now, next as int, s as int),
                        decreases replication_factor - s,
                    {
                        let ghost at_s = assignments_view(r@);
                        let ghost mv = names_view(members@);
                        let ghost sr = same_rack_followers(rv, p as int, now, next as int, s as int);
                        if members.len() > 1 {
                            let idx = wrap_add(li, s as usize, members.len());
                            let ghost node = mv[idx as int];
                            proof {
                                assert(mv[idx as int] == members@[idx as int]@);
                                assert(mv[li as int] == members@[li as int]@);
                                assert(idx == (li + (s + 1) - 1) % (members@.len() as int));
                                assert(same_rack_followers(rv, p as int, now, next as int, s + 1) == sr + (if node != mv[li as int] {
                                    seq![(p as i32, node, PartitionRole::Follower, now)]
                                } else {
                                    seq![]
                                }));
                            }
                            if !str_eq(members[idx].as_str(), leader.as_str()) {
                                let extra = PartitionAssignment { partition_id: p, node_id: copy_string(&members[idx]), role: PartitionRole::Follower, assigned_at: now };
                                r.push(extra);
                                proof {
                                    assert(assignment_view(extra) == (p as i32, node, PartitionRole::Follower, now));
                                    assert(assignments_view(r@) =~= at_s.push(assignment_view(extra)));
                                    assert(assignments_view(r@) =~= with_follower + same_rack_followers(rv, p as int, now, next as int, s + 1));
                                }
                            } else {
                                proof {
                                    assert(same_rack_followers(rv, p as int, now, next as int, s + 1) =~= sr);
                                }
                            }
                        } else {
                            proof {
                                assert(same_rack_followers(rv, p as int, now, next as int, s + 1) == sr);
                            }
                        }
                        s = s + 1;
                    }
                }
                proof {
                    let tail = if (k + 1) < replication_factor {
                        same_rack_followers(rv, p as int, now, k + 1, replication_factor as int)
                    } else {
                        seq![]
                    };
                    assert(rack_followers(rv, p as int, replication_factor as int, now, k + 1)
                        == rack_followers(rv, p as int, replication_factor as int, now, k as int)
                            + seq![(p as i32, rack_follower(rv, p as int, k as int), PartitionRole::Follower, now)] + tail);
                    assert(assignments_view(r@) =~= before + head + rack_followers(rv, p as int, replication_factor as int, now, k + 1));
                }
                k = k + 1;
            }
        }
        proof {
            assert(rack_aware_partition(rv, p as int, replication_factor as int, now)
                == head + rack_followers(rv, p as int, replication_factor as int, now, replication_factor as int));
            assert(assignments_view(r@) =~= before + rack_aware_partition(rv, p as int, replication_factor as int, now));
            assert(rack_aware(rv, p + 1, replication_factor as int, now)
                == before + rack_aware_partition(rv, p as int, replication_factor as int, now));
        }
        p = p + 1;
    }
    proof {
        if partitions < 0 {
            assert(rack_aware(rv, partitions as int, replication_factor as int, now) =~= seq![]);
            assert(rack_aware(rv, 0, replication_factor as int, now) =~= seq![]);
        }
    }
    Ok(r)
}

/// Each node on rack `r` has `r` as its rack.
proof fn lemma_members_are_on_their_rack(nodes: Seq<Seq<char>>, r: Seq<char>)
    ensures
        forall|i: int| 0 <= i < rack_members(nodes, r).len() ==> rack_of(#[trigger] rack_members(nodes, r)[i]) == r,
        forall|i: int| 0 <= i < rack_members(nodes, r).len() ==> nodes.contains(#[trigger] rack_members(nodes, r)[i]),
    decreases nodes.len(),
{
    if nodes.len() > 0 {
        let init = nodes.drop_last();
        lemma_members_are_on_their_rack(init, r);
        assert forall|i: int| 0 <= i < rack_members(nodes, r).len() implies nodes.contains(#[trigger] rack_members(nodes, r)[i]) by {
            if i < rack_members(init, r).len() {
                let k = choose|k: int| 0 <= k < init.len() && init[k] == rack_members(init, r)[i];
                assert(nodes[k] == init[k]);
            } else {
                assert(nodes[nodes.len() - 1] == nodes.last());
            }
        }
    }
}

/// No rack is listed twice.
proof fn lemma_rack_ids_distinct(nodes: Seq<Seq<char>>)
    ensures
        rack_ids(nodes).no_duplicates(),
    decreases nodes.len(),
{
    if nodes.len() > 0 {
        lemma_rack_ids_distinct(nodes.drop_last());
    }
}

/// Under rack-aware placement each partition gets its leader first and
/// then only followers, every one of them a node that was offered; with
/// two replicas and at least two racks, the follower is on another rack
/// than the leader.
pub proof fn lemma_rack_aware_separates_two_replicas(nodes: Seq<Seq<char>>, p: int, rf: int, now: u64)
    requires
        nodes.len() > 0,
        0 <= p,
    ensures
        ({
            let per = rack_aware_partition(racks_of(nodes), p, rf, now);
            &&& per[0].2 == PartitionRole::Leader
            &&& forall|k: int| 1 <= k < per.len() ==> (#[trigger] per[k]).2 == PartitionRole::Follower
            &&& forall|k: int| 0 <= k < per.len() ==> nodes.contains((#[trigger] per[k]).1)
            &&& (rf == 2 && rack_ids(nodes).len() >= 2) ==> per.len() == 2 && rack_of(per[1].1) != rack_of(per[0].1)
        }),
{
    let racks = racks_of(nodes);
    let ids = rack_ids(nodes);
    let nr = racks.len() as int;
    lemma_rack_ids_distinct(nodes);
    lemma_rack_ids_nonempty(nodes);
    assert forall|i: int| 0 <= i < nr implies (#[trigger] racks[i]).1.len() > 0
        && (forall|j: int| 0 <= j < racks[i].1.len() ==> rack_of(#[trigger] racks[i].1[j]) == ids[i] && nodes.contains(racks[i].1[j])) by {
        lemma_rack_has_members(nodes, ids[i]);
        lemma_members_are_on_their_rack(nodes, ids[i]);
    }
    let lr = p % nr;
    let members = leader_rack_members(racks, p);
    let li = leader_index(racks, p);
    assert(0 <= lr < nr) by (nonlinear_arith) requires nr > 0, lr == p % nr;
    assert(0 <= li < members.len()) by (nonlinear_arith) requires members.len() > 0, li == p % (members.len() as int);
    let per = rack_aware_partition(racks, p, rf, now);
    lemma_rack_followers_shape(racks, nodes, p, rf, now, rf);
    if rf == 2 && ids.len() >= 2 {
        let fr = (lr + 1) % nr;
        assert(0 <= fr < nr && fr != lr) by (nonlinear_arith) requires 0 <= lr < nr, nr >= 2, fr == (lr + 1) % nr;
        let fms = racks[fr].1;
        let fi = (p + 1) % (fms.len() as int);
        assert(0 <= fi < fms.len()) by (nonlinear_arith) requires fms.len() > 0, fi == (p + 1) % (fms.len() as int);
        assert(rack_followers(racks, p, rf, now, 1) =~= seq![]);
        assert(per[1].1 == fms[fi]);
        assert(rack_of(fms[fi]) == ids[fr]);
        assert(rack_of(members[li]) == ids[lr]);
    }
}

/// Every rack holds at least one node.
proof fn lemma_rack_has_members(nodes: Seq<Seq<char>>, r: Seq<char>)
    requires
        rack_ids(nodes).contains(r),
    ensures
        rack_members(nodes, r).len() > 0,
    decreases nodes.len(),
{
    if nodes.len() > 0 {
        let earlier = rack_ids(nodes.drop_last());
        if rack_of(nodes.last()) != r {
            if !earlier.contains(r) {
                let k = choose|k: int| 0 <= k < rack_ids(nodes).len() && rack_ids(nodes)[k] == r;
                if !earlier.contains(rack_of(nodes.last())) {
                    assert(k < earlier.len());
                    assert(earlier[k] == r);
                }
            }
            lemma_rack_has_members(nodes.drop_last(), r);
        }
    }
}

/// A cluster with a node has a rack.
proof fn lemma_rack_ids_nonempty(nodes: Seq<Seq<char>>)
    requires
        nodes.len() > 0,
    ensures
        rack_ids(nodes).len() > 0,
    decreases nodes.len(),
{
    if nodes.len() > 1 {
        lemma_rack_ids_nonempty(nodes.drop_last());
    }
}

/// The followers of a partition for slots `1..k` are followers, each a node
/// that was offered.
proof fn lemma_rack_followers_shape(
    racks: Seq<(Seq<char>, Seq<Seq<char>>)>,
    nodes: Seq<Seq<char>>,
    p: int,
    rf: int,
    now: u64,
    k: int,
)
    requires
        racks.len() > 0,
        0 <= p,
        forall|i: int| 0 <= i < racks.len() ==> (#[trigger] racks[i]).1.len() > 0
            && (forall|j: int| 0 <= j < racks[i].1.len() ==> nodes.contains(#[trigger] racks[i].1[j])),
    ensures
        forall|m: int| 0 <= m < rack_followers(racks, p, rf, now, k).len() ==> (#[trigger] rack_followers(racks, p, rf, now, k)[m]).2
            == PartitionRole::Follower && nodes.contains(rack_followers(racks, p, rf, now, k)[m].1),
    decreases k,
{
    if k > 1 {
        lemma_rack_followers_shape(racks, nodes, p, rf, now, k - 1);
        let nr = racks.len() as int;
        let fr = (p % nr + (k - 1)) % nr;
        assert(0 <= fr < nr) by (nonlinear_arith) requires nr > 0, fr == (p % nr + (k - 1)) % nr;
        let fms = racks[fr].1;
        let fi = (p + k - 1) % (fms.len() as int);
        assert(0 <= fi < fms.len()) by (nonlinear_arith) requires fms.len() > 0, fi == (p + k - 1) % (fms.len() as int);
        assert(nodes.contains(rack_follower(racks, p, k - 1)));
        if k < rf {
            lemma_same_rack_shape(racks, nodes, p, now, k, rf);
        }
    }
}

proof fn lemma_same_rack_shape(
    racks: Seq<(Seq<char>, Seq<Seq<char>>)>,
    nodes: Seq<Seq<char>>,
    p: int,
    now: u64,
    lo: int,
    hi: int,
)
    requires
        racks.len() > 0,
        0 <= p,
        forall|i: int| 0 <= i < racks.len() ==> (#[trigger] racks[i]).1.len() > 0
            && (forall|j: int| 0 <= j < racks[i].1.len() ==> nodes.contains(#[trigger] racks[i].1[j])),
    ensures
        forall|m: int| 0 <= m < same_rack_followers(racks, p, now, lo, hi).len() ==> (#[trigger] same_rack_followers(racks, p, now, lo, hi)[m]).2
            == PartitionRole::Follower && nodes.contains(same_rack_followers(racks, p, now, lo, hi)[m].1),
    decreases hi - lo,
{
    let members = leader_rack_members(racks, p);
    if hi > lo && members.len() > 1 {
        lemma_same_rack_shape(racks, nodes, p, now, lo, hi - 1);
        let nr = racks.len() as int;
        let lr = p % nr;
        assert(0 <= lr < nr) by (nonlinear_arith) requires nr > 0, lr == p % nr;
        let li = leader_index(racks, p);
        assert(0 <= li) by (nonlinear_arith) requires members.len() > 0, li == p % (members.len() as int);
        let idx = (li + hi - 1) % (members.len() as int);
        assert(0 <= idx < members.len()) by (nonlinear_arith) requires members.len() > 0, idx == (li + hi - 1) % (members.len() as int);
        assert(nodes.contains(members[idx]));
    }
}

/// A node during load-based placement: its name, the partitions it leads
/// and the partitions it holds.
pub type LoadEntry = (Seq<char>, u32, u32);

pub open spec fn entries_view(v: Seq<(String, u32, u32)>) -> Seq<LoadEntry> {
    v.map_values(|e: (String, u32, u32)| (e.0@, e.1, e.2))
}

/// The key a node is ordered by: the partitions it leads, or those it
/// holds.
pub open spec fn load_key(e: LoadEntry, by_leaders: bool) -> u32 {
    if by_leaders { e.1 } else { e.2 }
}

/// `x` put into `t` after the last entry, from the end, whose key is not
/// above its own.
pub open spec fn insert_stably(t: Seq<LoadEntry>, x: LoadEntry, by_leaders: bool) -> Seq<LoadEntry>
    decreases t.len(),
{
    if t.len() == 0 {
        seq![x]
    } else if load_key(t.last(), by_leaders) <= load_key(x, by_leaders) {
        t.push(x)
    } else {
        insert_stably(t.drop_last(), x, by_leaders).push(t.last())
    }
}

/// The entries ordered by their key, entries with equal keys kept in the
/// order they came in (a stable sort).
pub open spec fn sort_stably(s: Seq<LoadEntry>, by_leaders: bool) -> Seq<LoadEntry>
    decreases s.len(),
{
    if s.len() == 0 {
        seq![]
    } else {
        insert_stably(sort_stably(s.drop_last(), by_leaders), s.last(), by_leaders)
    }
}

proof fn lemma_insert_at(t: Seq<LoadEntry>, x: LoadEntry, by_leaders: bool, pos: int)
    requires
        0 <= pos <= t.len(),
        pos == 0 || load_key(t[pos - 1], by_leaders) <= load_key(x, by_leaders),
        forall|j: int| pos <= j < t.len() ==> load_key(#[trigger] t[j], by_leaders) > load_key(x, by_leaders),
    ensures
        insert_stably(t, x, by_leaders) == t.insert(pos, x),
    decreases t.len(),
{
    if t.len() == 0 {
        assert(t.insert(pos, x) =~= seq![x]);
    } else if pos == t.len() {
        assert(t.insert(pos, x) =~= t.push(x));
    } else {
        let init = t.drop_last();
        assert forall|j: int| pos <= j < init.len() implies load_key(#[trigger] init[j], by_leaders) > load_key(x, by_leaders) by {
            assert(init[j] == t[j]);
        }
        lemma_insert_at(init, x, by_leaders, pos);
        assert(init.insert(pos, x).push(t.last()) =~= t.insert(pos, x));
    }
}

/// Every entry of a stable sort comes from what was sorted.
proof fn lemma_sort_keeps_entries(s: Seq<LoadEntry>, by_leaders: bool)
    ensures
        sort_stably(s, by_leaders).len() == s.len(),
        forall|i: int| 0 <= i < sort_stably(s, by_leaders).len() ==> s.contains(#[trigger] sort_stably(s, by_leaders)[i]),
    decreases s.len(),
{
    if s.len() > 0 {
        let init = s.drop_last();
        lemma_sort_keeps_entries(init, by_leaders);
        lemma_insert_keeps_entries(sort_stably(init, by_leaders), s.last(), by_leaders);
        assert forall|i: int| 0 <= i < sort_stably(s, by_leaders).len() implies s.contains(#[trigger] sort_stably(s, by_leaders)[i]) by {
            let e = sort_stably(s, by_leaders)[i];
            if e != s.last() {
                let k = choose|k: int| 0 <= k < sort_stably(init, by_leaders).len() && sort_stably(init, by_leaders)[k] == e;
                let m = choose|m: int| 0 <= m < init.len() && init[m] == e;
                assert(s[m] == e);
            } else {
                assert(s[s.len() - 1] == e);
            }
        }
    }
}

proof fn lemma_insert_keeps_entries(t: Seq<LoadEntry>, x: LoadEntry, by_leaders: bool)
    ensures
        insert_stably(t, x, by_leaders).len() == t.len() + 1,
        forall|i: int| 0 <= i < insert_stably(t, x, by_leaders).len() ==> (#[trigger] insert_stably(t, x, by_leaders)[i] == x
            || t.contains(insert_stably(t, x, by_leaders)[i])),
    decreases t.len(),
{
    if t.len() > 0 && load_key(t.last(), by_leaders) > load_key(x, by_leaders) {
        let init = t.drop_last();
        lemma_insert_keeps_entries(init, x, by_leaders);
        assert forall|i: int| 0 <= i < insert_stably(t, x, by_leaders).len() implies (#[trigger] insert_stably(t, x, by_leaders)[i] == x
            || t.contains(insert_stably(t, x, by_leaders)[i])) by {
            let e = insert_stably(t, x, by_leaders)[i];
            if i < init.len() + 1 {
                if e != x {
                    let k = choose|k: int| 0 <= k < init.len() && init[k] == e;
                    assert(t[k] == e);
                }
            } else {
                assert(t[t.len() - 1] == e);
            }
        }
    } else if t.len() > 0 {
        assert forall|i: int| 0 <= i < insert_stably(t, x, by_leaders).len() implies (#[trigger] insert_stably(t, x, by_leaders)[i] == x
            || t.contains(insert_stably(t, x, by_leaders)[i])) by {
            if i < t.len() {
                assert(t[i] == insert_stably(t, x, by_leaders)[i]);
            }
        }
    }
}

fn entry_key(e: &(String, u32, u32), by_leaders: bool) -> (k: u32)
    ensures
        k == load_key((e.0@, e.1, e.2), by_leaders),
{
    if by_leaders { e.1 } else { e.2 }
}

/// The entries in a stable order of their key.
fn sort_entries(s: &Vec<(String, u32, u32)>, by_leaders: bool) -> (r: Vec<(String, u32, u32)>)
    ensures
        entries_view(r@) == sort_stably(entries_view(s@), by_leaders),
{
    let ghost sv = entries_view(s@);
    let mut r: Vec<(String, u32, u32)> = Vec::new();
    let mut i: usize = 0;
    proof {
        assert(sv.subrange(0, 0) =~= Seq::<LoadEntry>::empty());
        assert(entries_view(r@) =~= Seq::<LoadEntry>::empty());
    }
    while i < s.len()
        invariant
            0 <= i <= s@.len(),
            sv == entries_view(s@),
            entries_view(r@) == sort_stably(sv.subrange(0, i as int), by_leaders),
        decreases s.len() - i,
    {
        let x = (copy_string(&s[i].0), s[i].1, s[i].2);
        let kx = entry_key(&x, by_leaders);
        let ghost xv = (x.0@, x.1, x.2);
        let ghost before = entries_view(r@);
        let mut pos = r.len();
        while pos > 0 && entry_key(&r[pos - 1], by_leaders) > kx
            invariant
                0 <= pos <= r@.len(),
                before == entries_view(r@),
                kx == load_key(xv, by_leaders),
                forall|j: int| pos <= j < before.len() ==> load_key(#[trigger] before[j], by_leaders) > kx,
            decreases pos,
        {
            pos = pos - 1;
        }
        proof {
            lemma_insert_at(before, xv, by_leaders, pos as int);
            assert(sv.subrange(0, i + 1).drop_last() =~= sv.subrange(0, i as int));
            assert(sv.subrange(0, i + 1).last() == xv);
        }
        r.insert(pos, x);
        proof {
            assert(entries_view(r@) =~= before.insert(pos as int, xv));
        }
        i = i + 1;
    }
    proof {
        assert(sv.subrange(0, s@.len() as int) =~= sv);
    }
    r
}

/// How busy a node is: the partitions it holds and leads, their size and
/// their messages.
#[derive(Debug, Clone)]
pub struct NodeLoad {
    pub node_id: String,
    pub partition_count: u32,
    pub leader_partition_count: u32,
    pub total_size_bytes: u64,
    pub total_message_count: u64,
}

/// The counts (led, held) of the first load of node `id`, if there is one.
pub open spec fn first_load(loads: Seq<NodeLoad>, id: Seq<char>) -> Option<(u32, u32)>
    decreases loads.len(),
{
    if loads.len() == 0 {
        None
    } else {
        match first_load(loads.drop_last(), id) {
            Some(c) => Some(c),
            None => if loads.last().node_id@ == id {
                Some((loads.last().leader_partition_count, loads.last().partition_count))
            } else {
                None
            },
        }
    }
}

/// The nodes offered, each with its counts; a node without a load counts
/// nothing.
pub open spec fn initial_entries(nodes: Seq<Seq<char>>, loads: Seq<NodeLoad>) -> Seq<LoadEntry> {
    nodes.map_values(|n: Seq<char>| match first_load(loads, n) {
        Some(c) => (n, c.0, c.1),
        None => (n, 0u32, 0u32),
    })
}

/// The first entry gains a partition, and leads it if `leader`.
pub open spec fn bump(s: Seq<LoadEntry>, leader: bool) -> Seq<LoadEntry> {
    s.update(0, (s[0].0, if leader { (s[0].1 + 1) as u32 } else { s[0].1 }, (s[0].2 + 1) as u32))
}

/// `k` rounds of picking a follower of partition `p`: the node holding the
/// fewest partitions gets it, unless it is the leader, in which case the
/// round passes; the nodes are then ordered again.
pub open spec fn follower_rounds(state: Seq<LoadEntry>, leader: Seq<char>, p: int, now: u64, k: int) -> (
    Seq<AssignmentView>,
    Seq<LoadEntry>,
)
    decreases k,
{
    if k <= 0 {
        (seq![], state)
    } else if state[0].0 == leader {
        follower_rounds(state, leader, p, now, k - 1)
    } else {
        let rest = follower_rounds(sort_stably(bump(state, false), false), leader, p, now, k - 1);
        (seq![(p as i32, state[0].0, PartitionRole::Follower, now)] + rest.0, rest.1)
    }
}

/// Partition `p` under load-based placement: the node leading the fewest
/// partitions leads it; then, when replicas are asked for, `cap - 1`
/// follower rounds, `cap` being the replication factor or the number of
/// nodes, whichever is smaller.
pub open spec fn load_partition(state: Seq<LoadEntry>, p: int, rf: int, cap: int, now: u64) -> (
    Seq<AssignmentView>,
    Seq<LoadEntry>,
) {
    let leader = state[0].0;
    let s1 = sort_stably(bump(state, true), true);
    if rf > 1 {
        let rounds = follower_rounds(sort_stably(s1, false), leader, p, now, cap - 1);
        (seq![(p as i32, leader, PartitionRole::Leader, now)] + rounds.0, rounds.1)
    } else {
        (seq![(p as i32, leader, PartitionRole::Leader, now)], s1)
    }
}

/// Load-based placement of partitions `p..parts`, from the node order
/// `state`.
pub open spec fn load_based_from(state: Seq<LoadEntry>, p: int, parts: int, rf: int, cap: int, now: u64) -> Seq<AssignmentView>
    decreases parts - p,
{
    if p >= parts {
        seq![]
    } else {
        let one = load_partition(state, p, rf, cap, now);
        one.0 + load_based_from(one.1, p + 1, parts, rf, cap, now)
    }
}

/// Every node leads at most `l` and holds at most `h` partitions.
pub open spec fn bounded(s: Seq<LoadEntry>, l: int, h: int) -> bool {
    forall|i: int| 0 <= i < s.len() ==> (#[trigger] s[i]).1 <= l && s[i].2 <= h
}

proof fn lemma_sort_bounded(s: Seq<LoadEntry>, by_leaders: bool, l: int, h: int)
    requires
        bounded(s, l, h),
    ensures
        bounded(sort_stably(s, by_leaders), l, h),
        sort_stably(s, by_leaders).len() == s.len(),
{
    lemma_sort_keeps_entries(s, by_leaders);
    assert forall|i: int| 0 <= i < sort_stably(s, by_leaders).len() implies (#[trigger] sort_stably(s, by_leaders)[i]).1 <= l
        && sort_stably(s, by_leaders)[i].2 <= h by {
        let k = choose|k: int| 0 <= k < s.len() && s[k] == sort_stably(s, by_leaders)[i];
    }
}

/// The counts of the first load of node `n`.
fn find_load(loads: &Vec<NodeLoad>, n: &String) -> (c: (u32, u32))
    ensures
        c == match first_load(loads@, n@) {
            Some(x) => x,
            None => (0u32, 0u32),
        },
{
    let mut i: usize = 0;
    while i < loads.len()
        invariant
            0 <= i <= loads@.len(),
            first_load(loads@.subrange(0, i as int), n@) is None,
        decreases loads.len() - i,
    {
        proof {
            assert(loads@.subrange(0, i + 1).drop_last() =~= loads@.subrange(0, i as int));
        }
        if str_eq(loads[i].node_id.as_str(), n.as_str()) {
            proof {
                lemma_first_load_prefix(loads@, n@, i + 1);
            }
            return (loads[i].leader_partition_count, loads[i].partition_count);
        }
        i = i + 1;
    }
    proof {
        assert(loads@.subrange(0, loads@.len() as int) =~= loads@);
    }
    (0, 0)
}

/// A load found among the first `k` is the first load of all.
proof fn lemma_first_load_prefix(loads: Seq<NodeLoad>, id: Seq<char>, k: int)
    requires
        0 <= k <= loads.len(),
        first_load(loads.subrange(0, k), id) is Some,
    ensures
        first_load(loads, id) == first_load(loads.subrange(0, k), id),
    decreases loads.len() - k,
{
    if k < loads.len() {
        assert(loads.subrange(0, k + 1).drop_last() =~= loads.subrange(0, k));
        lemma_first_load_prefix(loads, id, k + 1);
    } else {
        assert(loads.subrange(0, k) =~= loads);
    }
}

/// Places partitions on the least loaded nodes: each partition is led by
/// the node leading the fewest partitions so far, and its followers go to
/// the nodes holding the fewest, never to its leader. Nodes start with the
/// counts of their load, and ties keep the order of `nodes`.
pub fn assign_partitions_load_based(
    partitions: i32,
    replication_factor: i16,
    nodes: &[String],
    loads: &Vec<NodeLoad>,
    now: u64,
) -> (r: Vec<PartitionAssignment>)
    requires
        nodes@.len() > 0,
        partitions as int * (if replication_factor > 1 { replication_factor as int } else { 1 }) <= u32::MAX,
        forall|i: int| 0 <= i < loads@.len() ==> (#[trigger] loads@[i]).partition_count + partitions as int * (
            if replication_factor > 1 { replication_factor as int } else { 1 }) <= u32::MAX
            && loads@[i].leader_partition_count + partitions as int * (
            if replication_factor > 1 { replication_factor as int } else { 1 }) <= u32::MAX,
    ensures
        assignments_view(r@) == load_based_from(
            sort_stably(initial_entries(names_view(nodes@), loads@), true),
            0,
            partitions as int,
            replication_factor as int,
            (if replication_factor < (nodes@.len() as i16) { replication_factor } else { (nodes@.len() as i16) }) as int,
            now,
        ),
{
    let n = nodes.len();
    let count_as_i16: i16 = #[verifier::truncate] (n as i16);
    let cap: i16 = if replication_factor < count_as_i16 { replication_factor } else { count_as_i16 };
    proof {
        assert(count_as_i16 as int <= n as int) by (bit_vector)
            requires count_as_i16 == (n as i16);
    }
    let ghost big_r: int = if replication_factor > 1 { replication_factor as int } else { 1 };
    let ghost parts = partitions as int;
    let mut start: Vec<(String, u32, u32)> = Vec::new();
    let mut i: usize = 0;
    while i < n
        invariant
            0 <= i <= n,
            n == nodes@.len(),
            entries_view(start@) == initial_entries(names_view(nodes@), loads@).subrange(0, i as int),
        decreases n - i,
    {
        let (l, h) = find_load(loads, &nodes[i]);
        let ghost prev = entries_view(start@);
        start.push((copy_string(&nodes[i]), l, h));
        proof {
            assert(entries_view(start@) =~= prev.push((nodes@[i as int]@, l, h)));
            assert(initial_entries(names_view(nodes@), loads@).subrange(0, i + 1) =~= initial_entries(
                names_view(nodes@),
                loads@,
            ).subrange(0, i as int).push(initial_entries(names_view(nodes@), loads@)[i as int]));
        }
        i = i + 1;
    }
    let ghost init = initial_entries(names_view(nodes@), loads@);
    proof {
        assert(init.subrange(0, n as int) =~= init);
        let lim = u32::MAX - partitions as int * big_r;
        assert forall|j: int| 0 <= j < init.len() implies (#[trigger] init[j]).1 <= lim && init[j].2 <= lim by {
            let nm = names_view(nodes@)[j];
            if first_load(loads@, nm) is Some {
                lemma_first_load_found(loads@, nm);
            }
        }
        lemma_sort_bounded(init, true, lim, lim);
    }
    let mut state = sort_entries(&start, true);
    let ghost total = load_based_from(sort_stably(init, true), 0, parts, replication_factor as int, cap as int, now);
    let mut r: Vec<PartitionAssignment> = Vec::new();
    let mut p: i32 = 0;
    while p < partitions
        invariant
            0 <= p,
            p <= partitions || p == 0,
            parts == partitions as int,
            n == nodes@.len(),
            n > 0,
            entries_view(state@).len() == n,
            big_r == (if replication_factor > 1 { replication_factor as int } else { 1 }),
            cap as int <= big_r,
            big_r >= 1,
            bounded(entries_view(state@), u32::MAX - (parts - p) * big_r, u32::MAX - (parts - p) * big_r),
            total == assignments_view(r@) + load_based_from(entries_view(state@), p as int, parts, replication_factor as int, cap as int, now),
        decreases partitions - p,
    {
        let ghost sv = entries_view(state@);
        let ghost before = assignments_view(r@);
        let leader = copy_string(&state[0].0);
        let slot = PartitionAssignment { partition_id: p, node_id: copy_string(&leader), role: PartitionRole::Leader, assigned_at: now };
        r.push(slot);
        proof {
            assert((parts - p) * big_r >= 1) by (nonlinear_arith)
                requires parts - p >= 1, big_r >= 1;
            assert(sv[0].1 <= u32::MAX - (parts - p) * big_r);
            assert(sv[0].2 <= u32::MAX - (parts - p) * big_r);
        }
        let bumped = (copy_string(&state[0].0), state[0].1 + 1, state[0].2 + 1);
        state.set(0, bumped);
        proof {
            assert(entries_view(state@) =~= bump(sv, true));
            let lim = u32::MAX - (parts - p) * big_r + 1;
            assert(bounded(bump(sv, true), lim, lim));
            lemma_sort_bounded(bump(sv, true), true, lim, lim);
        }
        state = sort_entries(&state, true);
        let ghost s1 = entries_view(state@);
        let ghost one = load_partition(sv, p as int, replication_factor as int, cap as int, now);
        if replication_factor > 1 {
            proof {
                let lim = u32::MAX - (parts - p) * big_r + 1;
                lemma_sort_bounded(s1, false, lim, lim);
            }
            state = sort_entries(&state, false);
            let ghost s2 = entries_view(state@);
            let ghost rounds_total = follower_rounds(s2, leader@, p as int, now, cap - 1);
            let ghost mut acc: Seq<AssignmentView> = seq![];
            let mut k: i16 = 1;
            while k < cap
                invariant
                    1 <= k,
                    k <= cap || k == 1,
                    cap <= big_r,
                    big_r >= 1,
                    entries_view(state@).len() == n,
                    n > 0,
                    bounded(entries_view(state@), u32::MAX - (parts - p) * big_r + k, u32::MAX - (parts - p) * big_r + k),
                    parts - p >= 1,
                    rounds_total == (acc + follower_rounds(entries_view(state@), leader@, p as int, now, cap - k).0,
                        follower_rounds(entries_view(state@), leader@, p as int, now, cap - k).1),
                    assignments_view(r@) == before + seq![(p as i32, leader@, PartitionRole::Leader, now)] + acc,
                decreases cap - k,
            {
                let ghost cur = entries_view(state@);
                if !str_eq(state[0].0.as_str(), leader.as_str()) {
                    let f = PartitionAssignment { partition_id: p, node_id: copy_string(&state[0].0), role: PartitionRole::Follower, assigned_at: now };
                    let ghost fv = assignment_view(f);
                    let ghost r_before = assignments_view(r@);
                    r.push(f);
                    proof {
                        assert(assignments_view(r@) =~= r_before.push(fv));
                        let held = cur[0].2;
                        assert(held <= u32::MAX - (parts - p) * big_r + k);
                        assert(held + 1 <= u32::MAX) by (nonlinear_arith)
                            requires held <= u32::MAX - (parts - p) * big_r + k, k < cap, cap <= big_r, parts - p >= 1, big_r >= 1;
                    }
                    let bumped = (copy_string(&state[0].0), state[0].1, state[0].2 + 1);
                    state.set(0, bumped);
                    proof {
                        assert(entries_view(state@) =~= bump(cur, false));
                        let lim = u32::MAX - (parts - p) * big_r + k + 1;
                        assert(bounded(bump(cur, false), lim, lim));
                        lemma_sort_bounded(bump(cur, false), false, lim, lim);
                    }
                    state = sort_entries(&state, false);
                    proof {
                        assert(fv == (p as i32, cur[0].0, PartitionRole::Follower, now));
                        assert(acc + follower_rounds(cur, leader@, p as int, now, cap - k).0 =~= acc.push(fv)
                            + follower_rounds(entries_view(state@), leader@, p as int, now, cap - k - 1).0);
                        acc = acc.push(fv);
                        assert(assignments_view(r@) =~= before + seq![(p as i32, leader@, PartitionRole::Leader, now)] + acc);
                    }
                } else {
                    proof {
                        let lim = u32::MAX - (parts - p) * big_r + k + 1;
                        assert(bounded(cur, lim, lim));
                    }
                }
                k = k + 1;
            }
            proof {
                let kk = if cap > 1 { cap as int } else { 1 };
                assert(follower_rounds(entries_view(state@), leader@, p as int, now, cap - kk) == (
                    Seq::<AssignmentView>::empty(),
                    entries_view(state@),
                ));
                assert(one.0 =~= seq![(p as i32, leader@, PartitionRole::Leader, now)] + acc);
                assert(one.1 == entries_view(state@));
                let lim = u32::MAX - (parts - p) * big_r + big_r;
                assert(bounded(entries_view(state@), lim, lim));
            }
        } else {
            proof {
                assert(one.0 =~= seq![(p as i32, leader@, PartitionRole::Leader, now)]);
                assert(assignments_view(r@) =~= before + one.0);
            }
        }
        proof {
            assert(assignments_view(r@) =~= before + one.0);
            assert(load_based_from(sv, p as int, parts, replication_factor as int, cap as int, now)
                == one.0 + load_based_from(one.1, p + 1, parts, replication_factor as int, cap as int, now));
            assert(u32::MAX - (parts - p) * big_r + big_r == u32::MAX - (parts - (p + 1)) * big_r) by (nonlinear_arith);
        }
        p = p + 1;
    }
    proof {
        assert(load_based_from(entries_view(state@), p as int, parts, replication_factor as int, cap as int, now) =~= seq![]);
    }
    r
}

/// The counts found for a node are those of one of the loads.
proof fn lemma_first_load_found(loads: Seq<NodeLoad>, id: Seq<char>)
    requires
        first_load(loads, id) is Some,
    ensures
        exists|i: int| 0 <= i < loads.len() && first_load(loads, id) == Some(
            (#[trigger] loads[i].leader_partition_count, loads[i].partition_count),
        ),
    decreases loads.len(),
{
    if first_load(loads.drop_last(), id) is Some {
        lemma_first_load_found(loads.drop_last(), id);
        let i = choose|i: int| 0 <= i < loads.drop_last().len() && first_load(loads.drop_last(), id) == Some(
            (#[trigger] loads.drop_last()[i].leader_partition_count, loads.drop_last()[i].partition_count),
        );
        assert(loads[i] == loads.drop_last()[i]);
    } else {
        assert(loads[loads.len() - 1] == loads.last());
    }
}

/// The entries are in order of their key.
pub open spec fn sorted_by_key(s: Seq<LoadEntry>, by_leaders: bool) -> bool {
    forall|i: int, j: int| 0 <= i < j < s.len() ==> load_key(#[trigger] s[i], by_leaders) <= load_key(#[trigger] s[j], by_leaders)
}

proof fn lemma_insert_stays_sorted(t: Seq<LoadEntry>, x: LoadEntry, by_leaders: bool)
    requires
        sorted_by_key(t, by_leaders),
    ensures
        sorted_by_key(insert_stably(t, x, by_leaders), by_leaders),
    decreases t.len(),
{
    if t.len() > 0 && load_key(t.last(), by_leaders) > load_key(x, by_leaders) {
        let init = t.drop_last();
        assert(sorted_by_key(init, by_leaders)) by {
            assert forall|i: int, j: int| 0 <= i < j < init.len() implies load_key(#[trigger] init[i], by_leaders) <= load_key(#[trigger] init[j], by_leaders) by {
                assert(init[i] == t[i] && init[j] == t[j]);
            }
        }
        lemma_insert_stays_sorted(init, x, by_leaders);
        lemma_insert_keeps_entries(init, x, by_leaders);
        let ins = insert_stably(init, x, by_leaders);
        assert forall|i: int| 0 <= i < ins.len() implies load_key(#[trigger] ins[i], by_leaders) <= load_key(t.last(), by_leaders) by {
            if ins[i] != x {
                let k = choose|k: int| 0 <= k < init.len() && init[k] == ins[i];
                assert(t[k] == init[k]);
                assert(t[t.len() - 1] == t.last());
            }
        }
        let out = insert_stably(t, x, by_leaders);
        assert forall|i: int, j: int| 0 <= i < j < out.len() implies load_key(#[trigger] out[i], by_leaders) <= load_key(#[trigger] out[j], by_leaders) by {
            if j < ins.len() {
                assert(out[i] == ins[i] && out[j] == ins[j]);
            } else {
                assert(out[i] == ins[i]);
            }
        }
    } else if t.len() > 0 {
        let out = insert_stably(t, x, by_leaders);
        assert forall|i: int, j: int| 0 <= i < j < out.len() implies load_key(#[trigger] out[i], by_leaders) <= load_key(#[trigger] out[j], by_leaders) by {
            if j < t.len() {
                assert(out[i] == t[i] && out[j] == t[j]);
            } else {
                assert(out[i] == t[i]);
                assert(t[t.len() - 1] == t.last());
            }
        }
    }
}

proof fn lemma_sort_is_sorted(s: Seq<LoadEntry>, by_leaders: bool)
    ensures
        sorted_by_key(sort_stably(s, by_leaders), by_leaders),
    decreases s.len(),
{
    if s.len() > 0 {
        lemma_sort_is_sorted(s.drop_last(), by_leaders);
        lemma_insert_stays_sorted(sort_stably(s.drop_last(), by_leaders), s.last(), by_leaders);
    }
}

proof fn lemma_rounds_avoid_leader(state: Seq<LoadEntry>, leader: Seq<char>, p: int, now: u64, k: int)
    ensures
        forall|m: int| 0 <= m < follower_rounds(state, leader, p, now, k).0.len() ==> (#[trigger] follower_rounds(state, leader, p, now, k).0[m]).2
            == PartitionRole::Follower && follower_rounds(state, leader, p, now, k).0[m].1 != leader,
    decreases k,
{
    if k > 0 {
        if state[0].0 == leader {
            lemma_rounds_avoid_leader(state, leader, p, now, k - 1);
        } else {
            lemma_rounds_avoid_leader(sort_stably(bump(state, false), false), leader, p, now, k - 1);
        }
    }
}

/// Load-based placement takes nodes in a stable order of how many
/// partitions they lead, or hold, so that the node taken first leads, or
/// holds, no more than any other; and each partition gets its leader
/// first and then only followers, none of them its leader.
pub proof fn lemma_load_based_order(s: Seq<LoadEntry>, by_leaders: bool, state: Seq<LoadEntry>, p: int, rf: int, cap: int, now: u64)
    ensures
        sorted_by_key(sort_stably(s, by_leaders), by_leaders),
        s.len() > 0 ==> forall|j: int| 0 <= j < s.len() ==> load_key(sort_stably(s, by_leaders)[0], by_leaders) <= load_key(
            #[trigger] sort_stably(s, by_leaders)[j],
            by_leaders,
        ),
        ({
            let one = load_partition(state, p, rf, cap, now);
            &&& one.0[0] == (p as i32, state[0].0, PartitionRole::Leader, now)
            &&& forall|m: int| 1 <= m < one.0.len() ==> (#[trigger] one.0[m]).2 == PartitionRole::Follower && one.0[m].1 != state[0].0
        }),
{
    lemma_sort_is_sorted(s, by_leaders);
    lemma_sort_keeps_entries(s, by_leaders);
    let one = load_partition(state, p, rf, cap, now);
    if rf > 1 {
        let s1 = sort_stably(bump(state, true), true);
        let rounds = follower_rounds(sort_stably(s1, false), state[0].0, p, now, cap - 1);
        lemma_rounds_avoid_leader(sort_stably(s1, false), state[0].0, p, now, cap - 1);
        assert forall|m: int| 1 <= m < one.0.len() implies (#[trigger] one.0[m]).2 == PartitionRole::Follower && one.0[m].1 != state[0].0 by {
            assert(one.0[m] == rounds.0[m - 1]);
        }
    }
}

/// Whether node `id` leads partition `q`.
pub open spec fn leads(q: Partition, id: i32) -> nat {
    if q.spec_leader() matches Some(b) && b.spec_id() == id { 1 } else { 0 }
}

/// How many of the replicas `rs` are on node `id`.
pub open spec fn copies(rs: Seq<Broker>, id: i32) -> nat
    decreases rs.len(),
{
    if rs.len() == 0 {
        0
    } else {
        copies(rs.drop_last(), id) + if rs.last().spec_id() == id { 1nat } else { 0nat }
    }
}

/// How many of the partitions `ps` node `id` leads.
pub open spec fn led_by(ps: Seq<Partition>, id: i32) -> nat
    decreases ps.len(),
{
    if ps.len() == 0 {
        0
    } else {
        led_by(ps.drop_last(), id) + leads(ps.last(), id)
    }
}

/// How many places node `id` takes in the partitions `ps`: each one it
/// leads, and each replica on it.
pub open spec fn held_by(ps: Seq<Partition>, id: i32) -> nat
    decreases ps.len(),
{
    if ps.len() == 0 {
        0
    } else {
        held_by(ps.drop_last(), id) + leads(ps.last(), id) + copies(ps.last().spec_replicas(), id)
    }
}

/// How many places the partitions `ps` have in all: a leader and the
/// replicas of each.
pub open spec fn places(ps: Seq<Partition>) -> nat
    decreases ps.len(),
{
    if ps.len() == 0 {
        0
    } else {
        places(ps.drop_last()) + 1 + ps.last().spec_replicas().len()
    }
}

/// The partitions of all the topics, topic by topic.
pub open spec fn all_partitions(ts: Seq<Topic>) -> Seq<Partition>
    decreases ts.len(),
{
    if ts.len() == 0 {
        seq![]
    } else {
        all_partitions(ts.drop_last()) + ts.last().spec_partitions()
    }
}

/// The ids of the nodes, each once, in the order they first appear.
pub open spec fn distinct_ids(bs: Seq<Broker>) -> Seq<i32>
    decreases bs.len(),
{
    if bs.len() == 0 {
        seq![]
    } else if distinct_ids(bs.drop_last()).contains(bs.last().spec_id()) {
        distinct_ids(bs.drop_last())
    } else {
        distinct_ids(bs.drop_last()).push(bs.last().spec_id())
    }
}

proof fn lemma_copies_bounded(rs: Seq<Broker>, id: i32)
    ensures
        copies(rs, id) <= rs.len(),
    decreases rs.len(),
{
    if rs.len() > 0 {
        lemma_copies_bounded(rs.drop_last(), id);
    }
}

proof fn lemma_counts_bounded(ps: Seq<Partition>, id: i32)
    ensures
        led_by(ps, id) <= held_by(ps, id) <= places(ps),
    decreases ps.len(),
{
    if ps.len() > 0 {
        lemma_counts_bounded(ps.drop_last(), id);
        lemma_copies_bounded(ps.last().spec_replicas(), id);
    }
}

proof fn lemma_places_prefix(ps: Seq<Partition>, k: int)
    requires
        0 <= k <= ps.len(),
    ensures
        places(ps.subrange(0, k)) <= places(ps),
    decreases ps.len() - k,
{
    if k < ps.len() {
        lemma_places_prefix(ps, k + 1);
        assert(ps.subrange(0, k + 1).drop_last() =~= ps.subrange(0, k));
    } else {
        assert(ps.subrange(0, k) =~= ps);
    }
}

/// Adds the places of one partition to the counts of each node.
fn count_partition(ids: &Vec<i32>, led: &mut Vec<u32>, held: &mut Vec<u32>, q: &Partition, Ghost(before): Ghost<Seq<Partition>>, Ghost(limit): Ghost<nat>)
    requires
        old(led)@.len() == ids@.len(),
        old(held)@.len() == ids@.len(),
        places(before.push(*q)) <= limit,
        limit <= u32::MAX,
        forall|j: int| 0 <= j < ids@.len() ==> old(led)@[j] == led_by(before, #[trigger] ids@[j]) && old(held)@[j] == held_by(before, ids@[j]),
    ensures
        final(led)@.len() == ids@.len(),
        final(held)@.len() == ids@.len(),
        forall|j: int| 0 <= j < ids@.len() ==> final(led)@[j] == led_by(before.push(*q), #[trigger] ids@[j])
            && final(held)@[j] == held_by(before.push(*q), ids@[j]),
{
    let ghost after = before.push(*q);
    proof {
        assert(after.drop_last() =~= before);
        assert forall|j: int| 0 <= j < ids@.len() implies held_by(after, #[trigger] ids@[j]) <= limit by {
            lemma_counts_bounded(after, ids@[j]);
        }
    }
    let mut j: usize = 0;
    while j < ids.len()
        invariant
            0 <= j <= ids@.len(),
            led@.len() == ids@.len(),
            held@.len() == ids@.len(),
            after == before.push(*q),
            after.drop_last() == before,
            limit <= u32::MAX,
            forall|m: int| 0 <= m < ids@.len() ==> held_by(after, #[trigger] ids@[m]) <= limit,
            forall|m: int| 0 <= m < j ==> led@[m] == led_by(after, #[trigger] ids@[m]) && held@[m] == held_by(after, ids@[m]),
            forall|m: int| j <= m < ids@.len() ==> led@[m] == led_by(before, #[trigger] ids@[m]) && held@[m] == held_by(before, ids@[m]),
        decreases ids.len() - j,
    {
        let id = ids[j];
        let mut l: u32 = led[j];
        let mut h: u32 = held[j];
        proof {
            lemma_counts_bounded(after, id);
            lemma_copies_bounded(q.spec_replicas(), id);
        }
        match &q.leader {
            Some(b) => {
                if b.id == id {
                    l = l + 1;
                    h = h + 1;
                }
            },
            None => {},
        }
        let mut k: usize = 0;
        while k < q.replicas.len()
            invariant
                0 <= k <= q.replicas@.len(),
                h == held_by(before, id) + leads(*q, id) + copies(q.replicas@.subrange(0, k as int), id),
                held_by(after, id) <= limit,
                held_by(after, id) == held_by(before, id) + leads(*q, id) + copies(q.spec_replicas(), id),
                limit <= u32::MAX,
                q.spec_replicas() == q.replicas@,
            decreases q.replicas.len() - k,
        {
            proof {
                assert(q.replicas@.subrange(0, k + 1).drop_last() =~= q.replicas@.subrange(0, k as int));
                lemma_copies_prefix(q.replicas@, id, k + 1);
            }
            if q.replicas[k].id == id {
                h = h + 1;
            }
            k = k + 1;
        }
        proof {
            assert(q.replicas@.subrange(0, q.replicas@.len() as int) =~= q.replicas@);
        }
        led.set(j, l);
        held.set(j, h);
        j = j + 1;
    }
}

proof fn lemma_copies_prefix(rs: Seq<Broker>, id: i32, k: int)
    requires
        0 <= k <= rs.len(),
    ensures
        copies(rs.subrange(0, k), id) <= copies(rs, id),
    decreases rs.len() - k,
{
    if k < rs.len() {
        lemma_copies_prefix(rs, id, k + 1);
        assert(rs.subrange(0, k + 1).drop_last() =~= rs.subrange(0, k));
    } else {
        assert(rs.subrange(0, k) =~= rs);
    }
}

/// The load of every node of a cluster, in the order the nodes first
/// appear: the partitions it leads, and the partitions it holds (counting
/// those it leads and each replica on it).
pub fn node_loads(metadata: &Metadata) -> (loads: Vec<NodeLoad>)
    requires
        places(all_partitions(metadata.spec_topics())) <= u32::MAX,
    ensures
        loads@.len() == distinct_ids(metadata.spec_brokers()).len(),
        forall|j: int| 0 <= j < loads@.len() ==> {
            let id = distinct_ids(metadata.spec_brokers())[j];
            let all = all_partitions(metadata.spec_topics());
            &&& (#[trigger] loads@[j]).node_id@ == signed_decimal(id as int)
            &&& loads@[j].leader_partition_count == led_by(all, id)
            &&& loads@[j].partition_count == held_by(all, id)
            &&& loads@[j].total_size_bytes == 0
            &&& loads@[j].total_message_count == 0
        },
{
    let bs = &metadata.brokers;
    let mut ids: Vec<i32> = Vec::new();
    let mut i: usize = 0;
    while i < bs.len()
        invariant
            0 <= i <= bs@.len(),
            ids@ == distinct_ids(bs@.subrange(0, i as int)),
        decreases bs.len() - i,
    {
        proof {
            assert(bs@.subrange(0, i + 1).drop_last() =~= bs@.subrange(0, i as int));
        }
        let id = bs[i].id;
        let mut seen = false;
        let mut k: usize = 0;
        while k < ids.len()
            invariant
                0 <= k <= ids@.len(),
                seen == (exists|m: int| 0 <= m < k && ids@[m] == id),
            decreases ids.len() - k,
        {
            if ids[k] == id {
                seen = true;
            }
            k = k + 1;
        }
        if !seen {
            ids.push(id);
        }
        i = i + 1;
    }
    proof {
        assert(bs@.subrange(0, bs@.len() as int) =~= bs@);
    }
    let mut led: Vec<u32> = Vec::new();
    let mut held: Vec<u32> = Vec::new();
    let mut j: usize = 0;
    while j < ids.len()
        invariant
            0 <= j <= ids@.len(),
            led@.len() == j,
            held@.len() == j,
            forall|m: int| 0 <= m < j ==> led@[m] == 0 && held@[m] == 0,
        decreases ids.len() - j,
    {
        led.push(0);
        held.push(0);
        j = j + 1;
    }
    let ghost all = all_partitions(metadata.spec_topics());
    let ts = &metadata.topics;
    let mut t: usize = 0;
    let ghost mut done: Seq<Partition> = seq![];
    proof {
        assert(ts@.subrange(0, 0) =~= Seq::<Topic>::empty());
        assert forall|m: int| 0 <= m < ids@.len() implies led@[m] == led_by(done, #[trigger] ids@[m]) && held@[m] == held_by(done, ids@[m]) by {}
    }
    while t < ts.len()
        invariant
            0 <= t <= ts@.len(),
            ts@ == metadata.spec_topics(),
            all == all_partitions(ts@),
            places(all) <= u32::MAX,
            done == all_partitions(ts@.subrange(0, t as int)),
            led@.len() == ids@.len(),
            held@.len() == ids@.len(),
            forall|m: int| 0 <= m < ids@.len() ==> led@[m] == led_by(done, #[trigger] ids@[m]) && held@[m] == held_by(done, ids@[m]),
        decreases ts.len() - t,
    {
        let ps = &ts[t].partitions;
        proof {
            assert(ts@.subrange(0, t + 1).drop_last() =~= ts@.subrange(0, t as int));
            lemma_all_partitions_prefix(ts@, t + 1);
            lemma_topic_places_prefix(ts@, t + 1);
        }
        let ghost next_done = all_partitions(ts@.subrange(0, t + 1));
        let mut q: usize = 0;
        while q < ps.len()
            invariant
                0 <= q <= ps@.len(),
                ps@ == ts@[t as int].spec_partitions(),
                next_done == done + ps@,
                places(next_done) <= u32::MAX,
                led@.len() == ids@.len(),
                held@.len() == ids@.len(),
                forall|m: int| 0 <= m < ids@.len() ==> led@[m] == led_by(done + ps@.subrange(0, q as int), #[trigger] ids@[m])
                    && held@[m] == held_by(done + ps@.subrange(0, q as int), ids@[m]),
            decreases ps.len() - q,
        {
            let ghost prefix = done + ps@.subrange(0, q as int);
            proof {
                assert(prefix.push(ps@[q as int]) =~= next_done.subrange(0, done.len() + q + 1));
                lemma_places_prefix(next_done, done.len() + q + 1);
            }
            count_partition(&ids, &mut led, &mut held, &ps[q], Ghost(prefix), Ghost(u32::MAX as nat));
            proof {
                assert(done + ps@.subrange(0, q + 1) =~= prefix.push(ps@[q as int]));
            }
            q = q + 1;
        }
        proof {
            assert(ps@.subrange(0, ps@.len() as int) =~= ps@);
            assert(done + ps@ == next_done);
            done = next_done;
        }
        t = t + 1;
    }
    proof {
        assert(ts@.subrange(0, ts@.len() as int) =~= ts@);
    }
    let mut loads: Vec<NodeLoad> = Vec::new();
    let mut j: usize = 0;
    while j < ids.len()
        invariant
            0 <= j <= ids@.len(),
            led@.len() == ids@.len(),
            held@.len() == ids@.len(),
            ids@ == distinct_ids(metadata.spec_brokers()),
            forall|m: int| 0 <= m < ids@.len() ==> led@[m] == led_by(all, #[trigger] ids@[m]) && held@[m] == held_by(all, ids@[m]),
            loads@.len() == j,
            forall|m: int| 0 <= m < j ==> {
                let id = ids@[m];
                &&& (#[trigger] loads@[m]).node_id@ == signed_decimal(id as int)
                &&& loads@[m].leader_partition_count == led_by(all, id)
                &&& loads@[m].partition_count == held_by(all, id)
                &&& loads@[m].total_size_bytes == 0
                &&& loads@[m].total_message_count == 0
            },
        decreases ids.len() - j,
    {
        loads.push(NodeLoad {
            node_id: i64_to_decimal(ids[j] as i64),
            partition_count: held[j],
            leader_partition_count: led[j],
            total_size_bytes: 0,
            total_message_count: 0,
        });
        j = j + 1;
    }
    loads
}

proof fn lemma_all_partitions_prefix(ts: Seq<Topic>, k: int)
    requires
        0 < k <= ts.len(),
    ensures
        all_partitions(ts.subrange(0, k)) == all_partitions(ts.subrange(0, k - 1)) + ts[k - 1].spec_partitions(),
{
    assert(ts.subrange(0, k).drop_last() =~= ts.subrange(0, k - 1));
}

proof fn lemma_places_append(a: Seq<Partition>, b: Seq<Partition>)
    ensures
        places(a + b) == places(a) + places(b),
    decreases b.len(),
{
    if b.len() > 0 {
        lemma_places_append(a, b.drop_last());
        assert((a + b).drop_last() =~= a + b.drop_last());
    } else {
        assert(a + b =~= a);
    }
}

proof fn lemma_topic_places_prefix(ts: Seq<Topic>, k: int)
    requires
        0 <= k <= ts.len(),
    ensures
        places(all_partitions(ts.subrange(0, k))) <= places(all_partitions(ts)),
    decreases ts.len() - k,
{
    if k < ts.len() {
        lemma_topic_places_prefix(ts, k + 1);
        lemma_all_partitions_prefix(ts, k + 1);
        lemma_places_append(all_partitions(ts.subrange(0, k)), ts[k].spec_partitions());
    } else {
        assert(ts.subrange(0, k) =~= ts);
    }
}

/// How partitions are placed on nodes.
#[derive(Debug, Clone, Copy, PartialEq, Eq, Structural)]
pub enum PartitionAssignmentStrategy {
    RoundRobin,
    Random,
    LoadBased,
    RackAware,
}

/// The names of the nodes of a cluster: their ids in decimal, in order.
pub fn available_nodes(metadata: &Metadata) -> (nodes: Vec<String>)
    ensures
        names_view(nodes@) == metadata.spec_brokers().map_values(|b: Broker| signed_decimal(b.spec_id() as int)),
{
    let bs = &metadata.brokers;
    let mut nodes: Vec<String> = Vec::new();
    let mut i: usize = 0;
    while i < bs.len()
        invariant
            0 <= i <= bs@.len(),
            names_view(nodes@) == bs@.subrange(0, i as int).map_values(|b: Broker| signed_decimal(b.spec_id() as int)),
        decreases bs.len() - i,
    {
        let ghost prev = nodes@;
        nodes.push(i64_to_decimal(bs[i].id as i64));
        proof {
            assert(names_view(nodes@) =~= names_view(prev).push(signed_decimal(bs@[i as int].spec_id() as int)));
            assert(bs@.subrange(0, i + 1).map_values(|b: Broker| signed_decimal(b.spec_id() as int)) =~= bs@.subrange(
                0,
                i as int,
            ).map_values(|b: Broker| signed_decimal(b.spec_id() as int)).push(signed_decimal(bs@[i as int].spec_id() as int)));
        }
        i = i + 1;
    }
    proof {
        assert(bs@.subrange(0, bs@.len() as int) =~= bs@);
    }
    nodes
}

/// The factor by which partitions multiply the places they take.
pub open spec fn replica_factor(rf: i16) -> int {
    if rf > 1 { rf as int } else { 1 }
}

/// Places the partitions of a topic on `nodes` by the given strategy;
/// refused when no node is offered. Load-based placement starts from
/// `loads`.
pub fn assign_partitions(
    strategy: PartitionAssignmentStrategy,
    partitions: i32,
    replication_factor: i16,
    nodes: &[String],
    loads: &Vec<NodeLoad>,
    now: u64,
) -> (r: Result<Vec<PartitionAssignment>, String>)
    requires
        strategy == PartitionAssignmentStrategy::LoadBased ==> partitions as int * replica_factor(replication_factor) <= u32::MAX
            && forall|i: int| 0 <= i < loads@.len() ==> (#[trigger] loads@[i]).partition_count + partitions as int
                * replica_factor(replication_factor) <= u32::MAX && loads@[i].leader_partition_count + partitions as int
                * replica_factor(replication_factor) <= u32::MAX,
        strategy == PartitionAssignmentStrategy::RackAware ==> replication_factor <= 1 || partitions as int
            + replication_factor as int - 2 <= i32::MAX,
    ensures
        nodes@.len() == 0 ==> (r matches Err(e) && e@ == "No available nodes for partition assignment"@),
        nodes@.len() > 0 ==> (r matches Ok(v) && assignments_view(v@) == match strategy {
            PartitionAssignmentStrategy::RoundRobin => round_robin(names_view(nodes@), partitions as int, replication_factor as int, now),
            PartitionAssignmentStrategy::Random => first_nodes(names_view(nodes@), partitions as int, replication_factor, now),
            PartitionAssignmentStrategy::LoadBased => load_based_from(
                sort_stably(initial_entries(names_view(nodes@), loads@), true),
                0,
                partitions as int,
                replication_factor as int,
                (if replication_factor < (nodes@.len() as i16) { replication_factor } else { (nodes@.len() as i16) }) as int,
                now,
            ),
            PartitionAssignmentStrategy::RackAware => rack_aware(
                racks_of(names_view(nodes@)),
                partitions as int,
                replication_factor as int,
                now,
            ),
        }),
{
    if nodes.len() == 0 {
        return Err(string_from_chars(&chars_of("No available nodes for partition assignment")));
    }
    match strategy {
        PartitionAssignmentStrategy::RoundRobin => Ok(assign_partitions_round_robin(partitions, replication_factor, nodes, now)),
        PartitionAssignmentStrategy::Random => Ok(assign_partitions_random(partitions, replication_factor, nodes, now)),
        PartitionAssignmentStrategy::LoadBased => Ok(assign_partitions_load_based(partitions, replication_factor, nodes, loads, now)),
        PartitionAssignmentStrategy::RackAware => assign_partitions_rack_aware(partitions, replication_factor, nodes, now),
    }
}

/// The replicas of a partition as assignments: its leader first, then each
/// replica on another node than the leader, node names being ids in
/// decimal.
pub open spec fn replica_assignments(q: Partition, now: u64) -> Seq<AssignmentView> {
    let leader = match q.spec_leader() {
        Some(b) => seq![(q.spec_id(), signed_decimal(b.spec_id() as int), PartitionRole::Leader, now)],
        None => seq![],
    };
    leader + q.spec_replicas().filter(|b: Broker| match q.spec_leader() {
        Some(l) => l.spec_id() != b.spec_id(),
        None => true,
    }).map_values(|b: Broker| (q.spec_id(), signed_decimal(b.spec_id() as int), PartitionRole::Follower, now))
}

/// The replicas of a partition as assignments made at `now`.
pub fn partition_replicas(q: &Partition, now: u64) -> (r: Vec<PartitionAssignment>)
    ensures
        assignments_view(r@) == replica_assignments(*q, now),
{
    let mut r: Vec<PartitionAssignment> = Vec::new();
    match &q.leader {
        Some(b) => {
            r.push(PartitionAssignment { partition_id: q.id, node_id: i64_to_decimal(b.id as i64), role: PartitionRole::Leader, assigned_at: now });
        },
        None => {},
    }
    let ghost head = assignments_view(r@);
    let ghost keep = |b: Broker| match q.spec_leader() {
        Some(l) => l.spec_id() != b.spec_id(),
        None => true,
    };
    let ghost as_follower = |b: Broker| (q.spec_id(), signed_decimal(b.spec_id() as int), PartitionRole::Follower, now);
    proof {
        reveal_with_fuel(Seq::filter, 1);
        assert(q.replicas@.subrange(0, 0).filter(keep) =~= Seq::<Broker>::empty());
        assert(assignments_view(r@) =~= head + q.replicas@.subrange(0, 0).filter(keep).map_values(as_follower));
    }
    let mut i: usize = 0;
    while i < q.replicas.len()
        invariant
            0 <= i <= q.replicas@.len(),
            assignments_view(r@) == head + q.replicas@.subrange(0, i as int).filter(keep).map_values(as_follower),
            keep == (|b: Broker| match q.spec_leader() {
                Some(l) => l.spec_id() != b.spec_id(),
                None => true,
            }),
            as_follower == (|b: Broker| (q.spec_id(), signed_decimal(b.spec_id() as int), PartitionRole::Follower, now)),
        decreases q.replicas.len() - i,
    {
        let b = q.replicas[i];
        let other = match &q.leader {
            Some(l) => l.id != b.id,
            None => true,
        };
        let ghost prev = assignments_view(r@);
        proof {
            reveal_with_fuel(Seq::filter, 1);
            assert(q.replicas@.subrange(0, i + 1).drop_last() =~= q.replicas@.subrange(0, i as int));
            assert(q.replicas@.subrange(0, i + 1).last() == b);
            assert(other == keep(b));
        }
        if other {
            r.push(PartitionAssignment { partition_id: q.id, node_id: i64_to_decimal(b.id as i64), role: PartitionRole::Follower, assigned_at: now });
            proof {
                let before_f = q.replicas@.subrange(0, i as int).filter(keep);
                assert(q.replicas@.subrange(0, i + 1).filter(keep) == before_f.push(b));
                assert(assignments_view(r@) =~= prev.push(as_follower(b)));
                assert(before_f.push(b).map_values(as_follower) =~= before_f.map_values(as_follower).push(as_follower(b)));
                assert(assignments_view(r@) =~= head + q.replicas@.subrange(0, i + 1).filter(keep).map_values(as_follower));
            }
        } else {
            proof {
                assert(q.replicas@.subrange(0, i + 1).filter(keep) == q.replicas@.subrange(0, i as int).filter(keep));
            }
        }
        i = i + 1;
    }
    proof {
        assert(q.replicas@.subrange(0, q.replicas@.len() as int) =~= q.replicas@);
    }
    r
}

/// Where partition `partition_id` of topic `topic_name` is in the
/// metadata: the first topic of that name and its first partition of that
/// number.
pub fn locate_partition(metadata: &Metadata, topic_name: &str, partition_id: i32) -> (r: Result<(usize, usize), String>)
    ensures
        match r {
            Ok((t, q)) => {
                &&& t < metadata.spec_topics().len()
                &&& metadata.spec_topics()[t as int].spec_name() == topic_name@
                &&& forall|k: int| 0 <= k < t ==> (#[trigger] metadata.spec_topics()[k]).spec_name() != topic_name@
                &&& q < metadata.spec_topics()[t as int].spec_partitions().len()
                &&& metadata.spec_topics()[t as int].spec_partitions()[q as int].spec_id() == partition_id
                &&& forall|k: int| 0 <= k < q ==> (#[trigger] metadata.spec_topics()[t as int].spec_partitions()[k]).spec_id() != partition_id
            },
            Err(e) => {
                ||| (forall|k: int| 0 <= k < metadata.spec_topics().len() ==> (#[trigger] metadata.spec_topics()[k]).spec_name() != topic_name@)
                    && e@ == "Topic not found: "@ + topic_name@
                ||| exists|t: int| #![trigger metadata.spec_topics()[t]] 0 <= t < metadata.spec_topics().len()
                    && metadata.spec_topics()[t].spec_name() == topic_name@
                    && (forall|k: int| 0 <= k < t ==> (#[trigger] metadata.spec_topics()[k]).spec_name() != topic_name@)
                    && (forall|k: int| 0 <= k < metadata.spec_topics()[t].spec_partitions().len()
                        ==> (#[trigger] metadata.spec_topics()[t].spec_partitions()[k]).spec_id() != partition_id)
                    && e@ == "Partition not found: "@ + signed_decimal(partition_id as int)
            },
        },
{
    let ts = &metadata.topics;
    let mut t: usize = 0;
    while t < ts.len()
        invariant
            0 <= t <= ts@.len(),
            ts@ == metadata.spec_topics(),
            forall|k: int| 0 <= k < t ==> (#[trigger] ts@[k]).spec_name() != topic_name@,
        decreases ts.len() - t,
    {
        if str_eq(ts[t].name.as_str(), topic_name) {
            let ps = &ts[t].partitions;
            let mut q: usize = 0;
            while q < ps.len()
                invariant
                    0 <= q <= ps@.len(),
                    t < ts@.len(),
                    ts@ == metadata.spec_topics(),
                    ts@[t as int].spec_name() == topic_name@,
                    forall|k: int| 0 <= k < t ==> (#[trigger] ts@[k]).spec_name() != topic_name@,
                    ps@ == ts@[t as int].spec_partitions(),
                    forall|k: int| 0 <= k < q ==> (#[trigger] ps@[k]).spec_id() != partition_id,
                decreases ps.len() - q,
            {
                if ps[q].id == partition_id {
                    return Ok((t, q));
                }
                q = q + 1;
            }
            let mut cs = chars_of("Partition not found: ");
            append_chars(&mut cs, i64_to_decimal(partition_id as i64).as_str());
            return Err(string_from_chars(&cs));
        }
        t = t + 1;
    }
    let mut cs = chars_of("Topic not found: ");
    append_chars(&mut cs, topic_name);
    Err(string_from_chars(&cs))
}

/// A move of one partition's lead from one node to another.
#[derive(Debug, Clone, PartialEq, Eq)]
pub struct PartitionMigrationPlan {
    pub partition_id: i32,
    pub topic_name: String,
    pub source_node_id: String,
    pub target_node_id: String,
    pub priority: u32,
    pub estimated_size_bytes: u64,
    pub estimated_duration_sec: u64,
}

pub type PlanView = (i32, Seq<char>, Seq<char>, Seq<char>, u32, u64, u64);

pub open spec fn plan_view(m: PartitionMigrationPlan) -> PlanView {
    (m.partition_id, m.topic_name@, m.source_node_id@, m.target_node_id@, m.priority, m.estimated_size_bytes, m.estimated_duration_sec)
}

pub open spec fn plans_view(v: Seq<PartitionMigrationPlan>) -> Seq<PlanView> {
    v.map_values(|m: PartitionMigrationPlan| plan_view(m))
}

/// Whether a replica of `q` is on the node named `node`.
pub open spec fn has_replica_on(q: Partition, node: Seq<char>) -> bool {
    exists|k: int| 0 <= k < q.spec_replicas().len() && signed_decimal(#[trigger] q.spec_replicas()[k].spec_id() as int) == node
}

/// Whether `q` could move from node `src` to node `tgt`: `src` leads it and
/// `tgt` holds no replica of it.
pub open spec fn movable(q: Partition, src: Seq<char>, tgt: Seq<char>) -> bool {
    &&& q.spec_leader() matches Some(l) && signed_decimal(l.spec_id() as int) == src
    &&& !has_replica_on(q, tgt)
}

/// The moves from `src` to `tgt` among the partitions `ps` of topic `name`.
pub open spec fn partition_moves(name: Seq<char>, ps: Seq<Partition>, src: Seq<char>, tgt: Seq<char>) -> Seq<PlanView>
    decreases ps.len(),
{
    if ps.len() == 0 {
        seq![]
    } else {
        partition_moves(name, ps.drop_last(), src, tgt) + if movable(ps.last(), src, tgt) {
            seq![(ps.last().spec_id(), name, src, tgt, 1u32, 0u64, 60u64)]
        } else {
            seq![]
        }
    }
}

/// The moves from `src` to `tgt` over all topics, topic by topic.
pub open spec fn topic_moves(ts: Seq<Topic>, src: Seq<char>, tgt: Seq<char>) -> Seq<PlanView>
    decreases ts.len(),
{
    if ts.len() == 0 {
        seq![]
    } else {
        topic_moves(ts.drop_last(), src, tgt) + partition_moves(ts.last().spec_name(), ts.last().spec_partitions(), src, tgt)
    }
}

/// Loads as entries ordered by count, largest first, when sorted by their
/// first key: the room each leaves below the largest count.
pub open spec fn by_count_desc(loads: Seq<NodeLoad>) -> Seq<LoadEntry> {
    loads.map_values(|l: NodeLoad| (l.node_id@, (u32::MAX - l.partition_count) as u32, l.partition_count))
}

/// The plan built pairwise from both ends of `sorted` (most loaded
/// first): while the pair's source holds more than `avg` partitions and
/// its target fewer, the source's movable partitions go to the target, up
/// to `max` moves in all.
pub open spec fn migration_plans_from(
    sorted: Seq<LoadEntry>,
    ts: Seq<Topic>,
    avg: int,
    max: int,
    i: int,
    j: int,
    acc: Seq<PlanView>,
) -> Seq<PlanView>
    decreases j + 1 - i,
{
    if !(i < j && acc.len() < max) || sorted[i].2 <= avg || sorted[j].2 >= avg {
        acc
    } else {
        let moves = topic_moves(ts, sorted[i].0, sorted[j].0);
        let room = max - acc.len();
        let taken = if moves.len() < room { moves } else { moves.take(room) };
        migration_plans_from(sorted, ts, avg, max, i + 1, j - 1, acc + taken)
    }
}

/// `a / b` rounded up.
pub open spec fn ceil_div(a: int, b: int) -> int {
    a / b + if a % b == 0 { 0int } else { 1int }
}

pub open spec fn total_count(loads: Seq<NodeLoad>) -> int
    decreases loads.len(),
{
    if loads.len() == 0 {
        0
    } else {
        total_count(loads.drop_last()) + loads.last().partition_count
    }
}

/// The moves from node `src` to node `tgt`.
fn moves_between(metadata: &Metadata, src: &String, tgt: &String) -> (r: Vec<PartitionMigrationPlan>)
    ensures
        plans_view(r@) == topic_moves(metadata.spec_topics(), src@, tgt@),
{
    let ts = &metadata.topics;
    let mut r: Vec<PartitionMigrationPlan> = Vec::new();
    let mut t: usize = 0;
    proof {
        assert(ts@.subrange(0, 0) =~= Seq::<Topic>::empty());
        assert(plans_view(r@) =~= Seq::<PlanView>::empty());
    }
    while t < ts.len()
        invariant
            0 <= t <= ts@.len(),
            ts@ == metadata.spec_topics(),
            plans_view(r@) == topic_moves(ts@.subrange(0, t as int), src@, tgt@),
        decreases ts.len() - t,
    {
        let topic = &ts[t];
        let ps = &topic.partitions;
        let ghost before = plans_view(r@);
        let mut q: usize = 0;
        proof {
            assert(ps@.subrange(0, 0) =~= Seq::<Partition>::empty());
            assert(plans_view(r@) =~= before + partition_moves(topic.name@, ps@.subrange(0, 0), src@, tgt@));
        }
        while q < ps.len()
            invariant
                0 <= q <= ps@.len(),
                plans_view(r@) == before + partition_moves(topic.name@, ps@.subrange(0, q as int), src@, tgt@),
            decreases ps.len() - q,
        {
            let part = &ps[q];
            proof {
                assert(ps@.subrange(0, q + 1).drop_last() =~= ps@.subrange(0, q as int));
                assert(ps@.subrange(0, q + 1).last() == *part);
            }
            let mut leads_here = false;
            match &part.leader {
                Some(l) => {
                    leads_here = str_eq(i64_to_decimal(l.id as i64).as_str(), src.as_str());
                },
                None => {},
            }
            proof {
                assert(leads_here == (part.spec_leader() matches Some(l) && signed_decimal(l.spec_id() as int) == src@));
            }
            if leads_here {
                let mut on_target = false;
                let mut k: usize = 0;
                while k < part.replicas.len()
                    invariant
                        0 <= k <= part.replicas@.len(),
                        on_target == exists|m: int| 0 <= m < k && signed_decimal(#[trigger] part.replicas@[m].spec_id() as int) == tgt@,
                    decreases part.replicas.len() - k,
                {
                    let hit = str_eq(i64_to_decimal(part.replicas[k].id as i64).as_str(), tgt.as_str());
                    proof {
                        assert(hit == (signed_decimal(part.replicas@[k as int].spec_id() as int) == tgt@));
                        if hit {
                            assert(signed_decimal(part.replicas@[k as int].spec_id() as int) == tgt@);
                        } else if !on_target {
                            assert forall|m: int| 0 <= m < k + 1 implies signed_decimal(#[trigger] part.replicas@[m].spec_id() as int) != tgt@ by {
                                if m < k {
                                    assert(!(0 <= m < k && signed_decimal(part.replicas@[m].spec_id() as int) == tgt@));
                                }
                            }
                        }
                    }
                    on_target = on_target || hit;
                    k = k + 1;
                }
                proof {
                    assert(part.spec_replicas() == part.replicas@);
                    if on_target {
                        let m = choose|m: int| 0 <= m < k && signed_decimal(#[trigger] part.replicas@[m].spec_id() as int) == tgt@;
                        assert(signed_decimal(part.spec_replicas()[m].spec_id() as int) == tgt@);
                    } else {
                        assert forall|m: int| 0 <= m < part.spec_replicas().len() implies signed_decimal(
                            #[trigger] part.spec_replicas()[m].spec_id() as int,
                        ) != tgt@ by {
                            assert(!(0 <= m < k && signed_decimal(part.replicas@[m].spec_id() as int) == tgt@));
                        }
                    }
                    assert(on_target == has_replica_on(*part, tgt@));
                }
                if !on_target {
                    let m = PartitionMigrationPlan {
                        partition_id: part.id,
                        topic_name: copy_string(&topic.name),
                        source_node_id: copy_string(src),
                        target_node_id: copy_string(tgt),
                        priority: 1,
                        estimated_size_bytes: 0,
                        estimated_duration_sec: 60,
                    };
                    let ghost prev = plans_view(r@);
                    r.push(m);
                    proof {
                        assert(plans_view(r@) =~= prev.push(plan_view(m)));
                    }
                }
            }
            proof {
                assert(plans_view(r@) =~= before + partition_moves(topic.name@, ps@.subrange(0, q + 1), src@, tgt@));
            }
            q = q + 1;
        }
        proof {
            assert(ps@.subrange(0, ps@.len() as int) =~= ps@);
            assert(ts@.subrange(0, t + 1).drop_last() =~= ts@.subrange(0, t as int));
            assert(ts@.subrange(0, t + 1).last() == *topic);
        }
        t = t + 1;
    }
    proof {
        assert(ts@.subrange(0, ts@.len() as int) =~= ts@);
    }
    r
}

/// Suggests moves that even out the partitions the nodes hold: with the
/// nodes ordered from most to least loaded (ties in the order given), the
/// most loaded gives its movable partitions to the least loaded, the
/// second to the second least, and so on while the giver holds more than
/// the average (rounded up) and the taker fewer; at most
/// `max_partitions_to_move` moves, none with fewer than two nodes.
pub fn generate_migration_plan(loads: &Vec<NodeLoad>, metadata: &Metadata, max_partitions_to_move: u32) -> (r: Vec<PartitionMigrationPlan>)
    requires
        total_count(loads@) <= u32::MAX,
    ensures
        loads@.len() < 2 ==> r@.len() == 0,
        loads@.len() >= 2 ==> plans_view(r@) == migration_plans_from(
            sort_stably(by_count_desc(loads@), true),
            metadata.spec_topics(),
            ceil_div(total_count(loads@), loads@.len() as int),
            max_partitions_to_move as int,
            0,
            loads@.len() - 1,
            seq![],
        ),
{
    let n = loads.len();
    if n < 2 {
        return Vec::new();
    }
    let mut entries: Vec<(String, u32, u32)> = Vec::new();
    let mut total: u64 = 0;
    let mut i: usize = 0;
    while i < n
        invariant
            0 <= i <= n,
            n == loads@.len(),
            total_count(loads@) <= u32::MAX,
            total == total_count(loads@.subrange(0, i as int)),
            entries_view(entries@) == by_count_desc(loads@).subrange(0, i as int),
        decreases n - i,
    {
        proof {
            assert(loads@.subrange(0, i + 1).drop_last() =~= loads@.subrange(0, i as int));
            lemma_total_prefix(loads@, i + 1);
        }
        let pc = loads[i].partition_count;
        let ghost prev = entries_view(entries@);
        entries.push((copy_string(&loads[i].node_id), u32::MAX - pc, pc));
        proof {
            assert(entries_view(entries@) =~= prev.push(by_count_desc(loads@)[i as int]));
            assert(by_count_desc(loads@).subrange(0, i + 1) =~= by_count_desc(loads@).subrange(0, i as int).push(
                by_count_desc(loads@)[i as int],
            ));
        }
        total = total + pc as u64;
        i = i + 1;
    }
    proof {
        assert(loads@.subrange(0, n as int) =~= loads@);
        assert(by_count_desc(loads@).subrange(0, n as int) =~= by_count_desc(loads@));
    }
    let sorted = sort_entries(&entries, true);
    let ghost sv = entries_view(sorted@);
    let avg: u64 = total / (n as u64) + if total % (n as u64) == 0 { 0 } else { 1 };
    let max = max_partitions_to_move as usize;
    let ghost ts = metadata.spec_topics();
    proof {
        lemma_sort_keeps_entries(by_count_desc(loads@), true);
    }
    let mut plans: Vec<PartitionMigrationPlan> = Vec::new();
    let mut si: usize = 0;
    let mut ti: usize = n - 1;
    let ghost goal = migration_plans_from(sv, ts, avg as int, max as int, 0, n - 1, seq![]);
    while si < ti && plans.len() < max
        invariant
            sorted@.len() == n,
            sv == entries_view(sorted@),
            0 <= si,
            ti < n,
            si <= ti + 1,
            ts == metadata.spec_topics(),
            goal == migration_plans_from(sv, ts, avg as int, max as int, si as int, ti as int, plans_view(plans@)),
        ensures
            goal == plans_view(plans@),
        decreases ti + 1 - si,
    {
        let s_count = sorted[si].2;
        let t_count = sorted[ti].2;
        if (s_count as u64) <= avg || (t_count as u64) >= avg {
            break;
        }
        let moves = moves_between(metadata, &sorted[si].0, &sorted[ti].0);
        let room = max - plans.len();
        let ghost before = plans_view(plans@);
        let ghost mv = plans_view(moves@);
        let take = if moves.len() < room { moves.len() } else { room };
        let mut k: usize = 0;
        while k < take
            invariant
                0 <= k <= take,
                take <= moves@.len(),
                plans_view(plans@) == before + mv.subrange(0, k as int),
                mv == plans_view(moves@),
            decreases take - k,
        {
            let m = &moves[k];
            let copy = PartitionMigrationPlan {
                partition_id: m.partition_id,
                topic_name: copy_string(&m.topic_name),
                source_node_id: copy_string(&m.source_node_id),
                target_node_id: copy_string(&m.target_node_id),
                priority: m.priority,
                estimated_size_bytes: m.estimated_size_bytes,
                estimated_duration_sec: m.estimated_duration_sec,
            };
            let ghost prev = plans_view(plans@);
            plans.push(copy);
            proof {
                assert(plans_view(plans@) =~= prev.push(mv[k as int]));
                assert(mv.subrange(0, k + 1) =~= mv.subrange(0, k as int).push(mv[k as int]));
            }
            k = k + 1;
        }
        proof {
            let taken = if mv.len() < room { mv } else { mv.take(room as int) };
            assert(mv.subrange(0, take as int) =~= taken);
            assert(plans_view(plans@) =~= before + taken);
        }
        si = si + 1;
        ti = ti - 1;
    }
    plans
}

proof fn lemma_total_prefix(loads: Seq<NodeLoad>, k: int)
    requires
        0 <= k <= loads.len(),
    ensures
        total_count(loads.subrange(0, k)) <= total_count(loads),
    decreases loads.len() - k,
{
    if k < loads.len() {
        lemma_total_prefix(loads, k + 1);
        assert(loads.subrange(0, k + 1).drop_last() =~= loads.subrange(0, k));
    } else {
        assert(loads.subrange(0, k) =~= loads);
    }
}

/// A plan holds what it started with, and no more moves than allowed.
pub proof fn lemma_plan_within_limit(
    sorted: Seq<LoadEntry>,
    ts: Seq<Topic>,
    avg: int,
    max: int,
    i: int,
    j: int,
    acc: Seq<PlanView>,
)
    requires
        acc.len() <= max,
    ensures
        migration_plans_from(sorted, ts, avg, max, i, j, acc).len() <= max,
        acc.is_prefix_of(migration_plans_from(sorted, ts, avg, max, i, j, acc)),
    decreases j + 1 - i,
{
    if !(!(i < j && acc.len() < max) || sorted[i].2 <= avg || sorted[j].2 >= avg) {
        let moves = topic_moves(ts, sorted[i].0, sorted[j].0);
        let room = max - acc.len();
        let taken = if moves.len() < room { moves } else { moves.take(room) };
        lemma_plan_within_limit(sorted, ts, avg, max, i + 1, j - 1, acc + taken);
        let rest = migration_plans_from(sorted, ts, avg, max, i + 1, j - 1, acc + taken);
        assert(acc.is_prefix_of(rest)) by {
            assert forall|k: int| 0 <= k < acc.len() implies acc[k] == rest[k] by {
                assert((acc + taken)[k] == acc[k]);
            }
        }
    }
}

/// Whether a rebalance may start at `now`: rebalancing must be enabled and,
/// after an earlier one, the least interval must have gone by.
pub fn rebalance_gate(enabled: bool, last_rebalance_time: Option<u64>, now: u64, min_interval: u64) -> (r: Result<(), String>)
    requires
        last_rebalance_time matches Some(t) ==> t <= now,
    ensures
        !enabled ==> (r matches Err(e) && e@ == "Rebalance is disabled in the configuration"@),
        enabled ==> match last_rebalance_time {
            Some(t) => if now - t < min_interval {
                r matches Err(e) && e@ == "Minimum rebalance interval not reached. Please wait "@ + decimal(
                    (min_interval - (now - t)) as nat,
                ) + " seconds."@
            } else {
                r is Ok
            },
            None => r is Ok,
        },
{
    if !enabled {
        return Err(string_from_chars(&chars_of("Rebalance is disabled in the configuration")));
    }
    match last_rebalance_time {
        Some(t) => {
            let elapsed = now - t;
            if elapsed < min_interval {
                let mut cs = chars_of("Minimum rebalance interval not reached. Please wait ");
                append_chars(&mut cs, u64_to_decimal(min_interval - elapsed).as_str());
                append_chars(&mut cs, " seconds.");
                return Err(string_from_chars(&cs));
            }
            Ok(())
        },
        None => Ok(()),
    }
}

/// When the next rebalance may come: for an unbalanced cluster with
/// rebalancing enabled, the least interval after the last rebalance.
pub fn next_rebalance_time(is_balanced: bool, enabled: bool, last_rebalance_time: Option<u64>, min_interval: u64) -> (r: Option<u64>)
    requires
        last_rebalance_time matches Some(t) ==> t + min_interval <= u64::MAX,
    ensures
        r == if !is_balanced && enabled {
            match last_rebalance_time {
                Some(t) => Some((t + min_interval) as u64),
                None => None,
            }
        } else {
            None
        },
{
    if !is_balanced && enabled {
        match last_rebalance_time {
            Some(t) => Some(t + min_interval),
            None => None,
        }
    } else {
        None
    }
}

/// The moves of a plan that a rebalance carries out: those on the named
/// topics, when topics are named, and no more than `max_partitions_to_move`
/// of them, when a most is given.
pub fn select_migrations(
    plans: &Vec<PartitionMigrationPlan>,
    topics: &Option<Vec<String>>,
    max_partitions_to_move: Option<u32>,
) -> (r: Vec<PartitionMigrationPlan>)
    ensures
        ({
            let kept = match topics {
                Some(list) => plans_view(plans@).filter(|m: PlanView| names_view(list@).contains(m.1)),
                None => plans_view(plans@),
            };
            plans_view(r@) == match max_partitions_to_move {
                Some(k) => if kept.len() > k { kept.take(k as int) } else { kept },
                None => kept,
            }
        }),
{
    let ghost pv = plans_view(plans@);
    let ghost keep = |m: PlanView| match topics {
        Some(list) => names_view(list@).contains(m.1),
        None => true,
    };
    let mut kept: Vec<PartitionMigrationPlan> = Vec::new();
    let mut i: usize = 0;
    proof {
        reveal_with_fuel(Seq::filter, 1);
        assert(pv.subrange(0, 0).filter(keep) =~= Seq::<PlanView>::empty());
    }
    while i < plans.len()
        invariant
            0 <= i <= plans@.len(),
            pv == plans_view(plans@),
            keep == (|m: PlanView| match topics {
                Some(list) => names_view(list@).contains(m.1),
                None => true,
            }),
            plans_view(kept@) == pv.subrange(0, i as int).filter(keep),
        decreases plans.len() - i,
    {
        let m = &plans[i];
        let wanted = match topics {
            Some(list) => {
                let mut found = false;
                let mut k: usize = 0;
                while k < list.len()
                    invariant
                        0 <= k <= list@.len(),
                        found == exists|x: int| 0 <= x < k && list@[x]@ == m.topic_name@,
                    decreases list.len() - k,
                {
                    let hit = str_eq(list[k].as_str(), m.topic_name.as_str());
                    proof {
                        if !found && !hit {
                            assert forall|x: int| 0 <= x < k + 1 implies list@[x]@ != m.topic_name@ by {
                                if x < k {
                                    assert(!(0 <= x < k && list@[x]@ == m.topic_name@));
                                }
                            }
                        }
                    }
                    found = found || hit;
                    k = k + 1;
                }
                proof {
                    if found {
                        let x = choose|x: int| 0 <= x < k && list@[x]@ == m.topic_name@;
                        assert(names_view(list@)[x] == m.topic_name@);
                    } else {
                        assert forall|x: int| 0 <= x < names_view(list@).len() implies names_view(list@)[x] != m.topic_name@ by {
                            assert(!(0 <= x < k && list@[x]@ == m.topic_name@));
                        }
                    }
                }
                found
            },
            None => true,
        };
        proof {
            reveal_with_fuel(Seq::filter, 1);
            assert(wanted == keep(plan_view(*m)));
            assert(pv.subrange(0, i + 1).drop_last() =~= pv.subrange(0, i as int));
            assert(pv.subrange(0, i + 1).last() == plan_view(*m));
        }
        if wanted {
            let copy = PartitionMigrationPlan {
                partition_id: m.partition_id,
                topic_name: copy_string(&m.topic_name),
                source_node_id: copy_string(&m.source_node_id),
                target_node_id: copy_string(&m.target_node_id),
                priority: m.priority,
                estimated_size_bytes: m.estimated_size_bytes,
                estimated_duration_sec: m.estimated_duration_sec,
            };
            let ghost prev = plans_view(kept@);
            kept.push(copy);
            proof {
                assert(plans_view(kept@) =~= prev.push(plan_view(*m)));
            }
        }
        i = i + 1;
    }
    proof {
        assert(pv.subrange(0, plans@.len() as int) =~= pv);
        match topics {
            Some(list) => {
                assert(keep =~= (|m: PlanView| names_view(list@).contains(m.1)));
            },
            None => {
                assert(pv.filter(keep) =~= pv) by {
                    lemma_filter_all_true(pv, keep);
                }
            },
        }
    }
    match max_partitions_to_move {
        Some(k) => {
            if kept.len() > k as usize {
                kept.truncate(k as usize);
            }
        },
        None => {},
    }
    kept
}

proof fn lemma_filter_all_true(s: Seq<PlanView>, keep: spec_fn(PlanView) -> bool)
    requires
        forall|m: PlanView| #[trigger] keep(m),
    ensures
        s.filter(keep) == s,
    decreases s.len(),
{
    reveal_with_fuel(Seq::filter, 1);
    if s.len() > 0 {
        lemma_filter_all_true(s.drop_last(), keep);
        assert(s.drop_last().push(s.last()) =~= s);
    }
}

} // verus!
