use arroyo_control::partition::{
    assign_partitions, assign_partitions_load_based, assign_partitions_rack_aware, assign_partitions_random,
    assign_partitions_round_robin, available_nodes, generate_migration_plan, locate_partition, next_rebalance_time,
    node_loads, partition_replicas, rebalance_gate, select_migrations, AdminClient, NodeLoad, PartitionAssignment,
    PartitionAssignmentStrategy, PartitionMigrationPlan, PartitionRole,
};

fn nodes(names: &[&str]) -> Vec<String> {
    names.iter().map(|s| s.to_string()).collect()
}

fn pa(p: i32, node: &str, role: PartitionRole) -> PartitionAssignment {
    PartitionAssignment { partition_id: p, node_id: node.to_string(), role, assigned_at: 5 }
}

#[test]
fn round_robin_spreads_leaders_and_followers() {
    let r = assign_partitions_round_robin(3, 2, &nodes(&["a", "b"]), 5);
    assert_eq!(
        r,
        vec![
            pa(0, "a", PartitionRole::Leader),
            pa(0, "b", PartitionRole::Follower),
            pa(1, "b", PartitionRole::Leader),
            pa(1, "a", PartitionRole::Follower),
            pa(2, "a", PartitionRole::Leader),
            pa(2, "b", PartitionRole::Follower),
        ]
    );
}

#[test]
fn round_robin_keeps_leader_and_follower_apart() {
    let ns = nodes(&["1", "2", "3"]);
    let r = assign_partitions_round_robin(10, 2, &ns, 0);
    for p in 0..10 {
        let leader: Vec<_> = r.iter().filter(|a| a.partition_id == p && a.role == PartitionRole::Leader).collect();
        let follower: Vec<_> = r.iter().filter(|a| a.partition_id == p && a.role == PartitionRole::Follower).collect();
        assert_eq!(leader.len(), 1, "Partition {} should have 1 leader", p);
        assert_eq!(follower.len(), 1, "Partition {} should have 1 follower", p);
        assert_ne!(leader[0].node_id, follower[0].node_id);
    }
}

#[test]
fn round_robin_without_partitions_is_empty() {
    assert!(assign_partitions_round_robin(0, 3, &nodes(&["a"]), 0).is_empty());
    assert!(assign_partitions_round_robin(-2, 3, &nodes(&["a"]), 0).is_empty());
}

#[test]
fn simple_placement_uses_first_nodes() {
    let r = assign_partitions_random(2, 5, &nodes(&["a", "b", "c"]), 5);
    assert_eq!(
        r,
        vec![
            pa(0, "a", PartitionRole::Leader),
            pa(0, "b", PartitionRole::Follower),
            pa(0, "c", PartitionRole::Follower),
            pa(1, "a", PartitionRole::Leader),
            pa(1, "b", PartitionRole::Follower),
            pa(1, "c", PartitionRole::Follower),
        ]
    );
    let single = assign_partitions_random(1, 1, &nodes(&["a", "b"]), 5);
    assert_eq!(single, vec![pa(0, "a", PartitionRole::Leader)]);
}

#[test]
fn mock_metadata() {
    let client = AdminClient::new("localhost:9092");
    let all = client.inner().fetch_metadata(None, 30).unwrap();
    let ids: Vec<i32> = all.brokers().iter().map(|b| b.id()).collect();
    assert_eq!(ids, vec![1, 2, 3]);
    let names: Vec<&str> = all.topics().iter().map(|t| t.name()).collect();
    assert_eq!(names, vec!["topic1", "topic2"]);
    let leaders: Vec<Vec<Option<i32>>> =
        all.topics().iter().map(|t| t.partitions().iter().map(|p| p.leader().map(|b| b.id())).collect()).collect();
    assert_eq!(leaders, vec![vec![Some(1), Some(2)], vec![Some(3), Some(1)]]);
    let replicas: Vec<Vec<Vec<i32>>> = all
        .topics()
        .iter()
        .map(|t| t.partitions().iter().map(|p| p.replicas().iter().map(|b| b.id()).collect()).collect())
        .collect();
    assert_eq!(replicas, vec![vec![vec![1, 2], vec![2, 3]], vec![vec![3, 1], vec![1, 2]]]);

    let one = client.fetch_metadata(Some("orders"), 30).unwrap();
    assert_eq!(one.topics().len(), 1);
    let topic = &one.topics()[0];
    assert_eq!(topic.name(), "orders");
    let parts = topic.partitions();
    assert_eq!(parts.len(), 3);
    assert_eq!(parts[2].id(), 2);
    assert_eq!(parts[2].leader().map(|b| b.id()), Some(3));
    let replicas: Vec<i32> = parts[2].replicas().iter().map(|b| b.id()).collect();
    assert_eq!(replicas, vec![3, 1]);
}

#[test]
fn rack_aware_puts_two_replicas_on_different_racks() {
    let r = assign_partitions_rack_aware(2, 2, &nodes(&["a1", "a2", "b1", "c1"]), 5).unwrap();
    assert_eq!(
        r,
        vec![
            pa(0, "a1", PartitionRole::Leader),
            pa(0, "b1", PartitionRole::Follower),
            pa(1, "b1", PartitionRole::Leader),
            pa(1, "c1", PartitionRole::Follower),
        ]
    );
}

#[test]
fn rack_aware_with_three_replicas() {
    let r = assign_partitions_rack_aware(2, 3, &nodes(&["a1", "a2", "b1", "c1"]), 5).unwrap();
    assert_eq!(
        r,
        vec![
            pa(0, "a1", PartitionRole::Leader),
            pa(0, "b1", PartitionRole::Follower),
            pa(0, "c1", PartitionRole::Follower),
            pa(1, "b1", PartitionRole::Leader),
            pa(1, "c1", PartitionRole::Follower),
            pa(1, "a2", PartitionRole::Follower),
        ]
    );
}

#[test]
fn rack_aware_on_a_single_rack_adds_same_rack_followers() {
    let r = assign_partitions_rack_aware(1, 3, &nodes(&["a1", "a2", "a3"]), 5).unwrap();
    assert_eq!(
        r,
        vec![
            pa(0, "a1", PartitionRole::Leader),
            pa(0, "a2", PartitionRole::Follower),
            pa(0, "a3", PartitionRole::Follower),
            pa(0, "a3", PartitionRole::Follower),
        ]
    );
}

#[test]
fn rack_aware_needs_a_node() {
    assert_eq!(
        assign_partitions_rack_aware(3, 1, &nodes(&[]), 5).unwrap_err(),
        "No racks available for partition assignment"
    );
    let r = assign_partitions_rack_aware(2, 1, &nodes(&["", "x"]), 5).unwrap();
    assert_eq!(r, vec![pa(0, "", PartitionRole::Leader), pa(1, "x", PartitionRole::Leader)]);
}

fn load(node: &str, partitions: u32, leaders: u32) -> NodeLoad {
    NodeLoad {
        node_id: node.to_string(),
        partition_count: partitions,
        leader_partition_count: leaders,
        total_size_bytes: 0,
        total_message_count: 0,
    }
}

#[test]
fn load_based_takes_turns_on_an_idle_cluster() {
    let r = assign_partitions_load_based(3, 1, &nodes(&["1", "2", "3"]), &vec![], 5);
    assert_eq!(
        r,
        vec![pa(0, "1", PartitionRole::Leader), pa(1, "2", PartitionRole::Leader), pa(2, "3", PartitionRole::Leader)]
    );
}

#[test]
fn load_based_followers_go_to_the_least_loaded() {
    let r = assign_partitions_load_based(2, 2, &nodes(&["1", "2", "3"]), &vec![], 5);
    assert_eq!(
        r,
        vec![
            pa(0, "1", PartitionRole::Leader),
            pa(0, "2", PartitionRole::Follower),
            pa(1, "3", PartitionRole::Leader),
            pa(1, "2", PartitionRole::Follower),
        ]
    );
}

#[test]
fn load_based_starts_from_the_loads() {
    let loads = vec![load("1", 5, 5), load("2", 1, 0)];
    let r = assign_partitions_load_based(2, 1, &nodes(&["1", "2", "3"]), &loads, 5);
    assert_eq!(r, vec![pa(0, "2", PartitionRole::Leader), pa(1, "3", PartitionRole::Leader)]);
}

#[test]
fn load_based_never_makes_the_leader_a_follower() {
    // node 1 leads and still holds the fewest partitions: the follower round passes
    let loads = vec![load("1", 0, 0), load("2", 5, 0)];
    let r = assign_partitions_load_based(2, 2, &nodes(&["1", "2"]), &loads, 5);
    assert_eq!(r, vec![pa(0, "1", PartitionRole::Leader), pa(1, "1", PartitionRole::Leader)]);
}

#[test]
fn strategies_and_empty_node_lists() {
    let ns = nodes(&["1", "2", "3"]);
    let rr = assign_partitions(PartitionAssignmentStrategy::RoundRobin, 6, 1, &ns, &vec![], 5).unwrap();
    assert_eq!(rr, assign_partitions_round_robin(6, 1, &ns, 5));
    let mut counts = [0, 0, 0];
    for a in &rr {
        counts[ns.iter().position(|n| n == &a.node_id).unwrap()] += 1;
    }
    assert_eq!(counts, [2, 2, 2]);
    let random = assign_partitions(PartitionAssignmentStrategy::Random, 10, 1, &ns, &vec![], 5).unwrap();
    assert_eq!(random.len(), 10);
    let mut seen = vec![false; 10];
    for a in &random {
        seen[a.partition_id as usize] = true;
    }
    assert!(seen.iter().all(|s| *s));
    let racks = assign_partitions(PartitionAssignmentStrategy::RackAware, 2, 1, &ns, &vec![], 5).unwrap();
    assert_eq!(racks, vec![pa(0, "1", PartitionRole::Leader), pa(1, "2", PartitionRole::Leader)]);
    assert_eq!(
        assign_partitions(PartitionAssignmentStrategy::LoadBased, 1, 1, &nodes(&[]), &vec![], 5).unwrap_err(),
        "No available nodes for partition assignment"
    );
}

#[test]
fn loads_of_the_cluster() {
    let metadata = AdminClient::new("localhost:9092").fetch_metadata(None, 10).unwrap();
    let loads = node_loads(&metadata);
    let summary: Vec<(String, u32, u32)> =
        loads.iter().map(|l| (l.node_id.clone(), l.partition_count, l.leader_partition_count)).collect();
    assert_eq!(
        summary,
        vec![("1".to_string(), 5, 2), ("2".to_string(), 4, 1), ("3".to_string(), 3, 1)]
    );
    assert_eq!(available_nodes(&metadata), nodes(&["1", "2", "3"]));
}

#[test]
fn details_of_a_partition() {
    let metadata = AdminClient::new("localhost:9092").fetch_metadata(Some("orders"), 10).unwrap();
    assert_eq!(locate_partition(&metadata, "orders", 1), Ok((0, 1)));
    assert_eq!(locate_partition(&metadata, "orders", 7), Err("Partition not found: 7".to_string()));
    assert_eq!(locate_partition(&metadata, "users", 0), Err("Topic not found: users".to_string()));
    let q = &metadata.topics()[0].partitions()[2];
    assert_eq!(
        partition_replicas(q, 9),
        vec![
            PartitionAssignment { partition_id: 2, node_id: "3".to_string(), role: PartitionRole::Leader, assigned_at: 9 },
            PartitionAssignment { partition_id: 2, node_id: "1".to_string(), role: PartitionRole::Follower, assigned_at: 9 },
        ]
    );
}

fn plan(p: i32, topic: &str, from: &str, to: &str) -> PartitionMigrationPlan {
    PartitionMigrationPlan {
        partition_id: p,
        topic_name: topic.to_string(),
        source_node_id: from.to_string(),
        target_node_id: to.to_string(),
        priority: 1,
        estimated_size_bytes: 0,
        estimated_duration_sec: 60,
    }
}

#[test]
fn migration_plan_moves_from_most_to_least_loaded() {
    let metadata = AdminClient::new("localhost:9092").fetch_metadata(None, 10).unwrap();
    let loads = node_loads(&metadata);
    assert_eq!(
        generate_migration_plan(&loads, &metadata, 10),
        vec![plan(0, "topic1", "1", "3"), plan(1, "topic2", "1", "3")]
    );
    assert_eq!(generate_migration_plan(&loads, &metadata, 1), vec![plan(0, "topic1", "1", "3")]);
    assert_eq!(generate_migration_plan(&loads, &metadata, 0), vec![]);
    assert_eq!(generate_migration_plan(&loads[..1].to_vec(), &metadata, 10), vec![]);
    // an even cluster needs no move
    let even = vec![load("1", 4, 1), load("2", 4, 1), load("3", 4, 1)];
    assert_eq!(generate_migration_plan(&even, &metadata, 10), vec![]);
}

#[test]
fn rebalance_gate_and_timing() {
    assert_eq!(rebalance_gate(false, None, 1000, 300).unwrap_err(), "Rebalance is disabled in the configuration");
    assert!(rebalance_gate(true, None, 1000, 300).is_ok());
    assert!(rebalance_gate(true, Some(700), 1000, 300).is_ok());
    assert_eq!(
        rebalance_gate(true, Some(900), 1000, 300).unwrap_err(),
        "Minimum rebalance interval not reached. Please wait 200 seconds."
    );
    assert_eq!(next_rebalance_time(false, true, Some(1000), 300), Some(1300));
    assert_eq!(next_rebalance_time(true, true, Some(1000), 300), None);
    assert_eq!(next_rebalance_time(false, false, Some(1000), 300), None);
    assert_eq!(next_rebalance_time(false, true, None, 300), None);
}

#[test]
fn selected_migrations() {
    let plans = vec![plan(0, "a", "1", "3"), plan(1, "b", "1", "3"), plan(2, "a", "2", "3")];
    assert_eq!(select_migrations(&plans, &None, None), plans);
    assert_eq!(
        select_migrations(&plans, &Some(vec!["a".to_string()]), None),
        vec![plan(0, "a", "1", "3"), plan(2, "a", "2", "3")]
    );
    assert_eq!(select_migrations(&plans, &Some(vec!["a".to_string()]), Some(1)), vec![plan(0, "a", "1", "3")]);
    assert_eq!(select_migrations(&plans, &None, Some(5)), plans);
}
