use arroyo_control::sink::{new_transaction_id, PartitionStrategy, SinkPartitioner, TopicSinkRun, Transaction, TransactionState};

#[test]
fn transaction_lifecycle() {
    let mut tx = Transaction::new("tx-1".to_string());
    assert_eq!(tx.state, TransactionState::NotStarted);
    assert!(tx.buffered_messages.is_empty());
    tx.start();
    assert_eq!(tx.state, TransactionState::Started);
    tx.buffer_message(2, vec![1, 2]);
    tx.buffer_message(2, vec![3]);
    tx.buffer_message(0, vec![]);
    assert_eq!(tx.buffered_messages.get(&2), Some(&vec![vec![1, 2], vec![3]]));
    assert_eq!(tx.buffered_messages.get(&0), Some(&vec![vec![]]));
    tx.set_checkpoint_id(9);
    assert_eq!(tx.checkpoint_id, Some(9));
    tx.commit();
    assert_eq!(tx.state, TransactionState::Committed);
    tx.abort();
    assert_eq!(tx.state, TransactionState::Aborted);
}

#[test]
fn round_robin_partitions_turn() {
    let mut p = SinkPartitioner {
        partition_strategy: PartitionStrategy::RoundRobin,
        partition_count: 3,
        current_partition_index: 0,
    };
    let picks: Vec<u32> = (0..7).map(|i| p.determine_partition(i)).collect();
    assert_eq!(picks, vec![0, 1, 2, 0, 1, 2, 0]);
    assert_eq!(p.current_partition_index, 1);
}

#[test]
fn hash_and_custom_partitions_follow_position() {
    for strategy in [PartitionStrategy::Hash, PartitionStrategy::Custom] {
        let mut p = SinkPartitioner { partition_strategy: strategy, partition_count: 4, current_partition_index: 2 };
        assert_eq!(p.determine_partition(9), 1);
        assert_eq!(p.determine_partition(4), 0);
        assert_eq!(p.current_partition_index, 2);
    }
}

#[test]
fn transaction_ids_carry_topic_and_epoch() {
    let plain = new_transaction_id("orders", None);
    assert!(plain.starts_with("tx-orders-"));
    assert_eq!(plain.len(), "tx-orders-".len() + 36);
    let at_epoch = new_transaction_id("orders", Some(12));
    assert!(at_epoch.starts_with("tx-orders-"));
    assert!(at_epoch.ends_with("-12"));
    assert_eq!(at_epoch.len(), "tx-orders-".len() + 36 + 3);
}

#[test]
fn plain_sink_writes_at_once_in_turn() {
    let mut sink = TopicSinkRun::new("orders".to_string());
    sink.on_started();
    assert!(sink.current_transaction.is_none());
    let (writes, flush) = sink.process_batch(vec![vec![1], vec![2], vec![3], vec![4]], true);
    assert_eq!(writes, vec![(0, vec![1]), (1, vec![2]), (2, vec![3]), (0, vec![4])]);
    assert!(!flush);
    assert_eq!(sink.partitioner.current_partition_index, 1);
    assert_eq!(sink.current_buffer_size, 0);
    assert!(!sink.checkpoint(4));
}

#[test]
fn hashed_sink_places_by_position() {
    let mut sink = TopicSinkRun::new("t".to_string()).with_partition_strategy(PartitionStrategy::Hash).with_partition_count(2);
    let (writes, _) = sink.process_batch(vec![vec![9], vec![8], vec![7]], false);
    assert_eq!(writes, vec![(0, vec![9]), (1, vec![8]), (0, vec![7])]);
    assert_eq!(sink.partitioner.current_partition_index, 0);
}

#[test]
fn transactional_sink_holds_flushes_and_commits() {
    let mut sink = TopicSinkRun::new("orders".to_string()).with_transactions().with_buffer_size_limit(3);
    sink.on_started();
    let first_id = sink.current_transaction.as_ref().unwrap().id.clone();
    assert!(first_id.starts_with("tx-orders-"));
    assert_eq!(first_id.len(), "tx-orders-".len() + 36);
    assert_eq!(sink.current_transaction.as_ref().unwrap().state, TransactionState::Started);

    let (writes, flush) = sink.process_batch(vec![vec![1], vec![2]], false);
    assert!(writes.is_empty());
    assert!(!flush);
    assert_eq!(sink.current_buffer_size, 2);
    let (_, flush) = sink.process_batch(vec![vec![3]], false);
    assert!(flush);
    {
        let held = &sink.current_transaction.as_ref().unwrap().buffered_messages;
        assert_eq!(held.get(&0), Some(&vec![vec![1]]));
        assert_eq!(held.get(&1), Some(&vec![vec![2]]));
        assert_eq!(held.get(&2), Some(&vec![vec![3]]));
    }
    sink.flushed();
    assert_eq!(sink.current_buffer_size, 0);
    let (_, flush) = sink.process_batch(vec![vec![4]], true);
    assert!(flush);

    assert!(sink.checkpoint(7));
    assert_eq!(sink.current_transaction.as_ref().unwrap().checkpoint_id, Some(7));
    sink.finish_checkpoint(7, true);
    assert_eq!(sink.last_committed_transaction_id, Some(first_id.clone()));
    assert_eq!(sink.current_buffer_size, 0);
    let next = sink.current_transaction.as_ref().unwrap();
    assert_ne!(next.id, first_id);
    assert!(next.id.starts_with("tx-orders-"));
    assert!(next.id.ends_with("-7"));
    assert_eq!(next.state, TransactionState::Started);
    assert!(next.buffered_messages.is_empty());
}

#[test]
fn a_failed_flush_commits_nothing() {
    let mut sink = TopicSinkRun::new("t".to_string()).with_transactions();
    sink.on_started();
    sink.process_batch(vec![vec![1]], false);
    assert!(sink.checkpoint(2));
    sink.finish_checkpoint(2, false);
    assert_eq!(sink.last_committed_transaction_id, None);
    assert_eq!(sink.current_buffer_size, 1);
    sink.abort_transaction();
    assert_eq!(sink.current_transaction.as_ref().unwrap().state, TransactionState::Aborted);
    assert_eq!(sink.current_buffer_size, 0);
}

#[test]
fn a_transactional_sink_without_a_transaction_keeps_nothing() {
    let mut sink = TopicSinkRun::new("t".to_string()).with_transactions();
    let (writes, flush) = sink.process_batch(vec![vec![1], vec![2]], true);
    assert!(writes.is_empty());
    assert!(!flush);
    assert_eq!(sink.current_buffer_size, 0);
    assert!(!sink.checkpoint(1));
}
