use arroyo_control::source::{
    initial_offsets, map_entries, SourceAction, SourceEvent, SourceFinishType, SourceOffset, StartPosition, TopicSourceRun,
};
use std::collections::HashMap;

#[test]
fn saved_positions_win() {
    let (starts, offsets) = initial_offsets(&vec![0, 1, 2], &vec![Some(42), None, Some(7)], SourceOffset::Latest);
    assert_eq!(starts, vec![(0, StartPosition::Offset(42)), (1, StartPosition::End), (2, StartPosition::Offset(7))]);
    assert_eq!(offsets, HashMap::from([(0, 42), (2, 7)]));
}

#[test]
fn a_specific_offset_applies_to_unsaved_partitions() {
    let (starts, offsets) = initial_offsets(&vec![3, 4], &vec![None, Some(1)], SourceOffset::Specific(100));
    assert_eq!(starts, vec![(3, StartPosition::Offset(100)), (4, StartPosition::Offset(1))]);
    assert_eq!(offsets, HashMap::from([(3, 100), (4, 1)]));
}

#[test]
fn nothing_known_starts_ten_partitions_at_zero() {
    let (starts, offsets) = initial_offsets(&vec![0, 1], &vec![None, None], SourceOffset::Earliest);
    assert_eq!(starts, vec![(0, StartPosition::Beginning), (1, StartPosition::Beginning)]);
    assert_eq!(offsets, (0..10).map(|p| (p, 0)).collect::<HashMap<u32, u64>>());
    let (_, none) = initial_offsets(&vec![], &vec![], SourceOffset::Specific(5));
    assert!(none.is_empty());
}

#[test]
fn the_source_emits_records_of_partition_zero() {
    let mut run = TopicSourceRun { offsets: HashMap::from([(0, 41), (3, 9)]) };
    assert_eq!(
        run.step(SourceEvent::MessageTick),
        SourceAction::Emit { partition: 0, offset: 42, key: "key-0-42".to_string(), value: "value-0-42".to_string() }
    );
    assert_eq!(run.offsets, HashMap::from([(0, 42), (3, 9)]));
    let mut fresh = TopicSourceRun { offsets: HashMap::new() };
    assert_eq!(
        fresh.step(SourceEvent::MessageTick),
        SourceAction::Emit { partition: 0, offset: 1, key: "key-0-1".to_string(), value: "value-0-1".to_string() }
    );
}

#[test]
fn the_source_checkpoints_and_stops() {
    let mut run = TopicSourceRun { offsets: HashMap::from([(0, 5), (1, 7)]) };
    match run.step(SourceEvent::Checkpoint { then_stop: true }) {
        SourceAction::Checkpoint { mut offsets, then_stop } => {
            offsets.sort();
            assert_eq!(offsets, vec![(0, 5), (1, 7)]);
            assert!(then_stop);
        },
        other => panic!("{:?}", other),
    }
    assert_eq!(run.step(SourceEvent::FlushTick), SourceAction::FlushAndWatermark);
    assert_eq!(
        run.step(SourceEvent::Stop { graceful: true }),
        SourceAction::Finish { flush: true, finish: SourceFinishType::Final }
    );
    assert_eq!(
        run.step(SourceEvent::Stop { graceful: false }),
        SourceAction::Finish { flush: false, finish: SourceFinishType::Immediate }
    );
    assert_eq!(
        run.step(SourceEvent::ChannelClosed),
        SourceAction::Finish { flush: false, finish: SourceFinishType::Immediate }
    );
    assert_eq!(run.step(SourceEvent::NoOp), SourceAction::Nothing);
    assert_eq!(run.step(SourceEvent::LoadCompacted), SourceAction::LoadCompacted);
    let mut e = map_entries(&HashMap::from([(2u32, 20u64), (1, 10)]));
    e.sort();
    assert_eq!(e, vec![(1, 10), (2, 20)]);
}
