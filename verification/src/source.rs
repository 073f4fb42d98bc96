//! Where a topic source starts reading each of its partitions.

use std::collections::HashMap;
use vstd::prelude::*;
use vstd::std_specs::hash::group_hash_axioms;
use crate::text::{append_chars, chars_of, decimal, string_from_chars, u64_to_decimal};

verus! {

broadcast use group_hash_axioms;

/// Where a source starts a partition it has no saved position for.
#[derive(Debug, Clone, Copy, PartialEq, Eq, Structural)]
pub enum SourceOffset {
    Earliest,
    Latest,
    Specific(u64),
}

/// Where reading a partition starts.
#[derive(Debug, Clone, Copy, PartialEq, Eq, Structural)]
pub enum StartPosition {
    Beginning,
    End,
    Offset(u64),
}

/// The saved position of a partition.
#[derive(Debug, Clone, Copy, PartialEq, Eq)]
pub struct TopicState {
    pub partition: u32,
    pub offset: u64,
}

/// A saved position wins; else the source's mode decides.
pub open spec fn start_of(saved: Option<u64>, mode: SourceOffset) -> StartPosition {
    match saved {
        Some(o) => StartPosition::Offset(o),
        None => match mode {
            SourceOffset::Earliest => StartPosition::Beginning,
            SourceOffset::Latest => StartPosition::End,
            SourceOffset::Specific(o) => StartPosition::Offset(o),
        },
    }
}

/// The offset known before reading: the saved one, or the one the mode
/// names.
pub open spec fn known_offset(saved: Option<u64>, mode: SourceOffset) -> Option<u64> {
    match saved {
        Some(o) => Some(o),
        None => match mode {
            SourceOffset::Specific(o) => Some(o),
            _ => None,
        },
    }
}

/// The offsets known for the partitions, a later mention of a partition
/// replacing an earlier one.
pub open spec fn known_offsets(parts: Seq<u32>, saved: Seq<Option<u64>>, mode: SourceOffset) -> Map<u32, u64>
    decreases parts.len(),
{
    if parts.len() == 0 {
        Map::empty()
    } else {
        let earlier = known_offsets(parts.drop_last(), saved.drop_last(), mode);
        match known_offset(saved.last(), mode) {
            Some(o) => earlier.insert(parts.last(), o),
            None => earlier,
        }
    }
}

/// The offsets a source starts from: those known; when the mode is the
/// earliest or the latest and none is known, offset 0 for partitions 0 to
/// 9.
pub open spec fn initial_offset_map(parts: Seq<u32>, saved: Seq<Option<u64>>, mode: SourceOffset) -> Map<u32, u64> {
    let known = known_offsets(parts, saved, mode);
    if !(mode is Specific) && known == Map::<u32, u64>::empty() {
        Map::new(|p: u32| p < 10, |p: u32| 0u64)
    } else {
        known
    }
}

/// Where each partition starts, `saved[i]` being the saved offset of
/// `partitions[i]`, and the offsets the source starts from.
pub fn initial_offsets(partitions: &Vec<u32>, saved: &Vec<Option<u64>>, mode: SourceOffset) -> (r: (
    Vec<(u32, StartPosition)>,
    HashMap<u32, u64>,
))
    requires
        saved@.len() == partitions@.len(),
    ensures
        r.0@.len() == partitions@.len(),
        forall|i: int| 0 <= i < r.0@.len() ==> #[trigger] r.0@[i] == (partitions@[i], start_of(saved@[i], mode)),
        r.1@ == initial_offset_map(partitions@, saved@, mode),
{
    let mut starts: Vec<(u32, StartPosition)> = Vec::new();
    let mut offsets: HashMap<u32, u64> = HashMap::new();
    let mut i: usize = 0;
    proof {
        assert(offsets@ =~= known_offsets(partitions@.subrange(0, 0), saved@.subrange(0, 0), mode));
    }
    while i < partitions.len()
        invariant
            0 <= i <= partitions@.len(),
            saved@.len() == partitions@.len(),
            starts@.len() == i,
            forall|k: int| 0 <= k < i ==> #[trigger] starts@[k] == (partitions@[k], start_of(saved@[k], mode)),
            offsets@ == known_offsets(partitions@.subrange(0, i as int), saved@.subrange(0, i as int), mode),
        decreases partitions.len() - i,
    {
        let p = partitions[i];
        let s = saved[i];
        proof {
            assert(partitions@.subrange(0, i + 1).drop_last() =~= partitions@.subrange(0, i as int));
            assert(saved@.subrange(0, i + 1).drop_last() =~= saved@.subrange(0, i as int));
            assert(partitions@.subrange(0, i + 1).last() == p);
            assert(saved@.subrange(0, i + 1).last() == s);
        }
        match s {
            Some(o) => {
                offsets.insert(p, o);
                starts.push((p, StartPosition::Offset(o)));
            },
            None => match mode {
                SourceOffset::Earliest => {
                    starts.push((p, StartPosition::Beginning));
                },
                SourceOffset::Latest => {
                    starts.push((p, StartPosition::End));
                },
                SourceOffset::Specific(o) => {
                    offsets.insert(p, o);
                    starts.push((p, StartPosition::Offset(o)));
                },
            },
        }
        i = i + 1;
    }
    proof {
        assert(partitions@.subrange(0, partitions@.len() as int) =~= partitions@);
        assert(saved@.subrange(0, saved@.len() as int) =~= saved@);
    }
    let specific = match mode {
        SourceOffset::Specific(_) => true,
        _ => false,
    };
    if !specific && offsets.len() == 0 {
        proof {
            assert(offsets@.dom().finite());
            vstd::set_lib::lemma_set_empty_equivalency_len(offsets@.dom());
            assert(offsets@ =~= Map::<u32, u64>::empty());
        }
        let mut p: u32 = 0;
        while p < 10
            invariant
                p <= 10,
                offsets@ == Map::new(|q: u32| q < p, |q: u32| 0u64),
            decreases 10 - p,
        {
            offsets.insert(p, 0);
            proof {
                assert(offsets@ =~= Map::new(|q: u32| q < p + 1, |q: u32| 0u64));
            }
            p = p + 1;
        }
    } else {
        proof {
            if !specific {
                assert(offsets@.dom().finite());
                assert(offsets@.len() > 0);
                assert(offsets@ != Map::<u32, u64>::empty()) by {
                    if offsets@ == Map::<u32, u64>::empty() {
                        assert(offsets@.dom() =~= Set::<u32>::empty());
                    }
                }
            }
        }
    }
    (starts, offsets)
}

/// The entries of an offset map, each partition once.
pub fn map_entries(m: &HashMap<u32, u64>) -> (entries: Vec<(u32, u64)>)
    ensures
        entries@.map_values(|e: (u32, u64)| e.0).no_duplicates(),
        forall|j: int| 0 <= j < entries@.len() ==> #[trigger] m@.contains_key(entries@[j].0) && m@[entries@[j].0] == entries@[j].1,
        forall|k: u32| m@.contains_key(k) ==> exists|j: int| 0 <= j < entries@.len() && #[trigger] entries@[j].0 == k,
{
    let mut entries: Vec<(u32, u64)> = Vec::new();
    let ghost mm = m@;
    for (key, value) in it: m.iter()
        invariant
            mm == m@,
            it.seq().no_duplicates(),
            forall|i: int| #![trigger it.seq()[i]] 0 <= i < it.seq().len() ==>
                mm.contains_key(*it.seq()[i].0) && mm[*it.seq()[i].0] == *it.seq()[i].1,
            forall|k: u32| #[trigger] mm.contains_key(k) ==> it.seq().contains((&k, &mm[k])),
            entries@ == it.seq().subrange(0, it.index()).map_values(|p: (&u32, &u64)| (*p.0, *p.1)),
            entries@.map_values(|e: (u32, u64)| e.0).no_duplicates(),
            forall|j: int| 0 <= j < entries@.len() ==> #[trigger] mm.contains_key(entries@[j].0) && mm[entries@[j].0] == entries@[j].1,
            forall|k: u32| #[trigger] mm.contains_key(k) ==> (exists|j: int| 0 <= j < entries@.len() && #[trigger] entries@[j].0 == k)
                || exists|j: int| it.index() <= j < it.seq().len() && *it.seq()[j].0 == k,
    {
        let ghost idx = it.index();
        let ghost before = entries@;
        proof {
            assert(it.seq()[idx] == (key, value));
            assert forall|q: int| 0 <= q < entries@.len() implies entries@[q].0 != *key by {
                if entries@[q].0 == *key {
                    assert(*it.seq()[q].0 == *key);
                    assert(mm[*it.seq()[q].0] == *it.seq()[q].1);
                    assert(it.seq()[q] == it.seq()[idx]);
                }
            }
        }
        entries.push((*key, *value));
        proof {
            assert(entries@[idx] == (*key, *value));
            assert(it.seq().subrange(0, idx + 1).map_values(|p: (&u32, &u64)| (*p.0, *p.1)) =~= entries@);
            assert(entries@.map_values(|e: (u32, u64)| e.0) =~= before.map_values(|e: (u32, u64)| e.0).push(*key));
            assert forall|k: u32| #[trigger] mm.contains_key(k) implies (exists|j: int| 0 <= j < entries@.len() && #[trigger] entries@[j].0 == k)
                || exists|j: int| idx + 1 <= j < it.seq().len() && *it.seq()[j].0 == k by {
                if exists|j: int| 0 <= j < before.len() && #[trigger] before[j].0 == k {
                    let j = choose|j: int| 0 <= j < before.len() && #[trigger] before[j].0 == k;
                    assert(entries@[j] == before[j]);
                } else {
                    let j = choose|j: int| idx <= j < it.seq().len() && *it.seq()[j].0 == k;
                    if j == idx {
                        assert(entries@[idx as int].0 == k);
                    }
                }
            }
        }
    }
    entries
}

/// What the topic source is told.
#[derive(Debug, Clone, Copy, PartialEq, Eq)]
pub enum SourceEvent {
    /// Time for the next message.
    MessageTick,
    /// Time to flush and send a watermark.
    FlushTick,
    Checkpoint { then_stop: bool },
    Stop { graceful: bool },
    LoadCompacted,
    NoOp,
    Commit,
    /// The control channel closed.
    ChannelClosed,
}

/// How a source ends.
#[derive(Debug, Clone, Copy, PartialEq, Eq, Structural)]
pub enum SourceFinishType {
    Final,
    Immediate,
}

/// What the source's driver does next.
#[derive(Debug, Clone, PartialEq, Eq)]
pub enum SourceAction {
    /// Emit a record of `partition` at `offset`, then flush.
    Emit { partition: u32, offset: u64, key: String, value: String },
    /// Flush and send a watermark for the current time.
    FlushAndWatermark,
    /// Flush, save each partition's offset and commit them; then, with
    /// `then_stop`, end for good.
    Checkpoint { offsets: Vec<(u32, u64)>, then_stop: bool },
    /// Load the compacted state.
    LoadCompacted,
    Nothing,
    /// End, flushing first when `flush`.
    Finish { flush: bool, finish: SourceFinishType },
}

/// `prefix-partition-offset`.
pub open spec fn record_text(prefix: Seq<char>, partition: u32, offset: u64) -> Seq<char> {
    prefix + decimal(partition as nat) + "-"@ + decimal(offset as nat)
}

fn record_text_of(prefix: &str, partition: u32, offset: u64) -> (s: String)
    ensures
        s@ == record_text(prefix@, partition, offset),
{
    let mut cs = chars_of(prefix);
    append_chars(&mut cs, u64_to_decimal(partition as u64).as_str());
    append_chars(&mut cs, "-");
    append_chars(&mut cs, u64_to_decimal(offset).as_str());
    string_from_chars(&cs)
}

/// The running topic source: the offset reached in each partition.
pub struct TopicSourceRun {
    pub offsets: HashMap<u32, u64>,
}

impl TopicSourceRun {
    /// Reacts to an event: a message tick emits the next record of
    /// partition 0, one past its offset (0 when it has none); a checkpoint
    /// saves and commits the offsets; a stop ends the source, finally when
    /// graceful; a closed channel ends it at once.
    pub fn step(&mut self, event: SourceEvent) -> (a: SourceAction)
        requires
            event == SourceEvent::MessageTick ==> match old(self).offsets@.get(0) {
                Some(o) => o < u64::MAX,
                None => true,
            },
        ensures
            match event {
                SourceEvent::MessageTick => {
                    let next = match old(self).offsets@.get(0) {
                        Some(o) => (o + 1) as u64,
                        None => 1u64,
                    };
                    &&& final(self).offsets@ == old(self).offsets@.insert(0, next)
                    &&& a matches SourceAction::Emit { partition, offset, key, value }
                    &&& partition == 0 && offset == next
                    &&& key@ == record_text("key-"@, 0, next) && value@ == record_text("value-"@, 0, next)
                },
                _ => final(self).offsets@ == old(self).offsets@ && match event {
                    SourceEvent::FlushTick => a == SourceAction::FlushAndWatermark,
                    SourceEvent::Checkpoint { then_stop } => a matches SourceAction::Checkpoint { offsets, then_stop: ts }
                        && ts == then_stop
                        && offsets@.map_values(|e: (u32, u64)| e.0).no_duplicates()
                        && (forall|j: int| 0 <= j < offsets@.len() ==> #[trigger] old(self).offsets@.contains_key(offsets@[j].0)
                            && old(self).offsets@[offsets@[j].0] == offsets@[j].1)
                        && (forall|k: u32| old(self).offsets@.contains_key(k) ==> exists|j: int| 0 <= j < offsets@.len()
                            && #[trigger] offsets@[j].0 == k),
                    SourceEvent::Stop { graceful } => a == (if graceful {
                        SourceAction::Finish { flush: true, finish: SourceFinishType::Final }
                    } else {
                        SourceAction::Finish { flush: false, finish: SourceFinishType::Immediate }
                    }),
                    SourceEvent::LoadCompacted => a == SourceAction::LoadCompacted,
                    SourceEvent::ChannelClosed => a == SourceAction::Finish { flush: false, finish: SourceFinishType::Immediate },
                    _ => a == SourceAction::Nothing,
                },
            },
    {
        match event {
            SourceEvent::MessageTick => {
                let next: u64 = match self.offsets.get(&0) {
                    Some(o) => *o + 1,
                    None => 1,
                };
                self.offsets.insert(0, next);
                SourceAction::Emit {
                    partition: 0,
                    offset: next,
                    key: record_text_of("key-", 0, next),
                    value: record_text_of("value-", 0, next),
                }
            },
            SourceEvent::FlushTick => SourceAction::FlushAndWatermark,
            SourceEvent::Checkpoint { then_stop } => SourceAction::Checkpoint { offsets: map_entries(&self.offsets), then_stop },
            SourceEvent::Stop { graceful } => {
                if graceful {
                    SourceAction::Finish { flush: true, finish: SourceFinishType::Final }
                } else {
                    SourceAction::Finish { flush: false, finish: SourceFinishType::Immediate }
                }
            },
            SourceEvent::LoadCompacted => SourceAction::LoadCompacted,
            SourceEvent::ChannelClosed => SourceAction::Finish { flush: false, finish: SourceFinishType::Immediate },
            SourceEvent::NoOp | SourceEvent::Commit => SourceAction::Nothing,
        }
    }
}

} // verus!
